//! Bit layout codec: packing and unpacking of a format's bit pattern into
//! sign, biased exponent and significand fields, and IEEE-754 classification.
use vstd::prelude::*;
use vstd::arithmetic::power2::{pow2, lemma_pow2_unfold, lemma_pow2_adds, lemma_pow2_strictly_increases};
use vstd::arithmetic::div_mod::{
    lemma_fundamental_div_mod, lemma_div_denominator, lemma_div_multiples_vanish_fancy,
    lemma_mod_multiples_vanish, lemma_multiply_divide_lt, lemma_mod_bound, lemma_small_mod,
};
use vstd::arithmetic::mul::lemma_mul_inequality;
use crate::params::{
    Precision, sig_width, exp_width, width, bias, bexp_all_ones, min_exp, max_exp,
    format_params, pow2x, lemma_pow2_le_127, lemma_pow2_le,
};

verus! {

/// IEEE-754 classification of a bit pattern.
#[derive(Clone, Copy, PartialEq, Eq, Structural, Debug)]
pub enum Class {
    Zero,
    Subnormal,
    Normal,
    Infinity,
    QuietNan,
    SignalingNan,
}

/// A decoded value: unbiased exponent and significand with the implicit
/// leading bit made explicit for normal values. For zeros, infinities and
/// NaNs the exponent is a zero sentinel; a NaN keeps its payload in
/// `significand`.
#[derive(Clone, Copy, PartialEq, Eq, Structural, Debug)]
pub struct FloatValue {
    pub sign: bool,
    pub exponent: i64,
    pub significand: u128,
    pub class: Class,
}

/// The bit pattern is sized to the format.
pub open spec fn fits(bits: nat, p: Precision) -> bool {
    bits < pow2(width(p))
}

/// Sign field of a bit pattern.
pub open spec fn spec_sign(bits: nat, p: Precision) -> bool {
    bits / pow2((width(p) - 1) as nat) == 1
}

/// Biased-exponent field of a bit pattern.
pub open spec fn spec_bexp(bits: nat, p: Precision) -> nat {
    (bits / pow2(sig_width(p))) % pow2(exp_width(p))
}

/// Stored significand field (fraction) of a bit pattern.
pub open spec fn spec_frac(bits: nat, p: Precision) -> nat {
    bits % pow2(sig_width(p))
}

/// IEEE-754 classification rules.
pub open spec fn spec_class(bits: nat, p: Precision) -> Class {
    let be = spec_bexp(bits, p);
    let f = spec_frac(bits, p);
    if be == 0 {
        if f == 0 {
            Class::Zero
        } else {
            Class::Subnormal
        }
    } else if be == bexp_all_ones(p) {
        if f == 0 {
            Class::Infinity
        } else if f >= pow2((sig_width(p) - 1) as nat) {
            Class::QuietNan
        } else {
            Class::SignalingNan
        }
    } else {
        Class::Normal
    }
}

/// Significand with the implicit leading bit made explicit for normals;
/// the NaN payload for NaNs; zero for zeros and infinities.
pub open spec fn spec_sig(bits: nat, p: Precision) -> nat {
    let c = spec_class(bits, p);
    if c == Class::Normal {
        spec_frac(bits, p) + pow2(sig_width(p))
    } else if c == Class::Zero || c == Class::Infinity {
        0
    } else {
        spec_frac(bits, p)
    }
}

/// Unbiased exponent; zero sentinel outside the finite nonzero classes.
pub open spec fn spec_exp(bits: nat, p: Precision) -> int {
    let c = spec_class(bits, p);
    if c == Class::Normal {
        spec_bexp(bits, p) - bias(p)
    } else if c == Class::Subnormal {
        min_exp(p)
    } else {
        0
    }
}

pub open spec fn is_nan(bits: nat, p: Precision) -> bool {
    spec_class(bits, p) == Class::QuietNan || spec_class(bits, p) == Class::SignalingNan
}

pub open spec fn is_finite(bits: nat, p: Precision) -> bool {
    spec_class(bits, p) == Class::Zero || spec_class(bits, p) == Class::Subnormal
        || spec_class(bits, p) == Class::Normal
}

pub open spec fn is_zero(bits: nat, p: Precision) -> bool {
    spec_class(bits, p) == Class::Zero
}

/// Reassembly of the three fields into a bit pattern.
pub open spec fn spec_assemble(s: bool, be: nat, f: nat, p: Precision) -> nat {
    (if s {
        pow2((width(p) - 1) as nat)
    } else {
        0
    }) + be * pow2(sig_width(p)) + f
}

/// The decoded form of a bit pattern.
pub open spec fn spec_decode(bits: nat, p: Precision) -> FloatValue {
    FloatValue {
        sign: spec_sign(bits, p),
        exponent: spec_exp(bits, p) as i64,
        significand: spec_sig(bits, p) as u128,
        class: spec_class(bits, p),
    }
}

/// Well-formedness of a decoded value under format `p`: exactly the shapes
/// that `spec_decode` can produce.
pub open spec fn wf_value(v: FloatValue, p: Precision) -> bool {
    match v.class {
        Class::Zero => v.exponent == 0 && v.significand == 0,
        Class::Subnormal => v.exponent == min_exp(p) && 1 <= v.significand
            && v.significand < pow2(sig_width(p)),
        Class::Normal => min_exp(p) <= v.exponent && v.exponent <= max_exp(p)
            && pow2(sig_width(p)) <= v.significand && v.significand < pow2(
            (sig_width(p) + 1) as nat,
        ),
        Class::Infinity => v.exponent == 0 && v.significand == 0,
        Class::QuietNan => v.exponent == 0 && pow2((sig_width(p) - 1) as nat) <= v.significand
            && v.significand < pow2(sig_width(p)),
        Class::SignalingNan => v.exponent == 0 && 1 <= v.significand && v.significand < pow2(
            (sig_width(p) - 1) as nat,
        ),
    }
}

/// Encoding of a decoded value back into a bit pattern: re-bias the
/// exponent, drop the implicit bit for normals.
pub open spec fn spec_encode(v: FloatValue, p: Precision) -> nat {
    match v.class {
        Class::Zero => spec_assemble(v.sign, 0, 0, p),
        Class::Subnormal => spec_assemble(v.sign, 0, v.significand as nat, p),
        Class::Normal => spec_assemble(
            v.sign,
            (v.exponent + bias(p)) as nat,
            (v.significand - pow2(sig_width(p))) as nat,
            p,
        ),
        Class::Infinity => spec_assemble(v.sign, bexp_all_ones(p), 0, p),
        Class::QuietNan => spec_assemble(v.sign, bexp_all_ones(p), v.significand as nat, p),
        Class::SignalingNan => spec_assemble(v.sign, bexp_all_ones(p), v.significand as nat, p),
    }
}

/// Patterns below the format's width fit it; every `u128` fits the quad
/// format.
pub proof fn lemma_fits_width(bits: u128, p: Precision)
    requires
        p == Precision::Half ==> bits < 0x10000,
        p == Precision::Single ==> bits < 0x1_0000_0000,
        p == Precision::Double ==> bits < 0x1_0000_0000_0000_0000,
    ensures
        fits(bits as nat, p),
{
    vstd::arithmetic::power2::lemma2_to64();
    lemma_pow2_adds(64, 64);
}

/// Assembling in-range fields yields a fitting pattern whose fields read
/// back unchanged.
pub proof fn lemma_assemble_fields(s: bool, be: nat, f: nat, p: Precision)
    requires
        be < pow2(exp_width(p)),
        f < pow2(sig_width(p)),
    ensures
        fits(spec_assemble(s, be, f, p), p),
        spec_sign(spec_assemble(s, be, f, p), p) == s,
        spec_bexp(spec_assemble(s, be, f, p), p) == be,
        spec_frac(spec_assemble(s, be, f, p), p) == f,
{
    let sw = sig_width(p);
    let ew = exp_width(p);
    let w = width(p);
    let a = spec_assemble(s, be, f, p);
    let s1: nat = if s {
        1
    } else {
        0
    };
    let q: nat = s1 * pow2(ew) + be;
    lemma_pow2_adds(sw, ew);
    vstd::arithmetic::power2::lemma_pow2_pos(sw);
    vstd::arithmetic::power2::lemma_pow2_pos(ew);
    vstd::arithmetic::power2::lemma_pow2_pos((w - 1) as nat);
    assert(pow2((w - 1) as nat) == pow2(sw) * pow2(ew));
    assert(a == pow2(sw) as int * q + f) by (nonlinear_arith)
        requires
            a == (if s { pow2(sw) * pow2(ew) } else { 0 }) + be * pow2(sw) + f,
            q == s1 * pow2(ew) + be,
            s1 == (if s { 1nat } else { 0nat }),
    ;
    // frac field
    lemma_mod_multiples_vanish(q as int, f as int, pow2(sw) as int);
    lemma_small_mod(f, pow2(sw));
    assert(spec_frac(a, p) == f);
    // quotient by 2^sw
    lemma_div_multiples_vanish_fancy(q as int, f as int, pow2(sw) as int);
    assert(a as int / pow2(sw) as int == q);
    // biased exponent field
    lemma_mod_multiples_vanish(s1 as int, be as int, pow2(ew) as int);
    lemma_small_mod(be, pow2(ew));
    assert(spec_bexp(a, p) == be);
    // sign field
    lemma_mul_inequality(be as int, pow2(ew) - 1, pow2(sw) as int);
    assert((pow2(ew) - 1) * pow2(sw) == pow2(sw) * pow2(ew) - pow2(sw)) by (nonlinear_arith);
    assert(be * pow2(sw) + f < pow2((w - 1) as nat));
    assert(a == pow2((w - 1) as nat) as int * s1 + (be * pow2(sw) + f)) by (nonlinear_arith)
        requires
            a == (if s { pow2((w - 1) as nat) } else { 0 }) + be * pow2(sw) + f,
            s1 == (if s { 1nat } else { 0nat }),
    ;
    lemma_div_multiples_vanish_fancy(
        s1 as int,
        (be * pow2(sw) + f) as int,
        pow2((w - 1) as nat) as int,
    );
    assert(spec_sign(a, p) == s);
    // fits
    lemma_pow2_unfold(w);
    assert(a < pow2(w));
}

/// Every fitting bit pattern is the assembly of its own three fields.
pub proof fn lemma_split(bits: nat, p: Precision)
    requires
        fits(bits, p),
    ensures
        spec_bexp(bits, p) < pow2(exp_width(p)),
        spec_frac(bits, p) < pow2(sig_width(p)),
        bits == spec_assemble(spec_sign(bits, p), spec_bexp(bits, p), spec_frac(bits, p), p),
{
    let sw = sig_width(p);
    let ew = exp_width(p);
    let w = width(p);
    vstd::arithmetic::power2::lemma_pow2_pos(sw);
    vstd::arithmetic::power2::lemma_pow2_pos(ew);
    vstd::arithmetic::power2::lemma_pow2_pos((w - 1) as nat);
    let f = spec_frac(bits, p);
    let q = bits as int / pow2(sw) as int;
    let be = spec_bexp(bits, p);
    let s1 = q / pow2(ew) as int;
    lemma_mod_bound(bits as int, pow2(sw) as int);
    lemma_fundamental_div_mod(bits as int, pow2(sw) as int);
    lemma_mod_bound(q, pow2(ew) as int);
    lemma_fundamental_div_mod(q, pow2(ew) as int);
    lemma_pow2_adds(sw, ew);
    lemma_div_denominator(bits as int, pow2(sw) as int, pow2(ew) as int);
    assert(s1 == bits as int / pow2((w - 1) as nat) as int);
    lemma_pow2_unfold(w);
    lemma_multiply_divide_lt(bits as int, pow2((w - 1) as nat) as int, 2);
    assert(0 <= s1 < 2) by {
        vstd::arithmetic::div_mod::lemma_div_pos_is_pos(bits as int, pow2((w - 1) as nat) as int);
    }
    assert(bits == pow2(sw) as int * (pow2(ew) as int * s1 + be) + f);
    assert(bits == s1 * pow2((w - 1) as nat) + be * pow2(sw) + f) by (nonlinear_arith)
        requires
            bits == pow2(sw) as int * (pow2(ew) as int * s1 + be) + f,
            pow2((w - 1) as nat) == pow2(sw) * pow2(ew),
    ;
    if s1 == 1 {
        assert(spec_sign(bits, p));
        assert(s1 * pow2((w - 1) as nat) == pow2((w - 1) as nat)) by (nonlinear_arith)
            requires
                s1 == 1,
        ;
        assert(bits == spec_assemble(spec_sign(bits, p), be, f, p));
    } else {
        assert(!spec_sign(bits, p));
        assert(s1 * pow2((w - 1) as nat) == 0) by (nonlinear_arith)
            requires
                s1 == 0,
        ;
        assert(bits == spec_assemble(spec_sign(bits, p), be, f, p));
    }
}

/// Encoding inverts decoding on every bit pattern: the codec loses nothing.
pub proof fn lemma_encode_decode(bits: nat, p: Precision)
    requires
        fits(bits, p),
    ensures
        spec_encode(spec_decode(bits, p), p) == bits,
        wf_value(spec_decode(bits, p), p),
{
    let sw = sig_width(p);
    let ew = exp_width(p);
    crate::params::lemma_format_ranges(p);
    lemma_pow2_le_127(sw);
    lemma_pow2_le_127((sw + 1) as nat);
    lemma_pow2_le_127(ew);
    vstd::arithmetic::power2::lemma2_to64();
    lemma_pow2_le(ew, 15);
    lemma_split(bits, p);
    let v = spec_decode(bits, p);
    let be = spec_bexp(bits, p);
    let f = spec_frac(bits, p);
    vstd::arithmetic::power2::lemma_pow2_pos(sw);
    vstd::arithmetic::power2::lemma_pow2_pos((sw - 1) as nat);
    lemma_pow2_unfold(ew);
    lemma_pow2_unfold(sw);
    lemma_pow2_strictly_increases((ew - 1) as nat, ew);
    lemma_pow2_strictly_increases((sw - 1) as nat, sw);
    match spec_class(bits, p) {
        Class::Zero => {
            assert(be == 0 && f == 0);
        },
        Class::Subnormal => {
            assert(be == 0);
            assert(v.significand == f);
        },
        Class::Normal => {
            assert(1 <= be && be < bexp_all_ones(p));
            assert(v.exponent == be - bias(p));
            assert(v.significand == f + pow2(sw));
            assert((v.exponent + bias(p)) as nat == be);
            assert((v.significand - pow2(sw)) as nat == f);
            lemma_pow2_strictly_increases(sw, (sw + 1) as nat);
            lemma_pow2_unfold((sw + 1) as nat);
        },
        Class::Infinity => {
            assert(be == bexp_all_ones(p) && f == 0);
        },
        Class::QuietNan => {
            assert(be == bexp_all_ones(p));
            assert(v.significand == f);
        },
        Class::SignalingNan => {
            assert(be == bexp_all_ones(p));
            assert(v.significand == f);
            assert(1 <= f);
        },
    }
}

/// Round trip: re-decoding an encoded decoded value changes nothing; the
/// codec is a bijection between fitting bit patterns and classified
/// representations.
pub proof fn lemma_codec_roundtrip(bits: nat, p: Precision)
    requires
        fits(bits, p),
    ensures
        spec_decode(spec_encode(spec_decode(bits, p), p), p) == spec_decode(bits, p),
{
    lemma_encode_decode(bits, p);
}

/// Unpacks a bit pattern into its decoded form; total on fitting patterns.
pub fn decode(bits: u128, p: Precision) -> (v: FloatValue)
    requires
        fits(bits as nat, p),
    ensures
        v == spec_decode(bits as nat, p),
        wf_value(v, p),
        v.sign == spec_sign(bits as nat, p),
        v.class == spec_class(bits as nat, p),
        v.exponent as int == spec_exp(bits as nat, p),
        v.significand as nat == spec_sig(bits as nat, p),
{
    proof {
        lemma_encode_decode(bits as nat, p);
        crate::params::lemma_format_ranges(p);
        vstd::arithmetic::power2::lemma2_to64();
        lemma_pow2_le(exp_width(p), 15);
    }
    let pr = format_params(p);
    let psw = pow2x(pr.sw);
    let pew = pow2x(pr.ew);
    let ptop = pow2x(pr.w - 1);
    proof {
        lemma_pow2_unfold(width(p));
        lemma_multiply_divide_lt(bits as int, pow2((width(p) - 1) as nat) as int, 2);
    }
    let frac = bits % psw;
    let be = (bits / psw) % pew;
    let s = bits / ptop == 1;
    let cls = if be == 0 {
        if frac == 0 {
            Class::Zero
        } else {
            Class::Subnormal
        }
    } else if be == pr.bexp_all as u128 {
        if frac == 0 {
            Class::Infinity
        } else {
            let pq = pow2x(pr.sw - 1);
            if frac >= pq {
                Class::QuietNan
            } else {
                Class::SignalingNan
            }
        }
    } else {
        Class::Normal
    };
    assert(cls == spec_class(bits as nat, p));
    let e: i64 = match cls {
        Class::Normal => (be as i64) - pr.bias_v,
        Class::Subnormal => 1 - pr.bias_v,
        _ => 0,
    };
    let sig: u128 = match cls {
        Class::Normal => {
            proof {
                lemma_pow2_strictly_increases(sig_width(p), (sig_width(p) + 1) as nat);
                lemma_pow2_unfold((sig_width(p) + 1) as nat);
                lemma_pow2_le_127((sig_width(p) + 1) as nat);
            }
            frac + psw
        },
        Class::Zero | Class::Infinity => 0,
        _ => frac,
    };
    FloatValue { sign: s, exponent: e, significand: sig, class: cls }
}

/// Packs a well-formed decoded value back into its bit pattern.
pub fn encode(v: FloatValue, p: Precision) -> (bits: u128)
    requires
        wf_value(v, p),
    ensures
        bits as nat == spec_encode(v, p),
        fits(bits as nat, p),
{
    proof {
        crate::params::lemma_format_ranges(p);
        vstd::arithmetic::power2::lemma_pow2_pos(exp_width(p));
        vstd::arithmetic::power2::lemma_pow2_pos(sig_width(p));
    }
    let pr = format_params(p);
    match v.class {
        Class::Zero => assemble_x(v.sign, 0, 0, p),
        Class::Subnormal => assemble_x(v.sign, 0, v.significand, p),
        Class::Normal => {
            proof {
                vstd::arithmetic::power2::lemma_pow2_pos(exp_width(p));
                lemma_pow2_unfold(exp_width(p));
                lemma_pow2_le_127(exp_width(p));
                lemma_pow2_unfold((sig_width(p) + 1) as nat);
            }
            let psw = pow2x(pr.sw);
            assemble_x(v.sign, ((v.exponent + pr.bias_v) as u64), v.significand - psw, p)
        },
        Class::Infinity => assemble_x(v.sign, pr.bexp_all, 0, p),
        Class::QuietNan => assemble_x(v.sign, pr.bexp_all, v.significand, p),
        Class::SignalingNan => {
            proof {
                lemma_pow2_strictly_increases((sig_width(p) - 1) as nat, sig_width(p));
            }
            assemble_x(v.sign, pr.bexp_all, v.significand, p)
        },
    }
}

/// Reassembles sign, biased exponent and fraction fields at runtime.
pub fn assemble_x(s: bool, be: u64, f: u128, p: Precision) -> (r: u128)
    requires
        be < pow2(exp_width(p)),
        (f as nat) < pow2(sig_width(p)),
    ensures
        r as nat == spec_assemble(s, be as nat, f as nat, p),
        fits(r as nat, p),
        spec_sign(r as nat, p) == s,
        spec_bexp(r as nat, p) == be,
        spec_frac(r as nat, p) == f,
{
    proof {
        lemma_assemble_fields(s, be as nat, f as nat, p);
        lemma_pow2_le_127((width(p) - 1) as nat);
        lemma_pow2_unfold(width(p));
    }
    let pr = format_params(p);
    let psw = pow2x(pr.sw);
    let ptop = pow2x(pr.w - 1);
    proof {
        lemma_mul_inequality(be as int, pow2(exp_width(p)) - 1, pow2(sig_width(p)) as int);
        assert((pow2(exp_width(p)) - 1) * pow2(sig_width(p)) == pow2(sig_width(p)) * pow2(
            exp_width(p),
        ) - pow2(sig_width(p))) by (nonlinear_arith);
        lemma_pow2_adds(sig_width(p), exp_width(p));
    }
    let hi: u128 = if s {
        ptop
    } else {
        0
    };
    hi + (be as u128) * psw + f
}

} // verus!
