//! The operation engine: addition, multiplication and division on raw bit
//! patterns, orchestrating decode, special-case handling, alignment,
//! combination, normalization, rounding and re-encode. Each operation is a
//! pure, total function of its inputs; its exact result bits and exception
//! flags are pinned by the spec functions below.
use vstd::prelude::*;
use vstd::arithmetic::power2::{pow2, lemma_pow2_unfold, lemma_pow2_adds, lemma_pow2_pos, lemma2_to64};
use vstd::arithmetic::div_mod::{
    lemma_fundamental_div_mod, lemma_div_is_ordered_by_denominator, lemma_div_multiples_vanish,
    lemma_multiply_divide_lt, lemma_div_is_ordered, lemma_basic_div, lemma_mod_multiples_vanish,
    lemma_hoist_over_denominator,
};
use vstd::arithmetic::mul::lemma_mul_inequality;
use crate::params::{
    Precision, sig_width, exp_width, width, bexp_all_ones, min_exp, max_exp, exp_in_range,
    format_params, pow2x, lemma_pow2_le_127, lemma_pow2_le, lemma_format_ranges,
};
use crate::codec::{
    Class, fits, spec_sign, spec_bexp, spec_frac, spec_class, spec_sig, spec_exp, is_nan,
    is_finite, is_zero, spec_assemble, decode, assemble_x, lemma_split, lemma_assemble_fields,
};
use crate::rounding::{
    RoundingMode, Flags, no_flags, invalid_flags, spec_round_pack, round_pack, round_input_ok,
};
use crate::arith::{
    spec_norm2, spec_norm_left, spec_norm_sig, spec_mul_ext, spec_div_ext, norm2, norm_left,
    norm_sig, mul_shift, div_steps,
};

verus! {

broadcast use vstd::arithmetic::mul::lemma_mul_is_commutative;

/// The bit pattern of a signed zero.
pub open spec fn spec_zero_bits(s: bool, p: Precision) -> nat {
    spec_assemble(s, 0, 0, p)
}

/// The bit pattern of a signed infinity.
pub open spec fn spec_inf_bits(s: bool, p: Precision) -> nat {
    spec_assemble(s, bexp_all_ones(p), 0, p)
}

/// The default quiet NaN produced by invalid operations.
pub open spec fn spec_default_nan(p: Precision) -> nat {
    spec_assemble(false, bexp_all_ones(p), pow2((sig_width(p) - 1) as nat), p)
}

/// The quiet NaN obtained from a NaN operand: same sign and payload, with
/// the quiet bit forced on.
pub open spec fn spec_quiet(bits: nat, p: Precision) -> nat {
    let f = spec_frac(bits, p);
    let f2: nat = if f < pow2((sig_width(p) - 1) as nat) {
        f + pow2((sig_width(p) - 1) as nat)
    } else {
        f
    };
    spec_assemble(spec_sign(bits, p), bexp_all_ones(p), f2, p)
}

/// NaN propagation rule shared by all operations: the payload of the
/// first signaling NaN, else of `a` if `a` is NaN, else of `b`; the
/// invalid flag is raised exactly when a signaling NaN is consumed.
pub open spec fn spec_nan_result(a: nat, b: nat, p: Precision) -> (nat, Flags) {
    let bits = if spec_class(a, p) == Class::SignalingNan {
        spec_quiet(a, p)
    } else if spec_class(b, p) == Class::SignalingNan {
        spec_quiet(b, p)
    } else if is_nan(a, p) {
        spec_quiet(a, p)
    } else {
        spec_quiet(b, p)
    };
    let fl = if spec_class(a, p) == Class::SignalingNan || spec_class(b, p)
        == Class::SignalingNan {
        invalid_flags()
    } else {
        no_flags()
    };
    (bits, fl)
}

/// A quieted NaN is classified as a quiet NaN and fits its format.
pub proof fn lemma_quiet_is_quiet(bits: nat, p: Precision)
    requires
        fits(bits, p),
    ensures
        spec_class(spec_quiet(bits, p), p) == Class::QuietNan,
        fits(spec_quiet(bits, p), p),
{
    lemma_format_ranges(p);
    lemma_split(bits, p);
    lemma_pow2_unfold(sig_width(p));
    lemma_pow2_pos((sig_width(p) - 1) as nat);
    let f = spec_frac(bits, p);
    let f2: nat = if f < pow2((sig_width(p) - 1) as nat) {
        f + pow2((sig_width(p) - 1) as nat)
    } else {
        f
    };
    lemma_assemble_fields(spec_sign(bits, p), bexp_all_ones(p), f2, p);
}

/// The default NaN is a quiet NaN and fits its format.
pub proof fn lemma_default_nan_is_quiet(p: Precision)
    ensures
        spec_class(spec_default_nan(p), p) == Class::QuietNan,
        fits(spec_default_nan(p), p),
{
    lemma_format_ranges(p);
    lemma_pow2_unfold(sig_width(p));
    lemma_pow2_pos((sig_width(p) - 1) as nat);
    lemma_assemble_fields(false, bexp_all_ones(p), pow2((sig_width(p) - 1) as nat), p);
}

/// NaN operands always propagate to a quiet NaN result.
pub proof fn lemma_nan_result_is_quiet(a: nat, b: nat, p: Precision)
    requires
        fits(a, p),
        fits(b, p),
        is_nan(a, p) || is_nan(b, p),
    ensures
        spec_class(spec_nan_result(a, b, p).0, p) == Class::QuietNan,
        fits(spec_nan_result(a, b, p).0, p),
{
    lemma_quiet_is_quiet(a, p);
    lemma_quiet_is_quiet(b, p);
}

/// Sign-flip of a bit pattern.
pub open spec fn spec_negate(bits: nat, p: Precision) -> nat {
    if spec_sign(bits, p) {
        (bits - pow2((width(p) - 1) as nat)) as nat
    } else {
        bits + pow2((width(p) - 1) as nat)
    }
}

/// Addition of two finite nonzero operands already ordered so that `a`
/// carries the larger (exponent, significand) pair: align with sticky
/// accumulation, add or subtract magnitudes, normalize, round. Exact
/// cancellation yields the mode-dependent signed zero.
pub open spec fn spec_add_core(a: nat, b: nat, p: Precision, mode: RoundingMode) -> (nat, Flags) {
    let sw = sig_width(p);
    let sa = spec_sign(a, p);
    let sb = spec_sign(b, p);
    let ea = spec_exp(a, p);
    let d = (ea - spec_exp(b, p)) as nat;
    let xa = spec_sig(a, p) * 8;
    let xbr: (nat, bool) = if d == 0 {
        (spec_sig(b, p) * 8, false)
    } else if d >= sw + 4 {
        (0nat, spec_sig(b, p) != 0)
    } else {
        ((spec_sig(b, p) * 8) / pow2(d), (spec_sig(b, p) * 8) % pow2(d) != 0)
    };
    let xb = xbr.0;
    let st = xbr.1;
    if sa == sb {
        let sum = (xa + xb) as nat;
        let n = spec_norm2(sum / 2, ea, st || sum % 2 != 0, pow2((sw + 2) as nat));
        spec_round_pack(sa, n.1, n.0, n.2, p, mode)
    } else {
        let s = (xa - xb - (if st {
            1int
        } else {
            0int
        })) as nat;
        let s2 = s / 2;
        let st2 = st || s % 2 != 0;
        if s2 == 0 && !st2 {
            (spec_zero_bits(mode == RoundingMode::TowardNegative, p), no_flags())
        } else {
            let n = spec_norm2(s2, ea, st2, pow2((sw + 2) as nat));
            let nl = spec_norm_left(n.0, n.1, pow2((sw + 2) as nat), min_exp(p));
            spec_round_pack(sa, nl.1, nl.0, n.2, p, mode)
        }
    }
}

/// Addition on bit patterns: NaN propagation, the infinity and signed
/// zero special-case tables, then the finite core on operands ordered by
/// (exponent, significand).
pub open spec fn spec_add(a: nat, b: nat, p: Precision, mode: RoundingMode) -> (nat, Flags) {
    if is_nan(a, p) || is_nan(b, p) {
        spec_nan_result(a, b, p)
    } else if spec_class(a, p) == Class::Infinity {
        if spec_class(b, p) == Class::Infinity && spec_sign(a, p) != spec_sign(b, p) {
            (spec_default_nan(p), invalid_flags())
        } else {
            (a, no_flags())
        }
    } else if spec_class(b, p) == Class::Infinity {
        (b, no_flags())
    } else if is_zero(a, p) && is_zero(b, p) {
        if spec_sign(a, p) == spec_sign(b, p) {
            (a, no_flags())
        } else {
            (spec_zero_bits(mode == RoundingMode::TowardNegative, p), no_flags())
        }
    } else if is_zero(a, p) {
        (b, no_flags())
    } else if is_zero(b, p) {
        (a, no_flags())
    } else {
        let swap = spec_exp(b, p) > spec_exp(a, p) || (spec_exp(b, p) == spec_exp(a, p)
            && spec_sig(b, p) > spec_sig(a, p));
        if swap {
            spec_add_core(b, a, p, mode)
        } else {
            spec_add_core(a, b, p, mode)
        }
    }
}

/// Multiplication of two finite nonzero operands: normalize subnormal
/// significands, take the full-width product reduced into the working
/// window, normalize and round. The result sign is the XOR of the
/// operand signs.
pub open spec fn spec_mul_core(a: nat, b: nat, p: Precision, mode: RoundingMode) -> (nat, Flags) {
    let sw = sig_width(p);
    let s = spec_sign(a, p) != spec_sign(b, p);
    let na = spec_norm_sig(spec_sig(a, p), spec_exp(a, p), p);
    let nb = spec_norm_sig(spec_sig(b, p), spec_exp(b, p), p);
    let pr = spec_mul_ext(na.0 * 8, nb.0, (sw + 1) as nat);
    let n = spec_norm2(pr.0, na.1 + nb.1, pr.1, pow2((sw + 2) as nat));
    spec_round_pack(s, n.1, n.0, n.2, p, mode)
}

/// Multiplication on bit patterns.
pub open spec fn spec_mul(a: nat, b: nat, p: Precision, mode: RoundingMode) -> (nat, Flags) {
    if is_nan(a, p) || is_nan(b, p) {
        spec_nan_result(a, b, p)
    } else if spec_class(a, p) == Class::Infinity || spec_class(b, p) == Class::Infinity {
        if is_zero(a, p) || is_zero(b, p) {
            (spec_default_nan(p), invalid_flags())
        } else {
            (spec_inf_bits(spec_sign(a, p) != spec_sign(b, p), p), no_flags())
        }
    } else if is_zero(a, p) || is_zero(b, p) {
        (spec_zero_bits(spec_sign(a, p) != spec_sign(b, p), p), no_flags())
    } else {
        spec_mul_core(a, b, p, mode)
    }
}

/// Division of two finite nonzero operands: normalize significands, long
/// division extended past the needed bits with exact remainder tracking,
/// normalize and round.
pub open spec fn spec_div_core(a: nat, b: nat, p: Precision, mode: RoundingMode) -> (nat, Flags) {
    let sw = sig_width(p);
    let s = spec_sign(a, p) != spec_sign(b, p);
    let na = spec_norm_sig(spec_sig(a, p), spec_exp(a, p), p);
    let nb = spec_norm_sig(spec_sig(b, p), spec_exp(b, p), p);
    let dq = spec_div_ext(na.0, nb.0, (sw + 3) as nat);
    let n = spec_norm2(dq.0, na.1 - nb.1 - 1, dq.1, pow2((sw + 2) as nat));
    spec_round_pack(s, n.1, n.0, n.2, p, mode)
}

/// Division on bit patterns.
pub open spec fn spec_div(a: nat, b: nat, p: Precision, mode: RoundingMode) -> (nat, Flags) {
    if is_nan(a, p) || is_nan(b, p) {
        spec_nan_result(a, b, p)
    } else if spec_class(a, p) == Class::Infinity {
        if spec_class(b, p) == Class::Infinity {
            (spec_default_nan(p), invalid_flags())
        } else {
            (spec_inf_bits(spec_sign(a, p) != spec_sign(b, p), p), no_flags())
        }
    } else if spec_class(b, p) == Class::Infinity {
        (spec_zero_bits(spec_sign(a, p) != spec_sign(b, p), p), no_flags())
    } else if is_zero(a, p) {
        if is_zero(b, p) {
            (spec_default_nan(p), invalid_flags())
        } else {
            (spec_zero_bits(spec_sign(a, p) != spec_sign(b, p), p), no_flags())
        }
    } else if is_zero(b, p) {
        (
            spec_inf_bits(spec_sign(a, p) != spec_sign(b, p), p),
            Flags {
                invalid: false,
                divide_by_zero: true,
                overflow: false,
                underflow: false,
                inexact: false,
            },
        )
    } else {
        spec_div_core(a, b, p, mode)
    }
}

/// The signed-zero bit pattern.
fn zero_x(s: bool, p: Precision) -> (r: u128)
    ensures
        r as nat == spec_zero_bits(s, p),
        fits(r as nat, p),
{
    proof {
        lemma_pow2_pos(exp_width(p));
        lemma_pow2_pos(sig_width(p));
    }
    assemble_x(s, 0, 0, p)
}

/// The signed-infinity bit pattern.
fn inf_x(s: bool, p: Precision) -> (r: u128)
    ensures
        r as nat == spec_inf_bits(s, p),
        fits(r as nat, p),
{
    proof {
        lemma_pow2_pos(exp_width(p));
        lemma_pow2_pos(sig_width(p));
    }
    let pr = format_params(p);
    assemble_x(s, pr.bexp_all, 0, p)
}

/// The default quiet NaN bit pattern.
fn default_nan_x(p: Precision) -> (r: u128)
    ensures
        r as nat == spec_default_nan(p),
        fits(r as nat, p),
{
    proof {
        lemma_format_ranges(p);
        lemma_pow2_pos(exp_width(p));
        lemma_pow2_unfold(sig_width(p));
        lemma_pow2_pos((sig_width(p) - 1) as nat);
        lemma_pow2_le_127((sig_width(p) - 1) as nat);
    }
    let pr = format_params(p);
    let pq = pow2x(pr.sw - 1);
    assemble_x(false, pr.bexp_all, pq, p)
}

/// Quiets a NaN operand, keeping its sign and payload.
fn quiet_x(bits: u128, p: Precision) -> (r: u128)
    requires
        fits(bits as nat, p),
        is_nan(bits as nat, p),
    ensures
        r as nat == spec_quiet(bits as nat, p),
        fits(r as nat, p),
{
    proof {
        lemma_format_ranges(p);
        lemma_pow2_pos(exp_width(p));
        lemma_pow2_unfold(sig_width(p));
        lemma_pow2_le_127((sig_width(p) - 1) as nat);
    }
    let v = decode(bits, p);
    let pr = format_params(p);
    let pq = pow2x(pr.sw - 1);
    let f2: u128 = if v.significand < pq {
        v.significand + pq
    } else {
        v.significand
    };
    assemble_x(v.sign, pr.bexp_all, f2, p)
}

/// Propagates NaN operands per the engine's deterministic rule.
fn nan_result(a: u128, b: u128, p: Precision) -> (r: (u128, Flags))
    requires
        fits(a as nat, p),
        fits(b as nat, p),
        is_nan(a as nat, p) || is_nan(b as nat, p),
    ensures
        r.0 as nat == spec_nan_result(a as nat, b as nat, p).0,
        r.1 == spec_nan_result(a as nat, b as nat, p).1,
        fits(r.0 as nat, p),
{
    let va = decode(a, p);
    let vb = decode(b, p);
    let bits: u128 = if va.class == Class::SignalingNan {
        quiet_x(a, p)
    } else if vb.class == Class::SignalingNan {
        quiet_x(b, p)
    } else if va.class == Class::QuietNan {
        quiet_x(a, p)
    } else {
        quiet_x(b, p)
    };
    let fl = if va.class == Class::SignalingNan || vb.class == Class::SignalingNan {
        Flags { invalid: true, divide_by_zero: false, overflow: false, underflow: false, inexact: false }
    } else {
        Flags { invalid: false, divide_by_zero: false, overflow: false, underflow: false, inexact: false }
    };
    (bits, fl)
}

/// Flips the sign bit of a bit pattern.
pub fn negate(bits: u128, p: Precision) -> (r: u128)
    requires
        fits(bits as nat, p),
    ensures
        r as nat == spec_negate(bits as nat, p),
        fits(r as nat, p),
{
    proof {
        lemma_pow2_pos((width(p) - 1) as nat);
        lemma_pow2_unfold(width(p));
        lemma_pow2_le_127((width(p) - 1) as nat);
    }
    let pr = format_params(p);
    let ptop = pow2x(pr.w - 1);
    proof {
        if bits as nat >= pow2((width(p) - 1) as nat) {
            lemma_multiply_divide_lt(bits as int, pow2((width(p) - 1) as nat) as int, 2);
            lemma_div_is_ordered(
                pow2((width(p) - 1) as nat) as int,
                bits as int,
                pow2((width(p) - 1) as nat) as int,
            );
            lemma_div_multiples_vanish(1, pow2((width(p) - 1) as nat) as int);
            assert(spec_sign(bits as nat, p));
        } else {
            lemma_basic_div(bits as int, pow2((width(p) - 1) as nat) as int);
            assert(!spec_sign(bits as nat, p));
        }
    }
    if bits >= ptop {
        bits - ptop
    } else {
        bits + ptop
    }
}

/// Classification of a bit pattern, for diagnostic and testing use.
pub fn decode_classify(bits: u128, p: Precision) -> (c: Class)
    requires
        fits(bits as nat, p),
    ensures
        c == spec_class(bits as nat, p),
{
    let v = decode(bits, p);
    v.class
}

/// Shared requires of the finite addition paths: both operands finite
/// and nonzero, `a` not smaller in the (exponent, significand) order.
pub open spec fn add_core_pre(a: nat, b: nat, p: Precision) -> bool {
    &&& fits(a, p)
    &&& fits(b, p)
    &&& is_finite(a, p)
    &&& is_finite(b, p)
    &&& !is_zero(a, p)
    &&& !is_zero(b, p)
    &&& (spec_exp(b, p) < spec_exp(a, p) || (spec_exp(b, p) == spec_exp(a, p) && spec_sig(b, p)
        <= spec_sig(a, p)))
}

/// The magnitude-addition path: operand signs agree.
#[verifier::rlimit(100)]
fn add_core_same(a: u128, b: u128, p: Precision, mode: RoundingMode) -> (r: (u128, Flags))
    requires
        add_core_pre(a as nat, b as nat, p),
        spec_sign(a as nat, p) == spec_sign(b as nat, p),
    ensures
        r.0 as nat == spec_add_core(a as nat, b as nat, p, mode).0,
        r.1 == spec_add_core(a as nat, b as nat, p, mode).1,
        fits(r.0 as nat, p),
{
    proof {
        lemma_format_ranges(p);
        lemma2_to64();
        lemma_pow2_adds(3, (sig_width(p) + 1) as nat);
        lemma_pow2_adds(3, sig_width(p));
        lemma_pow2_adds(1, (sig_width(p) + 2) as nat);
        lemma_pow2_adds(3, (sig_width(p) + 2) as nat);
        lemma_pow2_adds(2, (sig_width(p) + 1) as nat);
        lemma_pow2_le_127((sig_width(p) + 5) as nat);
        lemma_pow2_le((sig_width(p) + 2) as nat, 125);
        lemma_pow2_le((sig_width(p) + 4) as nat, (sig_width(p) + 5) as nat);
        lemma_pow2_pos(sig_width(p));
        lemma_pow2_pos((sig_width(p) + 2) as nat);
    }
    let pr = format_params(p);
    let va = decode(a, p);
    let vb = decode(b, p);
    let lo = pow2x(pr.sw + 2);
    let emin: i64 = 1 - pr.bias_v;
    let d64: i64 = va.exponent - vb.exponent;
    let xa: u128 = va.significand * 8;
    let (xb, st): (u128, bool) = if d64 == 0 {
        (vb.significand * 8, false)
    } else if d64 >= (pr.sw + 4) as i64 {
        (0, vb.significand != 0)
    } else {
        let pd = pow2x(d64 as u64);
        ((vb.significand * 8) / pd, (vb.significand * 8) % pd != 0)
    };
    proof {
        lemma_align_bound(a as nat, b as nat, xb as nat, p);
    }
    let sum: u128 = xa + xb;
    let s2: u128 = sum / 2;
    let st2: bool = st || sum % 2 == 1;
    proof {
        assert(2 * (lo as nat) == pow2((sig_width(p) + 3) as nat));
        assert(8 * (lo as nat) == pow2((sig_width(p) + 5) as nat));
        lemma_div_is_ordered(sum as int, pow2((sig_width(p) + 5) as nat) as int, 2);
        lemma_div_multiples_vanish(lo as int, 2);
        lemma_div_multiples_vanish(pow2((sig_width(p) + 4) as nat) as int, 2);
        assert((s2 as nat) < 8 * (lo as nat));
    }
    let n = norm2(s2, va.exponent, st2, lo);
    proof {
        if va.class == Class::Normal {
            assert(sum >= 2 * lo);
            lemma_div_is_ordered((2 * (lo as nat)) as int, sum as int, 2);
            assert(s2 >= lo);
        } else {
            assert(va.exponent == emin);
            if n.0 < lo {
                assert(n.1 == va.exponent);
            }
        }
        assert(round_input_ok(n.1 as int, n.0 as nat, p));
    }
    round_pack(va.sign, n.1, n.0, n.2, p, mode)
}

/// The magnitude-subtraction path: operand signs differ; exact
/// cancellation yields the mode-dependent signed zero.
#[verifier::rlimit(100)]
fn add_core_diff(a: u128, b: u128, p: Precision, mode: RoundingMode) -> (r: (u128, Flags))
    requires
        add_core_pre(a as nat, b as nat, p),
        spec_sign(a as nat, p) != spec_sign(b as nat, p),
    ensures
        r.0 as nat == spec_add_core(a as nat, b as nat, p, mode).0,
        r.1 == spec_add_core(a as nat, b as nat, p, mode).1,
        fits(r.0 as nat, p),
{
    proof {
        lemma_format_ranges(p);
        lemma2_to64();
        lemma_pow2_adds(3, (sig_width(p) + 1) as nat);
        lemma_pow2_adds(3, sig_width(p));
        lemma_pow2_adds(1, (sig_width(p) + 2) as nat);
        lemma_pow2_adds(3, (sig_width(p) + 2) as nat);
        lemma_pow2_adds(2, (sig_width(p) + 1) as nat);
        lemma_pow2_le_127((sig_width(p) + 5) as nat);
        lemma_pow2_le((sig_width(p) + 2) as nat, 125);
        lemma_pow2_le((sig_width(p) + 4) as nat, (sig_width(p) + 5) as nat);
        lemma_pow2_pos(sig_width(p));
        lemma_pow2_pos((sig_width(p) + 2) as nat);
    }
    let pr = format_params(p);
    let va = decode(a, p);
    let vb = decode(b, p);
    let lo = pow2x(pr.sw + 2);
    let emin: i64 = 1 - pr.bias_v;
    let d64: i64 = va.exponent - vb.exponent;
    let xa: u128 = va.significand * 8;
    let (xb, st): (u128, bool) = if d64 == 0 {
        (vb.significand * 8, false)
    } else if d64 >= (pr.sw + 4) as i64 {
        (0, vb.significand != 0)
    } else {
        let pd = pow2x(d64 as u64);
        ((vb.significand * 8) / pd, (vb.significand * 8) % pd != 0)
    };
    proof {
        lemma_align_bound(a as nat, b as nat, xb as nat, p);
    }
    let borrow: u128 = if st {
        1
    } else {
        0
    };
    let s: u128 = xa - xb - borrow;
    let s2: u128 = s / 2;
    let st2: bool = st || s % 2 == 1;
    if s2 == 0 && !st2 {
        (zero_x(mode == RoundingMode::TowardNegative, p), Flags {
            invalid: false,
            divide_by_zero: false,
            overflow: false,
            underflow: false,
            inexact: false,
        })
    } else {
        proof {
            assert(2 * (lo as nat) == pow2((sig_width(p) + 3) as nat));
            assert(8 * (lo as nat) == pow2((sig_width(p) + 5) as nat));
            lemma_div_is_ordered(s as int, pow2((sig_width(p) + 5) as nat) as int, 2);
            lemma_div_multiples_vanish(pow2((sig_width(p) + 4) as nat) as int, 2);
            assert((s2 as nat) < 8 * (lo as nat));
        }
        let n = norm2(s2, va.exponent, st2, lo);
        let nl = norm_left(n.0, n.1, lo, emin);
        proof {
            assert(exp_in_range(nl.1 as int));
            assert((nl.0 as nat) < pow2((sig_width(p) + 3) as nat));
            assert(nl.0 >= lo || nl.1 == emin);
            assert(emin as int == min_exp(p));
            assert(round_input_ok(nl.1 as int, nl.0 as nat, p));
        }
        round_pack(va.sign, nl.1, nl.0, n.2, p, mode)
    }
}

/// The aligned smaller operand never exceeds the larger one: when the
/// exponents differ the larger operand is normal and at least two shift
/// positions separate them after widening.
proof fn lemma_align_bound(a: nat, b: nat, xb: nat, p: Precision)
    requires
        add_core_pre(a, b, p),
        ({
            let d = (spec_exp(a, p) - spec_exp(b, p)) as nat;
            if d == 0 {
                xb == spec_sig(b, p) * 8
            } else if d >= sig_width(p) + 4 {
                xb == 0
            } else {
                xb == (spec_sig(b, p) * 8) / pow2(d)
            }
        }),
    ensures
        spec_exp(a, p) == spec_exp(b, p) ==> xb <= spec_sig(a, p) * 8,
        spec_exp(a, p) != spec_exp(b, p) ==> xb + 1 < spec_sig(a, p) * 8 && spec_sig(a, p) * 8
            >= pow2((sig_width(p) + 3) as nat),
        xb <= spec_sig(a, p) * 8,
        spec_sig(a, p) * 8 < pow2((sig_width(p) + 4) as nat),
{
    lemma_format_ranges(p);
    lemma2_to64();
    lemma_pow2_adds(3, (sig_width(p) + 1) as nat);
    lemma_pow2_adds(3, sig_width(p));
    lemma_pow2_adds(2, (sig_width(p) + 1) as nat);
    lemma_pow2_pos(sig_width(p));
    let d = (spec_exp(a, p) - spec_exp(b, p)) as nat;
    let siga = spec_sig(a, p);
    let sigb = spec_sig(b, p);
    assert(siga < pow2((sig_width(p) + 1) as nat) && sigb < pow2((sig_width(p) + 1) as nat)
        && siga >= 1 && sigb >= 1) by {
        lemma_finite_shape(a, p);
        lemma_finite_shape(b, p);
    }
    assert(siga * 8 < pow2((sig_width(p) + 4) as nat));
    if spec_exp(a, p) == spec_exp(b, p) {
        assert(sigb <= siga);
        assert(xb <= siga * 8);
    } else {
        assert(spec_exp(a, p) > spec_exp(b, p));
        // a normal: a subnormal would carry the minimum exponent
        assert(spec_class(a, p) == Class::Normal) by {
            lemma_finite_shape(a, p);
            lemma_finite_shape(b, p);
        }
        assert(siga >= pow2(sig_width(p)));
        assert(siga * 8 >= pow2((sig_width(p) + 3) as nat));
        if d >= sig_width(p) + 4 {
            assert(xb + 1 < siga * 8);
        } else {
            lemma_pow2_le(1, d);
            lemma_pow2_unfold(1);
            vstd::arithmetic::power::lemma_pow0(2);
            lemma_pow2_pos(d);
            lemma_div_is_ordered_by_denominator((sigb * 8) as int, 2, pow2(d) as int);
            lemma_div_multiples_vanish((sigb * 4) as int, 2);
            assert(xb <= sigb * 4);
            assert(sigb * 4 + 4 <= pow2((sig_width(p) + 3) as nat));
            assert(xb + 1 < siga * 8);
        }
    }
}

/// The decoded significand of a finite nonzero pattern is nonzero and
/// bounded by one bit above the significand width.
pub proof fn lemma_finite_shape(bits: nat, p: Precision)
    requires
        fits(bits, p),
        is_finite(bits, p),
        !is_zero(bits, p),
    ensures
        1 <= spec_sig(bits, p),
        spec_sig(bits, p) < pow2((sig_width(p) + 1) as nat),
        spec_class(bits, p) == Class::Subnormal ==> spec_exp(bits, p) == min_exp(p),
        spec_class(bits, p) == Class::Normal ==> spec_sig(bits, p) >= pow2(sig_width(p)),
        spec_exp(bits, p) > min_exp(p) ==> spec_class(bits, p) == Class::Normal,
        min_exp(p) <= spec_exp(bits, p) <= max_exp(p),
{
    crate::codec::lemma_encode_decode(bits, p);
    lemma_split(bits, p);
    lemma_format_ranges(p);
    lemma_pow2_unfold((sig_width(p) + 1) as nat);
    vstd::arithmetic::power2::lemma_pow2_pos(sig_width(p));
    if spec_class(bits, p) == Class::Normal {
        assert(spec_bexp(bits, p) >= 1 && spec_bexp(bits, p) <= bexp_all_ones(p) - 1);
    }
}

/// The finite nonzero addition path; `a` holds the not-smaller operand.
fn add_core(a: u128, b: u128, p: Precision, mode: RoundingMode) -> (r: (u128, Flags))
    requires
        add_core_pre(a as nat, b as nat, p),
    ensures
        r.0 as nat == spec_add_core(a as nat, b as nat, p, mode).0,
        r.1 == spec_add_core(a as nat, b as nat, p, mode).1,
        fits(r.0 as nat, p),
{
    let va = decode(a, p);
    let vb = decode(b, p);
    if va.sign == vb.sign {
        add_core_same(a, b, p, mode)
    } else {
        add_core_diff(a, b, p, mode)
    }
}

/// Addition: `add(a_bits, b_bits, precision, rounding_mode)`, returning
/// the result bit pattern and the raised exception flags.
pub fn add(a: u128, b: u128, p: Precision, mode: RoundingMode) -> (r: (u128, Flags))
    requires
        fits(a as nat, p),
        fits(b as nat, p),
    ensures
        r.0 as nat == spec_add(a as nat, b as nat, p, mode).0,
        r.1 == spec_add(a as nat, b as nat, p, mode).1,
        fits(r.0 as nat, p),
        is_nan(a as nat, p) || is_nan(b as nat, p) ==> spec_class(r.0 as nat, p)
            == Class::QuietNan,
        spec_class(a as nat, p) == Class::Infinity && spec_class(b as nat, p) == Class::Infinity
            && spec_sign(a as nat, p) != spec_sign(b as nat, p) ==> r.1.invalid && spec_class(
            r.0 as nat,
            p,
        ) == Class::QuietNan,
{
    let va = decode(a, p);
    let vb = decode(b, p);
    let none = Flags {
        invalid: false,
        divide_by_zero: false,
        overflow: false,
        underflow: false,
        inexact: false,
    };
    if va.class == Class::QuietNan || va.class == Class::SignalingNan || vb.class
        == Class::QuietNan || vb.class == Class::SignalingNan {
        proof {
            lemma_nan_result_is_quiet(a as nat, b as nat, p);
        }
        nan_result(a, b, p)
    } else if va.class == Class::Infinity {
        if vb.class == Class::Infinity && va.sign != vb.sign {
            proof {
                lemma_default_nan_is_quiet(p);
            }
            (default_nan_x(p), Flags { invalid: true, ..none })
        } else {
            (a, none)
        }
    } else if vb.class == Class::Infinity {
        (b, none)
    } else if va.class == Class::Zero && vb.class == Class::Zero {
        if va.sign == vb.sign {
            (a, none)
        } else {
            (zero_x(mode == RoundingMode::TowardNegative, p), none)
        }
    } else if va.class == Class::Zero {
        (b, none)
    } else if vb.class == Class::Zero {
        (a, none)
    } else {
        let swap = vb.exponent > va.exponent || (vb.exponent == va.exponent && vb.significand
            > va.significand);
        if swap {
            add_core(b, a, p, mode)
        } else {
            add_core(a, b, p, mode)
        }
    }
}

/// The finite nonzero multiplication path.
#[verifier::rlimit(100)]
fn mul_core(a: u128, b: u128, p: Precision, mode: RoundingMode) -> (r: (u128, Flags))
    requires
        fits(a as nat, p),
        fits(b as nat, p),
        is_finite(a as nat, p),
        is_finite(b as nat, p),
        !is_zero(a as nat, p),
        !is_zero(b as nat, p),
    ensures
        r.0 as nat == spec_mul_core(a as nat, b as nat, p, mode).0,
        r.1 == spec_mul_core(a as nat, b as nat, p, mode).1,
        fits(r.0 as nat, p),
{
    proof {
        lemma_format_ranges(p);
        lemma2_to64();
        lemma_pow2_adds(3, (sig_width(p) + 1) as nat);
        lemma_pow2_adds(sig_width(p), sig_width(p));
        lemma_pow2_adds(3, (2 * sig_width(p)) as nat);
        lemma_pow2_adds((sig_width(p) + 2) as nat, (sig_width(p) + 1) as nat);
        lemma_pow2_adds((sig_width(p) + 1) as nat, (sig_width(p) + 1) as nat);
        lemma_pow2_adds(3, (2 * sig_width(p) + 2) as nat);
        lemma_pow2_adds(1, (sig_width(p) + 2) as nat);
        lemma_pow2_le((sig_width(p) + 4) as nat, (sig_width(p) + 5) as nat);
        lemma_pow2_le_127((sig_width(p) + 5) as nat);
        lemma_pow2_adds(3, (sig_width(p) + 2) as nat);
        lemma_pow2_adds((sig_width(p) + 4) as nat, (sig_width(p) + 1) as nat);
        lemma_pow2_le_127((sig_width(p) + 4) as nat);
        lemma_pow2_le((sig_width(p) + 1) as nat, 117);
        lemma_pow2_le((sig_width(p) + 4) as nat, 117);
        lemma_pow2_le((sig_width(p) + 2) as nat, 125);
        lemma_pow2_pos(sig_width(p));
        lemma_pow2_pos((sig_width(p) + 1) as nat);
        lemma_pow2_pos((sig_width(p) + 2) as nat);
        lemma_pow2_le(sig_width(p), (sig_width(p) + 1) as nat);
    }
    let pr = format_params(p);
    let va = decode(a, p);
    let vb = decode(b, p);
    let lo = pow2x(pr.sw + 2);
    let s = va.sign != vb.sign;
    let na = norm_sig(va.significand, va.exponent, p);
    let nb = norm_sig(vb.significand, vb.exponent, p);
    let a8: u128 = na.0 * 8;
    let m = mul_shift(a8, nb.0, pr.sw + 1, 0, false);
    proof {
        let sw = sig_width(p);
        let prod = (a8 as nat) * (nb.0 as nat);
        assert((0 + a8 as nat * nb.0 as nat) as nat == prod);
        // lower window bound: the reduced product is at least pow2(sw+2)
        assert(prod >= 8 * (pow2(sig_width(p)) * pow2(sig_width(p)))) by (nonlinear_arith)
            requires
                a8 as nat == na.0 as nat * 8,
                na.0 as nat >= pow2(sig_width(p)),
                nb.0 as nat >= pow2(sig_width(p)),
                prod == (a8 as nat) * (nb.0 as nat),
        ;
        assert(8 * (pow2(sw) * pow2(sw)) == pow2((sw + 2) as nat) * pow2((sw + 1) as nat));
        lemma_div_is_ordered(
            (pow2((sw + 2) as nat) * pow2((sw + 1) as nat)) as int,
            prod as int,
            pow2((sw + 1) as nat) as int,
        );
        lemma_div_multiples_vanish(pow2((sw + 2) as nat) as int, pow2((sw + 1) as nat) as int);
        assert(m.0 as nat >= pow2((sw + 2) as nat));
        // upper window bound: below pow2(sw+4)
        assert(prod < 8 * (pow2((sig_width(p) + 1) as nat) * pow2((sig_width(p) + 1) as nat))) by (nonlinear_arith)
            requires
                a8 as nat == na.0 as nat * 8,
                (na.0 as nat) < pow2((sig_width(p) + 1) as nat),
                (nb.0 as nat) < pow2((sig_width(p) + 1) as nat),
                nb.0 as nat >= 1,
                prod == (a8 as nat) * (nb.0 as nat),
        ;
        assert(8 * (pow2((sw + 1) as nat) * pow2((sw + 1) as nat)) == pow2((sw + 4) as nat)
            * pow2((sw + 1) as nat));
        lemma_multiply_divide_lt(prod as int, pow2((sw + 1) as nat) as int, pow2(
            (sw + 4) as nat,
        ) as int);
        assert((m.0 as nat) < pow2((sw + 4) as nat));
        assert(m.0 as nat == prod / pow2((sw + 1) as nat));
        assert(2 * (lo as nat) == pow2((sig_width(p) + 3) as nat));
        assert(8 * (lo as nat) == pow2((sig_width(p) + 5) as nat));
        assert((m.0 as nat) < 8 * (lo as nat));
    }
    let e: i64 = na.1 + nb.1;
    let n = norm2(m.0, e, m.1, lo);
    proof {
        assert(round_input_ok(n.1 as int, n.0 as nat, p));
    }
    round_pack(s, n.1, n.0, n.2, p, mode)
}

/// Multiplication: same signature shape as `add`.
pub fn multiply(a: u128, b: u128, p: Precision, mode: RoundingMode) -> (r: (u128, Flags))
    requires
        fits(a as nat, p),
        fits(b as nat, p),
    ensures
        r.0 as nat == spec_mul(a as nat, b as nat, p, mode).0,
        r.1 == spec_mul(a as nat, b as nat, p, mode).1,
        fits(r.0 as nat, p),
        is_nan(a as nat, p) || is_nan(b as nat, p) ==> spec_class(r.0 as nat, p)
            == Class::QuietNan,
        (spec_class(a as nat, p) == Class::Infinity || spec_class(b as nat, p)
            == Class::Infinity) && (is_zero(a as nat, p) || is_zero(b as nat, p)) ==> r.1.invalid
            && spec_class(r.0 as nat, p) == Class::QuietNan,
{
    let va = decode(a, p);
    let vb = decode(b, p);
    let none = Flags {
        invalid: false,
        divide_by_zero: false,
        overflow: false,
        underflow: false,
        inexact: false,
    };
    if va.class == Class::QuietNan || va.class == Class::SignalingNan || vb.class
        == Class::QuietNan || vb.class == Class::SignalingNan {
        proof {
            lemma_nan_result_is_quiet(a as nat, b as nat, p);
        }
        nan_result(a, b, p)
    } else if va.class == Class::Infinity || vb.class == Class::Infinity {
        if va.class == Class::Zero || vb.class == Class::Zero {
            proof {
                lemma_default_nan_is_quiet(p);
            }
            (default_nan_x(p), Flags { invalid: true, ..none })
        } else {
            (inf_x(va.sign != vb.sign, p), none)
        }
    } else if va.class == Class::Zero || vb.class == Class::Zero {
        (zero_x(va.sign != vb.sign, p), none)
    } else {
        mul_core(a, b, p, mode)
    }
}

/// The finite nonzero division path.
#[verifier::rlimit(100)]
fn div_core(a: u128, b: u128, p: Precision, mode: RoundingMode) -> (r: (u128, Flags))
    requires
        fits(a as nat, p),
        fits(b as nat, p),
        is_finite(a as nat, p),
        is_finite(b as nat, p),
        !is_zero(a as nat, p),
        !is_zero(b as nat, p),
    ensures
        r.0 as nat == spec_div_core(a as nat, b as nat, p, mode).0,
        r.1 == spec_div_core(a as nat, b as nat, p, mode).1,
        fits(r.0 as nat, p),
{
    proof {
        lemma_format_ranges(p);
        lemma2_to64();
        lemma_pow2_adds((sig_width(p) + 2) as nat, (sig_width(p) + 1) as nat);
        lemma_pow2_adds(sig_width(p), (sig_width(p) + 3) as nat);
        lemma_pow2_adds((sig_width(p) + 4) as nat, (sig_width(p) + 1) as nat);
        lemma_pow2_adds(3, (sig_width(p) + 2) as nat);
        lemma_pow2_adds(1, (sig_width(p) + 2) as nat);
        lemma_pow2_adds(1, sig_width(p));
        lemma_pow2_le_127((sig_width(p) + 4) as nat);
        lemma_pow2_le((sig_width(p) + 1) as nat, 117);
        lemma_pow2_le((sig_width(p) + 2) as nat, 125);
        lemma_pow2_le((sig_width(p) + 3) as nat, 117);
        lemma_pow2_adds((sig_width(p) + 1) as nat, (sig_width(p) + 3) as nat);
        lemma_pow2_adds(sig_width(p), (sig_width(p) + 4) as nat);
        lemma_pow2_le(sig_width(p), (sig_width(p) + 1) as nat);
        lemma_pow2_pos(sig_width(p));
        lemma_pow2_pos((sig_width(p) + 1) as nat);
        lemma_pow2_pos((sig_width(p) + 2) as nat);
        lemma_pow2_pos((sig_width(p) + 3) as nat);
        lemma_pow2_pos((sig_width(p) + 4) as nat);
        lemma_pow2_le((sig_width(p) + 4) as nat, (sig_width(p) + 5) as nat);
        lemma_pow2_le_127((sig_width(p) + 5) as nat);
    }
    let pr = format_params(p);
    let va = decode(a, p);
    let vb = decode(b, p);
    let lo = pow2x(pr.sw + 2);
    let s = va.sign != vb.sign;
    let na = norm_sig(va.significand, va.exponent, p);
    let nb = norm_sig(vb.significand, vb.exponent, p);
    let q0: u128 = na.0 / nb.0;
    let r0: u128 = na.0 % nb.0;
    proof {
        let sw = sig_width(p);
        lemma_pow2_unfold((sw + 1) as nat);
        lemma_multiply_divide_lt(na.0 as int, nb.0 as int, 2);
        assert(q0 < 2);
        assert(((q0 as nat) as int) < pow2((118 - (pr.sw + 3)) as nat)) by {
            lemma_pow2_le(2, (118 - (pr.sw + 3)) as nat);
        }
    }
    let dv = div_steps(q0, r0, nb.0, pr.sw + 3);
    proof {
        let sw = sig_width(p);
        let n3 = (sw + 3) as nat;
        let nan = na.0 as nat;
        let nbn = nb.0 as nat;
        lemma_fundamental_div_mod(na.0 as int, nb.0 as int);
        // q0*2^n*b + r0*2^n == na*2^n
        assert((r0 as nat) * pow2(n3) + (q0 as nat) * pow2(n3) * nbn == nan * pow2(n3))
            by (nonlinear_arith)
            requires
                nan == nbn * (q0 as nat) + (r0 as nat),
        ;
        lemma_hoist_over_denominator(
            ((r0 as nat) * pow2(n3)) as int,
            ((q0 as nat) * pow2(n3)) as int,
            nbn,
        );
        assert(dv.0 as nat == (nan * pow2(n3)) / nbn);
        lemma_mod_multiples_vanish(
            ((q0 as nat) * pow2(n3)) as int,
            ((r0 as nat) * pow2(n3)) as int,
            nbn as int,
        );
        assert((nbn as int) * (((q0 as nat) * pow2(n3)) as int) + ((r0 as nat) * pow2(n3)) as int
            == ((nan * pow2(n3)) as int)) by (nonlinear_arith)
            requires
                (r0 as nat) * pow2(n3) + (q0 as nat) * pow2(n3) * nbn == nan * pow2(n3),
        ;
        assert((dv.1 as nat == 0) == ((nan * pow2(n3)) % nbn == 0));
        // window bounds for the quotient
        lemma_mul_inequality(
            pow2(sig_width(p)) as int,
            nan as int,
            pow2((sig_width(p) + 3) as nat) as int,
        );
        lemma_mul_inequality(nbn as int, pow2((sig_width(p) + 1) as nat) as int, pow2(
            (sig_width(p) + 2) as nat,
        ) as int);
        assert(nan * pow2((sig_width(p) + 3) as nat) >= pow2((sig_width(p) + 2) as nat) * nbn)
            by (nonlinear_arith)
            requires
                nan >= pow2(sig_width(p)),
                nbn < pow2((sig_width(p) + 1) as nat),
                nan * pow2((sig_width(p) + 3) as nat) >= pow2(sig_width(p)) * pow2(
                    (sig_width(p) + 3) as nat,
                ),
                pow2(sig_width(p)) * pow2((sig_width(p) + 3) as nat) == pow2(
                    (sig_width(p) + 2) as nat,
                ) * pow2((sig_width(p) + 1) as nat),
                nbn * pow2((sig_width(p) + 2) as nat) <= pow2((sig_width(p) + 1) as nat) * pow2(
                    (sig_width(p) + 2) as nat,
                ),
        ;
        lemma_div_is_ordered(
            (pow2((sw + 2) as nat) * nbn) as int,
            (nan * pow2(n3)) as int,
            nbn as int,
        );
        lemma_div_multiples_vanish(pow2((sw + 2) as nat) as int, nbn as int);
        assert(dv.0 as nat >= pow2((sw + 2) as nat));
        assert(nan * pow2((sig_width(p) + 3) as nat) < nbn * pow2((sig_width(p) + 4) as nat))
            by (nonlinear_arith)
            requires
                nan < pow2((sig_width(p) + 1) as nat),
                nbn >= pow2(sig_width(p)),
                pow2((sig_width(p) + 3) as nat) >= 1,
                pow2((sig_width(p) + 4) as nat) >= 1,
                pow2((sig_width(p) + 1) as nat) * pow2((sig_width(p) + 3) as nat) == pow2(
                    sig_width(p),
                ) * pow2((sig_width(p) + 4) as nat),
        ;
        lemma_multiply_divide_lt((nan * pow2(n3)) as int, nbn as int, pow2((sw + 4) as nat) as int);
        assert((dv.0 as nat) < pow2((sw + 4) as nat));
        assert(8 * (lo as nat) == pow2((sig_width(p) + 5) as nat));
        assert((dv.0 as nat) < 8 * (lo as nat));
    }
    let e: i64 = na.1 - nb.1 - 1;
    let n = norm2(dv.0, e, dv.1 != 0, lo);
    proof {
        assert(round_input_ok(n.1 as int, n.0 as nat, p));
    }
    round_pack(s, n.1, n.0, n.2, p, mode)
}

/// Division: same signature shape as `add`.
pub fn divide(a: u128, b: u128, p: Precision, mode: RoundingMode) -> (r: (u128, Flags))
    requires
        fits(a as nat, p),
        fits(b as nat, p),
    ensures
        r.0 as nat == spec_div(a as nat, b as nat, p, mode).0,
        r.1 == spec_div(a as nat, b as nat, p, mode).1,
        fits(r.0 as nat, p),
        is_nan(a as nat, p) || is_nan(b as nat, p) ==> spec_class(r.0 as nat, p)
            == Class::QuietNan,
        is_finite(a as nat, p) && !is_zero(a as nat, p) && is_zero(b as nat, p)
            ==> r.1.divide_by_zero && r.0 as nat == spec_inf_bits(
            spec_sign(a as nat, p) != spec_sign(b as nat, p),
            p,
        ),
        is_zero(a as nat, p) && is_zero(b as nat, p) ==> r.1.invalid && spec_class(
            r.0 as nat,
            p,
        ) == Class::QuietNan,
{
    let va = decode(a, p);
    let vb = decode(b, p);
    let none = Flags {
        invalid: false,
        divide_by_zero: false,
        overflow: false,
        underflow: false,
        inexact: false,
    };
    if va.class == Class::QuietNan || va.class == Class::SignalingNan || vb.class
        == Class::QuietNan || vb.class == Class::SignalingNan {
        proof {
            lemma_nan_result_is_quiet(a as nat, b as nat, p);
        }
        nan_result(a, b, p)
    } else if va.class == Class::Infinity {
        if vb.class == Class::Infinity {
            proof {
                lemma_default_nan_is_quiet(p);
            }
            (default_nan_x(p), Flags { invalid: true, ..none })
        } else {
            (inf_x(va.sign != vb.sign, p), none)
        }
    } else if vb.class == Class::Infinity {
        (zero_x(va.sign != vb.sign, p), none)
    } else if va.class == Class::Zero {
        if vb.class == Class::Zero {
            proof {
                lemma_default_nan_is_quiet(p);
            }
            (default_nan_x(p), Flags { invalid: true, ..none })
        } else {
            (zero_x(va.sign != vb.sign, p), none)
        }
    } else if vb.class == Class::Zero {
        (inf_x(va.sign != vb.sign, p), Flags { divide_by_zero: true, ..none })
    } else {
        div_core(a, b, p, mode)
    }
}

} // verus!
