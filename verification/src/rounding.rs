//! The rounder: applies a rounding mode to an extended result held in a
//! working window with guard and round bits plus a sticky flag, handling
//! subnormal re-alignment, rounding overflow into the exponent, and the
//! overflow/underflow/inexact exception flags.
use vstd::prelude::*;
use vstd::arithmetic::power2::{pow2, lemma_pow2_unfold, lemma_pow2_adds, lemma_pow2_pos, lemma2_to64};
use vstd::arithmetic::div_mod::{
    lemma_multiply_divide_lt, lemma_div_is_ordered_by_denominator, lemma_div_multiples_vanish,
};
use crate::params::{
    Precision, sig_width, exp_width, bias, bexp_all_ones, min_exp, max_exp, exp_in_range,
    format_params, pow2x, lemma_format_ranges,
};
use crate::codec::{fits, spec_sign, spec_assemble, lemma_assemble_fields};

verus! {

/// The five IEEE-754 rounding-direction attributes.
#[derive(Clone, Copy, PartialEq, Eq, Structural, Debug)]
pub enum RoundingMode {
    NearestTiesToEven,
    NearestTiesAway,
    TowardZero,
    TowardPositive,
    TowardNegative,
}

/// Exception flags raised by an operation; observational only.
#[derive(Clone, Copy, PartialEq, Eq, Structural, Debug)]
pub struct Flags {
    pub invalid: bool,
    pub divide_by_zero: bool,
    pub overflow: bool,
    pub underflow: bool,
    pub inexact: bool,
}

/// No exception raised.
pub open spec fn no_flags() -> Flags {
    Flags { invalid: false, divide_by_zero: false, overflow: false, underflow: false, inexact: false }
}

/// Only the invalid-operation flag raised.
pub open spec fn invalid_flags() -> Flags {
    Flags { invalid: true, divide_by_zero: false, overflow: false, underflow: false, inexact: false }
}

/// The rounding decision table: round the magnitude up or truncate, given
/// the guard bit, the disjunction of round and sticky, and the parity of
/// the truncated significand.
pub open spec fn spec_round_up(mode: RoundingMode, sign: bool, g: bool, rs: bool, odd: bool) -> bool {
    match mode {
        RoundingMode::NearestTiesToEven => g && (rs || odd),
        RoundingMode::NearestTiesAway => g,
        RoundingMode::TowardZero => false,
        RoundingMode::TowardPositive => !sign && (g || rs),
        RoundingMode::TowardNegative => sign && (g || rs),
    }
}

/// On overflow, whether the mode saturates to infinity (else to the
/// largest finite value of the same sign).
pub open spec fn spec_overflow_to_inf(mode: RoundingMode, sign: bool) -> bool {
    match mode {
        RoundingMode::NearestTiesToEven => true,
        RoundingMode::NearestTiesAway => true,
        RoundingMode::TowardZero => false,
        RoundingMode::TowardPositive => !sign,
        RoundingMode::TowardNegative => sign,
    }
}

/// The unified rounding entry point, as a function of the final target
/// exponent. The window value `x` carries the significand with two extra
/// low bits (guard and round); `st` is the sticky flag; the represented
/// magnitude is `(x + f) * pow2(e - sig_width - 2)` with `f` a fraction
/// below one that is nonzero exactly when `st` is set. Values below the
/// minimum exponent are re-aligned before the rounding decision is made,
/// so no double rounding occurs.
pub open spec fn spec_round_fields(
    sign: bool,
    e: int,
    x: nat,
    st: bool,
    p: Precision,
    mode: RoundingMode,
) -> (nat, nat, Flags) {
    let emin = min_exp(p);
    let sw = sig_width(p);
    let pre: (nat, bool) = if e < emin {
        let d = (emin - e) as nat;
        if d >= sw + 3 {
            (0nat, st || x != 0)
        } else {
            (x / pow2(d), st || x % pow2(d) != 0)
        }
    } else {
        (x, st)
    };
    let eb: int = if e < emin {
        emin
    } else {
        e
    };
    let x2 = pre.0;
    let st2 = pre.1;
    let m = x2 / 4;
    let g = (x2 / 2) % 2 == 1;
    let rs = x2 % 2 == 1 || st2;
    let inexact = g || rs;
    let up = spec_round_up(mode, sign, g, rs, m % 2 == 1);
    let m2: nat = if up {
        m + 1
    } else {
        m
    };
    let carried = m2 == pow2((sw + 1) as nat);
    let m3: nat = if carried {
        pow2(sw)
    } else {
        m2
    };
    let e2: int = if carried {
        eb + 1
    } else {
        eb
    };
    if e2 > max_exp(p) {
        let ofl = Flags {
            invalid: false,
            divide_by_zero: false,
            overflow: true,
            underflow: false,
            inexact: true,
        };
        if spec_overflow_to_inf(mode, sign) {
            (bexp_all_ones(p), 0nat, ofl)
        } else {
            ((bexp_all_ones(p) - 1) as nat, (pow2(sw) - 1) as nat, ofl)
        }
    } else {
        let norm = m3 >= pow2(sw);
        let be: nat = if norm {
            (e2 + bias(p)) as nat
        } else {
            0
        };
        let f: nat = if norm {
            (m3 - pow2(sw)) as nat
        } else {
            m3
        };
        (
            be,
            f,
            Flags {
                invalid: false,
                divide_by_zero: false,
                overflow: false,
                underflow: inexact && !norm,
                inexact: inexact,
            },
        )
    }
}

/// The rounded bit pattern and flags: the fields above, assembled.
pub open spec fn spec_round_pack(
    sign: bool,
    e: int,
    x: nat,
    st: bool,
    p: Precision,
    mode: RoundingMode,
) -> (nat, Flags) {
    let t = spec_round_fields(sign, e, x, st, p, mode);
    (spec_assemble(sign, t.0, t.1, p), t.2)
}

/// The shape of inputs the rounder accepts: a window value of at most
/// `sig_width + 3` bits, normalized unless the exponent is already at the
/// format minimum.
pub open spec fn round_input_ok(e: int, x: nat, p: Precision) -> bool {
    &&& exp_in_range(e)
    &&& x < pow2((sig_width(p) + 3) as nat)
    &&& (pow2((sig_width(p) + 2) as nat) <= x || e == min_exp(p))
}

/// The two assembled fields of a rounded result are always in range.
#[verifier::rlimit(100)]
pub proof fn lemma_round_fields_bounds(
    sign: bool,
    e: int,
    x: nat,
    st: bool,
    p: Precision,
    mode: RoundingMode,
)
    requires
        round_input_ok(e, x, p),
    ensures
        spec_round_fields(sign, e, x, st, p, mode).0 < pow2(exp_width(p)),
        spec_round_fields(sign, e, x, st, p, mode).1 < pow2(sig_width(p)),
{
    let emin = min_exp(p);
    let sw = sig_width(p);
    lemma_format_ranges(p);
    lemma_pow2_unfold(2);
    lemma_pow2_unfold(1);
    vstd::arithmetic::power2::lemma_pow2(0);
    vstd::arithmetic::power::lemma_pow0(2);
    lemma_pow2_adds(2, (sw + 1) as nat);
    lemma_pow2_unfold((sw + 1) as nat);
    lemma_pow2_pos(sw);
    lemma_pow2_pos(exp_width(p));
    if e < emin {
        let d = (emin - e) as nat;
        if d < sw + 3 {
            lemma_pow2_pos(d);
            lemma_div_is_ordered_by_denominator(x as int, 1, pow2(d) as int);
            lemma_div_multiples_vanish(x as int, 1);
            assert(x / pow2(d) <= x);
        }
    }
    let x2 = (if e < emin {
        let d = (emin - e) as nat;
        if d >= sw + 3 {
            0nat
        } else {
            x / pow2(d)
        }
    } else {
        x
    });
    assert(x2 <= x);
    lemma_multiply_divide_lt(x2 as int, 4, pow2((sw + 1) as nat) as int);
    assert(x2 / 4 < pow2((sw + 1) as nat));
}

/// The rounder's result fits the format and keeps the requested sign.
pub proof fn lemma_round_pack_fields(
    sign: bool,
    e: int,
    x: nat,
    st: bool,
    p: Precision,
    mode: RoundingMode,
)
    requires
        round_input_ok(e, x, p),
    ensures
        fits(spec_round_pack(sign, e, x, st, p, mode).0, p),
        spec_sign(spec_round_pack(sign, e, x, st, p, mode).0, p) == sign,
{
    let t = spec_round_fields(sign, e, x, st, p, mode);
    lemma_round_fields_bounds(sign, e, x, st, p, mode);
    lemma_assemble_fields(sign, t.0, t.1, p);
}

/// Applies the rounding mode and packs the result: returns the final bit
/// pattern and the overflow/underflow/inexact flags.
#[verifier::rlimit(100)]
pub fn round_pack(
    sign: bool,
    e: i64,
    x: u128,
    st: bool,
    p: Precision,
    mode: RoundingMode,
) -> (r: (u128, Flags))
    requires
        round_input_ok(e as int, x as nat, p),
    ensures
        r.0 as nat == spec_round_pack(sign, e as int, x as nat, st, p, mode).0,
        r.1 == spec_round_pack(sign, e as int, x as nat, st, p, mode).1,
        fits(r.0 as nat, p),
{
    proof {
        lemma_round_pack_fields(sign, e as int, x as nat, st, p, mode);
        lemma_format_ranges(p);
        lemma2_to64();
        lemma_pow2_adds(2, (sig_width(p) + 1) as nat);
        lemma_pow2_unfold((sig_width(p) + 1) as nat);
        lemma_pow2_pos(sig_width(p));
    }
    let pr = format_params(p);
    let emin: i64 = 1 - pr.bias_v;
    let (x2, st2): (u128, bool) = if e < emin {
        let d: i64 = emin - e;
        if d >= (pr.sw + 3) as i64 {
            (0, st || x != 0)
        } else {
            let pd = pow2x(d as u64);
            (x / pd, st || x % pd != 0)
        }
    } else {
        (x, st)
    };
    let eb: i64 = if e < emin {
        emin
    } else {
        e
    };
    proof {
        if e < emin {
            let d = ((1 - bias(p)) - e) as nat;
            if d < sig_width(p) + 3 {
                lemma_pow2_pos(d);
                lemma_div_is_ordered_by_denominator(x as int, 1, pow2(d) as int);
                lemma_div_multiples_vanish(x as int, 1);
            }
        }
        assert(x2 <= x);
        lemma_multiply_divide_lt(x2 as int, 4, pow2((sig_width(p) + 1) as nat) as int);
    }
    let m: u128 = x2 / 4;
    let g = (x2 / 2) % 2 == 1;
    let rs = x2 % 2 == 1 || st2;
    let inexact = g || rs;
    let up = match mode {
        RoundingMode::NearestTiesToEven => g && (rs || m % 2 == 1),
        RoundingMode::NearestTiesAway => g,
        RoundingMode::TowardZero => false,
        RoundingMode::TowardPositive => !sign && (g || rs),
        RoundingMode::TowardNegative => sign && (g || rs),
    };
    let m2: u128 = if up {
        m + 1
    } else {
        m
    };
    let psw = pow2x(pr.sw);
    let psw1 = pow2x(pr.sw + 1);
    let carried = m2 == psw1;
    let m3: u128 = if carried {
        psw
    } else {
        m2
    };
    let e2: i64 = if carried {
        eb + 1
    } else {
        eb
    };
    if e2 > pr.bias_v {
        let ofl = Flags {
            invalid: false,
            divide_by_zero: false,
            overflow: true,
            underflow: false,
            inexact: true,
        };
        let to_inf = match mode {
            RoundingMode::NearestTiesToEven => true,
            RoundingMode::NearestTiesAway => true,
            RoundingMode::TowardZero => false,
            RoundingMode::TowardPositive => !sign,
            RoundingMode::TowardNegative => sign,
        };
        if to_inf {
            (crate::codec::assemble_x(sign, pr.bexp_all, 0, p), ofl)
        } else {
            (crate::codec::assemble_x(sign, pr.bexp_all - 1, psw - 1, p), ofl)
        }
    } else {
        let norm = m3 >= psw;
        let be: u64 = if norm {
            (e2 + pr.bias_v) as u64
        } else {
            0
        };
        let f: u128 = if norm {
            m3 - psw
        } else {
            m3
        };
        (
            crate::codec::assemble_x(sign, be, f, p),
            Flags {
                invalid: false,
                divide_by_zero: false,
                overflow: false,
                underflow: inexact && !norm,
                inexact: inexact,
            },
        )
    }
}

} // verus!
