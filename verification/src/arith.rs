//! Extended significand arithmetic: shifting products, long division with
//! remainder tracking, and normalization, all with a monotonically
//! accumulated sticky bit so no discarded nonzero bit is ever forgotten.
use vstd::prelude::*;
use vstd::arithmetic::power2::{pow2, lemma_pow2_unfold, lemma_pow2_pos};
use vstd::arithmetic::div_mod::{
    lemma_fundamental_div_mod, lemma_div_denominator, lemma_div_multiples_vanish_fancy,
    lemma_mod_multiples_vanish, lemma_multiply_divide_lt, lemma_mod_bound, lemma_small_mod,
    lemma_div_is_ordered, lemma_basic_div, lemma_div_multiples_vanish, lemma_mod_breakdown,
    lemma_hoist_over_denominator,
};
use vstd::arithmetic::mul::lemma_mul_inequality;
use crate::params::{Precision, sig_width, exp_in_range, lemma_pow2_le_127, lemma_pow2_le, lemma_format_ranges};

verus! {

/// One conditional right-shift of the working window, exponent up by one,
/// shifted-out bit folded into the sticky flag.
pub open spec fn spec_nstep(x: nat, e: int, st: bool, lo: nat) -> (nat, int, bool) {
    if x >= 2 * lo {
        (x / 2, e + 1, st || x % 2 != 0)
    } else {
        (x, e, st)
    }
}

/// Right-normalization into the window `[lo, 2*lo)`: two conditional
/// shifts, enough for every raw result the engine produces.
pub open spec fn spec_norm2(x: nat, e: int, st: bool, lo: nat) -> (nat, int, bool) {
    let s1 = spec_nstep(x, e, st, lo);
    spec_nstep(s1.0, s1.1, s1.2, lo)
}

/// Left-normalization: exact doubling shifts until the window floor or the
/// minimum exponent is reached.
pub open spec fn spec_norm_left(x: nat, e: int, lo: nat, emin: int) -> (nat, int)
    decreases (if e > emin {
        e - emin
    } else {
        0
    }),
{
    if x < lo && e > emin {
        spec_norm_left(2 * x, e - 1, lo, emin)
    } else {
        (x, e)
    }
}

/// Pre-normalization of a subnormal operand's significand to the normal
/// range, compensating in the exponent.
pub open spec fn spec_norm_sig(sig: nat, e: int, p: Precision) -> (nat, int)
    decreases (if sig < pow2(sig_width(p)) {
        pow2(sig_width(p)) - sig
    } else {
        0
    }),
{
    if 0 < sig && sig < pow2(sig_width(p)) {
        spec_norm_sig(2 * sig, e - 1, p)
    } else {
        (sig, e)
    }
}

/// Full-width product reduced by `n` low-order bits, with a flag for the
/// discarded remainder: the lossless core of multiplication.
pub open spec fn spec_mul_ext(a: nat, b: nat, n: nat) -> (nat, bool) {
    ((a * b) / pow2(n), (a * b) % pow2(n) != 0)
}

/// Quotient of `a * pow2(n)` by `b` with a flag for a nonzero remainder:
/// the lossless core of division.
pub open spec fn spec_div_ext(a: nat, b: nat, n: nat) -> (nat, bool) {
    ((a * pow2(n)) / b, (a * pow2(n)) % b != 0)
}

/// Dividing an even decomposition `u == 2*v + r0` by `pow2(n)` equals
/// dividing its half by `pow2(n-1)`; the dropped bit joins the remainder.
proof fn lemma_halving(u: nat, v: nat, r0: nat, n: nat)
    requires
        n >= 1,
        u == 2 * v + r0,
        r0 < 2,
    ensures
        u / pow2(n) == v / pow2((n - 1) as nat),
        (u % pow2(n) != 0) == (v % pow2((n - 1) as nat) != 0 || r0 != 0),
{
    let m = pow2((n - 1) as nat);
    lemma_pow2_unfold(n);
    lemma_pow2_pos((n - 1) as nat);
    lemma_div_multiples_vanish_fancy(v as int, r0 as int, 2);
    assert(u as int / 2 == v);
    lemma_mod_multiples_vanish(v as int, r0 as int, 2);
    lemma_small_mod(r0, 2);
    assert(u as int % 2 == r0);
    lemma_div_denominator(u as int, 2, m as int);
    assert(u as int / 2 / m as int == u as int / (2 * m as int));
    assert(u / pow2(n) == v / m);
    lemma_mod_breakdown(u as int, 2, m as int);
    assert(u as int % (2 * m as int) == 2 * (u as int / 2 % m as int) + u as int % 2);
    lemma_mod_bound(v as int, m as int);
}

/// Bounds of the right-normalization window, at the specification level.
pub proof fn lemma_norm2_window(x: nat, e: int, st: bool, lo: nat)
    requires
        1 <= lo,
    ensures
        x < 8 * lo ==> spec_norm2(x, e, st, lo).0 < 2 * lo,
        x >= lo ==> spec_norm2(x, e, st, lo).0 >= lo,
        x < lo ==> spec_norm2(x, e, st, lo) == (x, e, st),
        e <= spec_norm2(x, e, st, lo).1 <= e + 2,
{
    lemma_div_multiples_vanish(lo as int, 2);
    lemma_div_multiples_vanish((2 * lo) as int, 2);
    if x >= 2 * lo {
        lemma_div_is_ordered((2 * lo) as int, x as int, 2);
        if x < 8 * lo {
            lemma_multiply_divide_lt(x as int, 2, (4 * lo) as int);
        }
        let x1 = x / 2;
        if x1 >= 2 * lo {
            lemma_div_is_ordered((2 * lo) as int, x1 as int, 2);
            if x1 < 4 * lo {
                lemma_multiply_divide_lt(x1 as int, 2, (2 * lo) as int);
            }
        }
    }
}

/// Bounds of the significand pre-normalization, at the specification
/// level: the result is normal, the exponent drops by at most the
/// significand width.
pub proof fn lemma_norm_sig_bounds(sig: nat, e: int, p: Precision)
    requires
        1 <= sig,
        sig < pow2((sig_width(p) + 1) as nat),
    ensures
        pow2(sig_width(p)) <= spec_norm_sig(sig, e, p).0,
        spec_norm_sig(sig, e, p).0 < pow2((sig_width(p) + 1) as nat),
        spec_norm_sig(sig, e, p).1 <= e,
        e - spec_norm_sig(sig, e, p).1 <= sig_width(p) + 1,
        spec_norm_sig(sig, e, p).0 == sig * pow2((e - spec_norm_sig(sig, e, p).1) as nat),
    decreases (if sig < pow2(sig_width(p)) {
        pow2(sig_width(p)) - sig
    } else {
        0
    }),
{
    let sw = sig_width(p);
    lemma_pow2_pos(sw);
    vstd::arithmetic::power2::lemma2_to64();
    if 0 < sig && sig < pow2(sw) {
        lemma_pow2_unfold((sw + 1) as nat);
        lemma_norm_sig_bounds(2 * sig, e - 1, p);
        let r = spec_norm_sig(sig, e, p);
        lemma_pow2_unfold((e - r.1) as nat);
        assert((2 * sig) * pow2((e - 1 - r.1) as nat) == sig * pow2((e - r.1) as nat))
            by (nonlinear_arith)
            requires
                pow2((e - r.1) as nat) == 2 * pow2(((e - r.1) - 1) as nat),
                e - 1 - r.1 == (e - r.1) - 1,
                e - r.1 >= 1,
        ;
        if e - r.1 > sw + 1 {
            lemma_pow2_le((sw + 1) as nat, (e - r.1) as nat);
            lemma_mul_inequality(1, sig as int, pow2((e - r.1) as nat) as int);
            assert(false);
        }
    } else {
        assert(sig * pow2(0) == sig) by (nonlinear_arith)
            requires
                pow2(0) == 1,
        ;
    }
}

/// Shift-reducing multiplier: computes `(acc + a*b) / 2^n` and whether any
/// of the `n` dropped bits was nonzero, without ever widening past 128
/// bits.
pub fn mul_shift(a: u128, b: u128, n: u64, acc: u128, st: bool) -> (r: (u128, bool))
    requires
        (a as nat) < pow2(117),
        (b as nat) < pow2(n as nat),
        n <= 117,
        acc <= a,
    ensures
        r.0 as nat == (acc + a * b) as nat / pow2(n as nat),
        r.1 == (st || (acc + a * b) as nat % pow2(n as nat) != 0),
        r.0 <= a,
    decreases n,
{
    proof {
        lemma_pow2_le_127(117);
    }
    if n == 0 {
        proof {
            vstd::arithmetic::power2::lemma2_to64();
            assert(b == 0);
            assert((acc + a * b) as nat == acc) by (nonlinear_arith)
                requires
                    b == 0,
            ;
            lemma_mod_bound(acc as int, 1);
            lemma_div_multiples_vanish(acc as int, 1);
        }
        (acc, st)
    } else {
        let bit = b % 2 == 1;
        let t: u128 = if bit {
            acc + a
        } else {
            acc
        };
        proof {
            lemma_fundamental_div_mod(b as int, 2);
            lemma_mod_bound(b as int, 2);
            assert(a * b == 2 * (a * (b / 2)) + a * (b % 2)) by (nonlinear_arith)
                requires
                    b as int == 2 * (b as int / 2) + b as int % 2,
            ;
            assert(a * (b % 2) == (if b % 2 == 1 { a as nat } else { 0nat })) by (nonlinear_arith)
                requires
                    b % 2 == 0 || b % 2 == 1,
            ;
            assert(t == acc + a * (b % 2));
            lemma_fundamental_div_mod(t as int, 2);
            lemma_mod_bound(t as int, 2);
            // (acc + a*b) == 2 * (t/2 + a*(b/2)) + t%2
            assert((acc + a * b) as nat == 2 * ((t / 2) as nat + a * (b / 2)) + (t % 2) as nat);
            lemma_halving(
                (acc + a * b) as nat,
                ((t / 2) as nat) + (a as nat) * ((b / 2) as nat),
                (t % 2) as nat,
                n as nat,
            );
            // the recursive accumulator stays at most a
            lemma_div_is_ordered(t as int, 2 * a as int, 2);
            lemma_div_multiples_vanish(a as int, 2);
            // the recursive multiplicand shrinks below pow2(n-1)
            lemma_pow2_unfold(n as nat);
            lemma_pow2_pos((n - 1) as nat);
            lemma_multiply_divide_lt(b as int, 2, pow2((n - 1) as nat) as int);
        }
        let rec = mul_shift(a, b / 2, n - 1, t / 2, st || t % 2 == 1);
        proof {
            assert((t / 2) as nat + a * (b / 2) == ((t / 2) + a * (b / 2)) as nat);
        }
        rec
    }
}

/// Restoring long division, one quotient bit per step; the final remainder
/// is returned so the caller can set the sticky bit exactly.
pub fn div_steps(q0: u128, r0: u128, b: u128, n: u64) -> (res: (u128, u128))
    requires
        0 < b,
        (b as nat) < pow2(117),
        r0 < b,
        n <= 117,
        (q0 as nat) < pow2((118 - n) as nat),
    ensures
        res.0 as nat == (q0 as nat) * pow2(n as nat) + ((r0 as nat) * pow2(n as nat)) / (b as nat),
        res.1 as nat == ((r0 as nat) * pow2(n as nat)) % (b as nat),
        res.1 < b,
        (res.0 as nat) < pow2(118),
    decreases n,
{
    proof {
        lemma_pow2_le_127(118);
        lemma_pow2_le((118 - n) as nat, 118);
        lemma_pow2_unfold(118);
    }
    if n == 0 {
        proof {
            vstd::arithmetic::power2::lemma2_to64();
            lemma_basic_div(r0 as int, b as int);
            lemma_small_mod(r0 as nat, b as nat);
        }
        (q0, r0)
    } else {
        let r2: u128 = r0 * 2;
        proof {
            lemma_pow2_unfold(n as nat);
            lemma_pow2_pos((n - 1) as nat);
            lemma_pow2_unfold((118 - (n - 1)) as nat);
            assert(r0 * pow2(n as nat) == (2 * r0) * pow2((n - 1) as nat)) by (nonlinear_arith)
                requires
                    pow2(n as nat) == 2 * pow2((n - 1) as nat),
            ;
            assert(q0 * pow2(n as nat) == (2 * q0) * pow2((n - 1) as nat)) by (nonlinear_arith)
                requires
                    pow2(n as nat) == 2 * pow2((n - 1) as nat),
            ;
        }
        if r2 >= b {
            proof {
                let m = pow2((n - 1) as nat);
                assert((r2 - b) * m + b * m == r2 as nat * m) by (nonlinear_arith);
                lemma_hoist_over_denominator(((r2 - b) as nat * m) as int, m as int, b as nat);
                assert(((r2 - b) as nat * m) as int / b as int + m == ((r2 - b) as nat * m + m * b)
                    as int / b as int);
                assert(m * b == b * m) by (nonlinear_arith);
                lemma_mod_multiples_vanish(m as int, ((r2 - b) as nat * m) as int, b as int);
                // quotient parcel fits
                assert(((2 * q0 + 1) as nat) < pow2((118 - (n - 1)) as nat));
            }
            let rec = div_steps(q0 * 2 + 1, r2 - b, b, n - 1);
            proof {
                let m = pow2((n - 1) as nat);
                assert((q0 * 2 + 1) as nat * m == (2 * q0) as nat * m + m) by (nonlinear_arith);
            }
            rec
        } else {
            proof {
                assert(((2 * q0) as nat) < pow2((118 - (n - 1)) as nat));
            }
            let rec = div_steps(q0 * 2, r2, b, n - 1);
            proof {
                let m = pow2((n - 1) as nat);
                assert((q0 * 2) as nat * m == (2 * q0) as nat * m) by (nonlinear_arith);
            }
            rec
        }
    }
}

/// Right-normalizes a raw window value below `8*lo` into `[lo, 2*lo)`
/// (when it started at or above `lo`), accumulating shifted-out bits into
/// the sticky flag.
pub fn norm2(x: u128, e: i64, st: bool, lo: u128) -> (r: (u128, i64, bool))
    requires
        1 <= lo,
        (lo as nat) <= pow2(125),
        exp_in_range(e as int),
    ensures
        r.0 as nat == spec_norm2(x as nat, e as int, st, lo as nat).0,
        r.1 as int == spec_norm2(x as nat, e as int, st, lo as nat).1,
        r.2 == spec_norm2(x as nat, e as int, st, lo as nat).2,
        (x as nat) < 8 * (lo as nat) ==> (r.0 as nat) < 2 * (lo as nat),
        x >= lo ==> r.0 >= lo,
        x < lo ==> r == (x, e, st),
        e <= r.1 <= e + 2,
{
    proof {
        lemma_pow2_le_127(126);
        lemma_pow2_unfold(126);
        lemma_pow2_le(125, 126);
    }
    let (x1, e1, s1): (u128, i64, bool) = if x >= lo * 2 {
        (x / 2, e + 1, st || x % 2 == 1)
    } else {
        (x, e, st)
    };
    if x1 >= lo * 2 {
        (x1 / 2, e1 + 1, s1 || x1 % 2 == 1)
    } else {
        (x1, e1, s1)
    }
}

/// Left-normalizes an exact value up toward the window floor, never
/// shifting the exponent below `emin`.
pub fn norm_left(x0: u128, e0: i64, lo: u128, emin: i64) -> (r: (u128, i64))
    requires
        1 <= lo,
        (lo as nat) <= pow2(125),
        (x0 as nat) < 2 * (lo as nat),
        emin <= e0,
        exp_in_range(e0 as int),
        exp_in_range(emin as int),
    ensures
        r.0 as nat == spec_norm_left(x0 as nat, e0 as int, lo as nat, emin as int).0,
        r.1 as int == spec_norm_left(x0 as nat, e0 as int, lo as nat, emin as int).1,
        emin <= r.1 <= e0,
        (r.0 as nat) < 2 * (lo as nat),
        r.0 >= lo || r.1 == emin,
{
    proof {
        lemma_pow2_le_127(125);
    }
    let mut x = x0;
    let mut e = e0;
    while x < lo && e > emin
        invariant
            (x as nat) < 2 * (lo as nat),
            1 <= lo,
            (lo as nat) <= pow2(125),
            emin <= e <= e0,
            exp_in_range(e0 as int),
            exp_in_range(emin as int),
            spec_norm_left(x as nat, e as int, lo as nat, emin as int) == spec_norm_left(
                x0 as nat,
                e0 as int,
                lo as nat,
                emin as int,
            ),
        decreases e - emin,
    {
        proof {
            lemma_pow2_le_127(126);
            lemma_pow2_unfold(126);
            lemma_pow2_le(125, 126);
        }
        x = x * 2;
        e = e - 1;
    }
    (x, e)
}

/// Normalizes a nonzero significand into `[2^sw, 2^(sw+1))` by exact left
/// shifts, compensating in the exponent.
pub fn norm_sig(sig0: u128, e0: i64, p: Precision) -> (r: (u128, i64))
    requires
        1 <= sig0,
        (sig0 as nat) < pow2((sig_width(p) + 1) as nat),
        -500000 <= e0 <= 500000,
    ensures
        r.0 as nat == spec_norm_sig(sig0 as nat, e0 as int, p).0,
        r.1 as int == spec_norm_sig(sig0 as nat, e0 as int, p).1,
        pow2(sig_width(p)) <= r.0 as nat,
        (r.0 as nat) < pow2((sig_width(p) + 1) as nat),
        e0 - 113 <= r.1 <= e0,
{
    proof {
        lemma_format_ranges(p);
        lemma_pow2_le_127((sig_width(p) + 1) as nat);
        lemma_pow2_pos(sig_width(p));
        vstd::arithmetic::power2::lemma2_to64();
        assert(sig0 as nat == sig0 as nat * pow2(((e0 - e0)) as nat)) by (nonlinear_arith)
            requires
                pow2(0) == 1,
        ;
    }
    let pr = crate::params::format_params(p);
    let psw = crate::params::pow2x(pr.sw);
    let mut sig = sig0;
    let mut e = e0;
    while sig < psw
        invariant
            psw == pow2(sig_width(p)),
            1 <= sig,
            (sig as nat) < pow2((sig_width(p) + 1) as nat),
            e <= e0,
            e0 - 113 <= e,
            -500000 <= e0 <= 500000,
            sig as nat == sig0 as nat * pow2((e0 - e) as nat),
            sig0 >= 1,
            spec_norm_sig(sig as nat, e as int, p) == spec_norm_sig(sig0 as nat, e0 as int, p),
        decreases pow2((sig_width(p) + 1) as nat) - sig,
    {
        proof {
            lemma_format_ranges(p);
            lemma_pow2_le_127((sig_width(p) + 1) as nat);
            lemma_pow2_unfold((sig_width(p) + 1) as nat);
            lemma_mul_inequality(1, sig0 as int, pow2((e0 - e) as nat) as int);
            assert(pow2((e0 - e) as nat) <= sig as nat) by (nonlinear_arith)
                requires
                    sig as nat == sig0 as nat * pow2((e0 - e) as nat),
                    sig0 >= 1,
                    pow2((e0 - e) as nat) >= 0,
            ;
            if e0 - e + 1 > 113 {
                lemma_pow2_le(sig_width(p) + 1, (e0 - e) as nat);
                assert(false);
            }
            lemma_pow2_unfold((e0 - e + 1) as nat);
            assert(2 * (sig0 as nat * pow2((e0 - e) as nat)) == sig0 as nat * pow2(
                (e0 - e + 1) as nat,
            )) by (nonlinear_arith)
                requires
                    pow2((e0 - e + 1) as nat) == 2 * pow2((e0 - e) as nat),
            ;
        }
        sig = sig * 2;
        e = e - 1;
    }
    (sig, e)
}

} // verus!
