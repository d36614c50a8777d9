//! General laws of the engine, stated over the specification functions
//! that the executable operations are proved to compute. Together with
//! the operations' own contracts they transfer to the executable results.
use vstd::prelude::*;
use vstd::arithmetic::power2::{pow2, lemma_pow2_adds, lemma_pow2_pos, lemma2_to64};
use vstd::arithmetic::div_mod::{lemma_div_is_ordered, lemma_div_multiples_vanish, lemma_multiply_divide_lt};
use vstd::arithmetic::mul::lemma_mul_inequality;
use crate::params::{Precision, sig_width, lemma_format_ranges};
use crate::codec::{
    Class, fits, spec_sign, spec_bexp, spec_frac, spec_class, spec_sig, spec_exp, is_finite,
    is_zero, spec_assemble, lemma_assemble_fields, lemma_split,
};
use crate::rounding::{RoundingMode, no_flags, round_input_ok, lemma_round_pack_fields};
use crate::arith::{
    spec_norm2, spec_norm_sig, spec_mul_ext, lemma_norm2_window, lemma_norm_sig_bounds,
};
use crate::ops::{
    spec_add, spec_add_core, spec_mul, spec_mul_core, spec_negate, spec_zero_bits,
    lemma_finite_shape,
};

verus! {

broadcast use vstd::arithmetic::mul::lemma_mul_is_commutative;

/// Two finite nonzero patterns with the same sign, exponent and
/// significand are the same pattern: the decoded view determines the
/// bits.
proof fn lemma_finite_eq(a: nat, b: nat, p: Precision)
    requires
        fits(a, p),
        fits(b, p),
        is_finite(a, p),
        is_finite(b, p),
        !is_zero(a, p),
        !is_zero(b, p),
        spec_sign(a, p) == spec_sign(b, p),
        spec_exp(a, p) == spec_exp(b, p),
        spec_sig(a, p) == spec_sig(b, p),
    ensures
        a == b,
{
    lemma_split(a, p);
    lemma_split(b, p);
    lemma_format_ranges(p);
    lemma_pow2_pos(sig_width(p));
    if spec_class(a, p) == Class::Normal {
        assert(spec_sig(a, p) >= pow2(sig_width(p)));
        assert(spec_class(b, p) == Class::Normal);
        assert(spec_bexp(a, p) == spec_bexp(b, p));
        assert(spec_frac(a, p) == spec_frac(b, p));
    } else {
        assert(spec_class(a, p) == Class::Subnormal);
        assert(spec_sig(a, p) < pow2(sig_width(p)));
        assert(spec_class(b, p) == Class::Subnormal);
        assert(spec_bexp(a, p) == 0 && spec_bexp(b, p) == 0);
        assert(spec_frac(a, p) == spec_frac(b, p));
    }
}

/// Addition is commutative on finite operands, in every format and
/// rounding mode.
#[verifier::rlimit(100)]
pub proof fn lemma_add_commutes(a: nat, b: nat, p: Precision, mode: RoundingMode)
    requires
        fits(a, p),
        fits(b, p),
        is_finite(a, p),
        is_finite(b, p),
    ensures
        spec_add(a, b, p, mode) == spec_add(b, a, p, mode),
{
    if is_zero(a, p) && is_zero(b, p) {
        lemma_split(a, p);
        lemma_split(b, p);
        if spec_sign(a, p) == spec_sign(b, p) {
            assert(a == b);
        }
    } else if !is_zero(a, p) && !is_zero(b, p) {
        let swap = spec_exp(b, p) > spec_exp(a, p) || (spec_exp(b, p) == spec_exp(a, p)
            && spec_sig(b, p) > spec_sig(a, p));
        if !swap && !(spec_exp(a, p) > spec_exp(b, p) || (spec_exp(a, p) == spec_exp(b, p)
            && spec_sig(a, p) > spec_sig(b, p))) {
            // equal keys: either the same operand, or exact cancellation
            assert(spec_exp(a, p) == spec_exp(b, p) && spec_sig(a, p) == spec_sig(b, p));
            if spec_sign(a, p) == spec_sign(b, p) {
                lemma_finite_eq(a, b, p);
            } else {
                assert(spec_add_core(a, b, p, mode) == (
                    spec_zero_bits(mode == RoundingMode::TowardNegative, p),
                    no_flags(),
                ));
                assert(spec_add_core(b, a, p, mode) == (
                    spec_zero_bits(mode == RoundingMode::TowardNegative, p),
                    no_flags(),
                ));
            }
        }
    }
}

/// Adding a finite nonzero value to its own negation yields positive
/// zero, except under rounding toward negative, where it yields negative
/// zero.
#[verifier::rlimit(100)]
pub proof fn lemma_add_negate(a: nat, p: Precision, mode: RoundingMode)
    requires
        fits(a, p),
        is_finite(a, p),
        !is_zero(a, p),
    ensures
        spec_add(a, spec_negate(a, p), p, mode) == (
            spec_zero_bits(mode == RoundingMode::TowardNegative, p),
            no_flags(),
        ),
{
    lemma_negate_fields(a, p);
    let b = spec_negate(a, p);
    assert(spec_exp(b, p) == spec_exp(a, p) && spec_sig(b, p) == spec_sig(a, p));
    assert(spec_sign(b, p) != spec_sign(a, p));
    assert(spec_add_core(a, b, p, mode) == (
        spec_zero_bits(mode == RoundingMode::TowardNegative, p),
        no_flags(),
    ));
}

/// Negation flips only the sign bit: classification, exponent and
/// significand are untouched, and the result still fits.
pub proof fn lemma_negate_fields(bits: nat, p: Precision)
    requires
        fits(bits, p),
    ensures
        fits(spec_negate(bits, p), p),
        spec_sign(spec_negate(bits, p), p) == !spec_sign(bits, p),
        spec_bexp(spec_negate(bits, p), p) == spec_bexp(bits, p),
        spec_frac(spec_negate(bits, p), p) == spec_frac(bits, p),
        spec_class(spec_negate(bits, p), p) == spec_class(bits, p),
        spec_sig(spec_negate(bits, p), p) == spec_sig(bits, p),
        spec_exp(spec_negate(bits, p), p) == spec_exp(bits, p),
{
    lemma_split(bits, p);
    let s = spec_sign(bits, p);
    let be = spec_bexp(bits, p);
    let f = spec_frac(bits, p);
    assert(spec_negate(bits, p) == spec_assemble(!s, be, f, p));
    lemma_assemble_fields(!s, be, f, p);
}

/// Multiplication is commutative on finite operands, in every format and
/// rounding mode.
#[verifier::rlimit(100)]
pub proof fn lemma_mul_commutes(a: nat, b: nat, p: Precision, mode: RoundingMode)
    requires
        fits(a, p),
        fits(b, p),
        is_finite(a, p),
        is_finite(b, p),
    ensures
        spec_mul(a, b, p, mode) == spec_mul(b, a, p, mode),
{
    if !is_zero(a, p) && !is_zero(b, p) {
        let na = spec_norm_sig(spec_sig(a, p), spec_exp(a, p), p);
        let nb = spec_norm_sig(spec_sig(b, p), spec_exp(b, p), p);
        assert((na.0 * 8) * nb.0 == (nb.0 * 8) * na.0) by (nonlinear_arith);
        assert(spec_mul_ext(na.0 * 8, nb.0, (sig_width(p) + 1) as nat) == spec_mul_ext(
            nb.0 * 8,
            na.0,
            (sig_width(p) + 1) as nat,
        ));
        assert(spec_mul_core(a, b, p, mode) == spec_mul_core(b, a, p, mode));
    }
}

/// The sign bit of a finite nonzero product is the XOR of the operand
/// sign bits, in every format and rounding mode — also when the product
/// overflows to infinity or underflows to zero.
#[verifier::rlimit(100)]
pub proof fn lemma_mul_sign(a: nat, b: nat, p: Precision, mode: RoundingMode)
    requires
        fits(a, p),
        fits(b, p),
        is_finite(a, p),
        is_finite(b, p),
        !is_zero(a, p),
        !is_zero(b, p),
    ensures
        spec_sign(spec_mul(a, b, p, mode).0, p) == (spec_sign(a, p) != spec_sign(b, p)),
{
    lemma_format_ranges(p);
    lemma2_to64();
    lemma_pow2_adds(3, (sig_width(p) + 1) as nat);
    lemma_pow2_adds(sig_width(p), sig_width(p));
    lemma_pow2_adds(3, (2 * sig_width(p)) as nat);
    lemma_pow2_adds((sig_width(p) + 2) as nat, (sig_width(p) + 1) as nat);
    lemma_pow2_adds((sig_width(p) + 1) as nat, (sig_width(p) + 1) as nat);
    lemma_pow2_adds(3, (2 * sig_width(p) + 2) as nat);
    lemma_pow2_adds(1, (sig_width(p) + 2) as nat);
    lemma_pow2_adds((sig_width(p) + 4) as nat, (sig_width(p) + 1) as nat);
    lemma_pow2_pos(sig_width(p));
    lemma_pow2_pos((sig_width(p) + 1) as nat);
    lemma_pow2_pos((sig_width(p) + 2) as nat);
    lemma_finite_shape(a, p);
    lemma_finite_shape(b, p);
    let sw = sig_width(p);
    let s = spec_sign(a, p) != spec_sign(b, p);
    let na = spec_norm_sig(spec_sig(a, p), spec_exp(a, p), p);
    let nb = spec_norm_sig(spec_sig(b, p), spec_exp(b, p), p);
    lemma_norm_sig_bounds(spec_sig(a, p), spec_exp(a, p), p);
    lemma_norm_sig_bounds(spec_sig(b, p), spec_exp(b, p), p);
    let pr = spec_mul_ext(na.0 * 8, nb.0, (sw + 1) as nat);
    let prod = (na.0 * 8) * nb.0;
    assert(prod >= 8 * (pow2(sig_width(p)) * pow2(sig_width(p)))) by (nonlinear_arith)
        requires
            na.0 >= pow2(sig_width(p)),
            nb.0 >= pow2(sig_width(p)),
            prod == (na.0 * 8) * nb.0,
    ;
    assert(8 * (pow2(sw) * pow2(sw)) == pow2((sw + 2) as nat) * pow2((sw + 1) as nat));
    lemma_div_is_ordered(
        (pow2((sw + 2) as nat) * pow2((sw + 1) as nat)) as int,
        prod as int,
        pow2((sw + 1) as nat) as int,
    );
    lemma_div_multiples_vanish(pow2((sw + 2) as nat) as int, pow2((sw + 1) as nat) as int);
    assert(pr.0 >= pow2((sw + 2) as nat));
    assert(prod < 8 * (pow2((sig_width(p) + 1) as nat) * pow2((sig_width(p) + 1) as nat)))
        by (nonlinear_arith)
        requires
            na.0 < pow2((sig_width(p) + 1) as nat),
            nb.0 < pow2((sig_width(p) + 1) as nat),
            nb.0 >= 1,
            na.0 >= 1,
            prod == (na.0 * 8) * nb.0,
    ;
    assert(8 * (pow2((sw + 1) as nat) * pow2((sw + 1) as nat)) == pow2((sw + 4) as nat) * pow2(
        (sw + 1) as nat,
    ));
    lemma_multiply_divide_lt(prod as int, pow2((sw + 1) as nat) as int, pow2((sw + 4) as nat) as int);
    assert(pr.0 < pow2((sw + 4) as nat));
    let lo = pow2((sw + 2) as nat);
    lemma_norm2_window(pr.0, na.1 + nb.1, pr.1, lo);
    let n = spec_norm2(pr.0, na.1 + nb.1, pr.1, lo);
    assert(pow2((sw + 4) as nat) <= 8 * lo) by {
        lemma_pow2_adds(2, (sw + 2) as nat);
        lemma_mul_inequality(pow2(2) as int, 8, lo as int);
    }
    assert(2 * lo == pow2((sw + 3) as nat));
    assert(round_input_ok(n.1, n.0, p));
    lemma_round_pack_fields(s, n.1, n.0, n.2, p, mode);
}

} // verus!
