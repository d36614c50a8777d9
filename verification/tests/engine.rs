use softfp::codec::Class;
use softfp::ops;
use softfp::params::Precision;
use softfp::rounding::{Flags, RoundingMode};

const RNE: RoundingMode = RoundingMode::NearestTiesToEven;
const RNA: RoundingMode = RoundingMode::NearestTiesAway;
const RTZ: RoundingMode = RoundingMode::TowardZero;
const RTP: RoundingMode = RoundingMode::TowardPositive;
const RTN: RoundingMode = RoundingMode::TowardNegative;

fn no_flags() -> Flags {
    Flags { invalid: false, divide_by_zero: false, overflow: false, underflow: false, inexact: false }
}

#[test]
fn half_add_vector() {
    let (r, f) = ops::add(0x1234, 0x7654, Precision::Half, RNE);
    assert_eq!(r, 30292);
    assert!(f.inexact);
    assert!(!f.overflow && !f.invalid && !f.divide_by_zero);
}

#[test]
fn half_mul_vector() {
    let (r, _) = ops::multiply(0x1234, 0x7654, Precision::Half, RNE);
    assert_eq!(r, 19688);
}

#[test]
fn half_div_vector_overflows() {
    let (r, f) = ops::divide(0x7654, 0x1234, Precision::Half, RNE);
    assert_eq!(r, 31744);
    assert!(f.overflow && f.inexact);
}

#[test]
fn single_add_vector() {
    let (r, _) = ops::add(0x12345667, 0x76543210, Precision::Single, RNE);
    assert_eq!(r, 1985229328);
}

#[test]
fn single_mul_vector() {
    let (r, _) = ops::multiply(0x12345667, 0x76543210, Precision::Single, RNE);
    assert_eq!(r, 1226144465);
}

#[test]
fn single_div_vector_overflows() {
    let (r, _) = ops::divide(0x76543210, 0x12345667, Precision::Single, RNE);
    assert_eq!(r, 2139095040);
}

#[test]
fn double_add_vector() {
    let (r, _) = ops::add(0x12345667ffffffff, 0x76543210aaaaaaaa, Precision::Double, RNE);
    assert_eq!(r, 8526495041683368618);
}

#[test]
fn double_mul_vector() {
    let (r, _) = ops::multiply(0x12345667ffffffff, 0x76543210aaaaaaaa, Precision::Double, RNE);
    assert_eq!(r, 5231401168203612158);
}

#[test]
fn double_div_vector_overflows() {
    let (r, _) = ops::divide(0x76543210aaaaaaaa, 0x12345667ffffffff, Precision::Double, RNE);
    assert_eq!(r, 9218868437227405312);
}

#[test]
fn quad_add_vector() {
    let a = 0x12345667ffffffffccccccccccccccccu128;
    let b = 0x76543210aaaaaaaaccccccccccccccccu128;
    let (r, _) = ops::add(a, b, Precision::Quad, RNE);
    assert_eq!(r, 157286071879686556347165517936193227980u128);
}

#[test]
fn quad_mul_vector() {
    let a = 0x12345667ffffffffccccccccccccccccu128;
    let b = 0x76543210aaaaaaaaccccccccccccccccu128;
    let (r, _) = ops::multiply(a, b, Precision::Quad, RNE);
    assert_eq!(r, 96418871070149102153708677870054030703u128);
}

#[test]
fn quad_div_vector() {
    let a = 0x76543210aaaaaaaaccccccccccccccccu128;
    let b = 0x12345667ffffffffccccccccccccccccu128;
    let (r, _) = ops::divide(a, b, Precision::Quad, RNE);
    assert_eq!(r, 170135991163610696904058773219554885632u128);
}

#[test]
fn divide_by_zero_positive() {
    let (r, f) = ops::divide(0x3C00, 0x0000, Precision::Half, RNE);
    assert_eq!(r, 0x7C00);
    assert!(f.divide_by_zero);
    assert!(!f.invalid && !f.inexact && !f.overflow && !f.underflow);
}

#[test]
fn divide_by_zero_negative() {
    let (r, f) = ops::divide(0xBC00, 0x0000, Precision::Half, RNE);
    assert_eq!(r, 0xFC00);
    assert!(f.divide_by_zero);
}

#[test]
fn invalid_inf_minus_inf() {
    let (r, f) = ops::add(0x7C00, 0xFC00, Precision::Half, RNE);
    assert_eq!(r, 0x7E00);
    assert!(f.invalid);
    assert!(!f.divide_by_zero && !f.overflow && !f.underflow && !f.inexact);
}

#[test]
fn invalid_zero_div_zero() {
    let (r, f) = ops::divide(0x0000, 0x8000, Precision::Half, RNE);
    assert_eq!(r, 0x7E00);
    assert!(f.invalid);
}

#[test]
fn invalid_inf_times_zero() {
    let (r, f) = ops::multiply(0x7C00, 0x8000, Precision::Half, RNE);
    assert_eq!(r, 0x7E00);
    assert!(f.invalid);
}

#[test]
fn subnormal_double_smallest() {
    let (r, f) = ops::add(0x0001, 0x0001, Precision::Half, RNE);
    assert_eq!(r, 0x0002);
    assert_eq!(f, no_flags());
}

#[test]
fn subnormal_to_normal_boundary() {
    let (r, f) = ops::add(0x03FF, 0x0001, Precision::Half, RNE);
    assert_eq!(r, 0x0400);
    assert_eq!(f, no_flags());
}

#[test]
fn rounding_mode_divergence() {
    // 1.0 plus an exact half-ulp: guard=1, round=0, sticky=0
    let a: u128 = 0x3C00;
    let b: u128 = 0x1000;
    assert_eq!(ops::add(a, b, Precision::Half, RNE).0, 0x3C00);
    assert_eq!(ops::add(a, b, Precision::Half, RNA).0, 0x3C01);
    assert_eq!(ops::add(a, b, Precision::Half, RTP).0, 0x3C01);
    assert_eq!(ops::add(a, b, Precision::Half, RTZ).0, 0x3C00);
    assert_eq!(ops::add(a, b, Precision::Half, RTN).0, 0x3C00);
}

#[test]
fn ties_to_even_rounds_to_odd_neighbour_when_above_half() {
    // 1.0 + (2^-11 + 2^-24): strictly above the tie, must round up
    let (r, _) = ops::add(0x3C00, 0x1001, Precision::Half, RNE);
    assert_eq!(r, 0x3C01);
}

#[test]
fn underflow_flag_set_on_inexact_tiny_quotient() {
    let (r, f) = ops::divide(0x0001, 0x4000, Precision::Half, RNE);
    assert_eq!(r, 0x0000);
    assert!(f.underflow && f.inexact);
}

#[test]
fn exact_subnormal_product_raises_nothing() {
    // smallest normal times one half is an exact subnormal
    let (r, f) = ops::multiply(0x0400, 0x3800, Precision::Half, RNE);
    assert_eq!(r, 0x0200);
    assert_eq!(f, no_flags());
}

#[test]
fn overflow_toward_zero_saturates_to_max_finite() {
    let (r, f) = ops::multiply(0x7BFF, 0x7BFF, Precision::Half, RTZ);
    assert_eq!(r, 0x7BFF);
    assert!(f.overflow && f.inexact);
}

#[test]
fn overflow_toward_negative_keeps_negative_infinity() {
    let (r, f) = ops::multiply(0xFBFF, 0x7BFF, Precision::Half, RTN);
    assert_eq!(r, 0xFC00);
    assert!(f.overflow);
}

#[test]
fn add_zero_identity() {
    assert_eq!(ops::add(0x1234, 0x0000, Precision::Half, RNE).0, 0x1234);
    assert_eq!(ops::add(0x8000, 0x1234, Precision::Half, RNE).0, 0x1234);
}

#[test]
fn zero_plus_zero_signs() {
    assert_eq!(ops::add(0x0000, 0x8000, Precision::Half, RNE).0, 0x0000);
    assert_eq!(ops::add(0x0000, 0x8000, Precision::Half, RTN).0, 0x8000);
    assert_eq!(ops::add(0x8000, 0x8000, Precision::Half, RNE).0, 0x8000);
}

#[test]
fn nan_propagation_quiet() {
    let (r, f) = ops::add(0x7E35, 0x3C00, Precision::Half, RNE);
    assert_eq!(r, 0x7E35);
    assert!(!f.invalid);
}

#[test]
fn nan_propagation_signaling_is_quieted() {
    let (r, f) = ops::add(0x7C01, 0x3C00, Precision::Half, RNE);
    assert_eq!(r, 0x7E01);
    assert!(f.invalid);
}

#[test]
fn nan_propagation_prefers_first_signaling() {
    let (r, f) = ops::multiply(0x7E35, 0xFC02, Precision::Half, RNE);
    // the second operand is the first signaling one: its quieted payload wins
    assert_eq!(r, 0xFE02);
    assert!(f.invalid);
    // a lone signaling first operand is quieted in place
    let (r2, f2) = ops::add(0x7D00, 0x3C00, Precision::Half, RNE);
    assert_eq!(r2, 0x7F00);
    assert!(f2.invalid);
}

#[test]
fn mul_sign_is_xor_of_signs() {
    for mode in [RNE, RNA, RTZ, RTP, RTN] {
        assert_eq!(ops::multiply(0xBC00, 0x3C00, Precision::Half, mode).0, 0xBC00);
        assert_eq!(ops::multiply(0xBC00, 0xBC00, Precision::Half, mode).0, 0x3C00);
        assert_eq!(ops::multiply(0x3C00, 0xBC00, Precision::Half, mode).0, 0xBC00);
    }
}

#[test]
fn add_commutes_on_sample_pairs() {
    let pairs: [(u128, u128); 4] = [
        (0x1234, 0x7654),
        (0x0001, 0x03FF),
        (0xBC00, 0x3C01),
        (0x0400, 0x8400),
    ];
    for (a, b) in pairs {
        for mode in [RNE, RNA, RTZ, RTP, RTN] {
            assert_eq!(
                ops::add(a, b, Precision::Half, mode),
                ops::add(b, a, Precision::Half, mode)
            );
        }
    }
}

#[test]
fn mul_commutes_on_sample_pairs() {
    let pairs: [(u128, u128); 3] = [(0x1234, 0x7654), (0x0001, 0x7BFF), (0xBC00, 0x0002)];
    for (a, b) in pairs {
        for mode in [RNE, RNA, RTZ, RTP, RTN] {
            assert_eq!(
                ops::multiply(a, b, Precision::Half, mode),
                ops::multiply(b, a, Precision::Half, mode)
            );
        }
    }
}

#[test]
fn add_negate_gives_signed_zero() {
    for a in [0x1234u128, 0x0001, 0x7BFF, 0x8400] {
        let na = ops::negate(a, Precision::Half);
        assert_eq!(ops::add(a, na, Precision::Half, RNE).0, 0x0000);
        assert_eq!(ops::add(a, na, Precision::Half, RTN).0, 0x8000);
    }
}

#[test]
fn double_precision_exact_sum() {
    // 1.0 + 1.0 == 2.0 in double
    let one: u128 = 0x3FF0000000000000;
    let two: u128 = 0x4000000000000000;
    let (r, f) = ops::add(one, one, Precision::Double, RNE);
    assert_eq!(r, two);
    assert_eq!(f, no_flags());
}

#[test]
fn double_precision_exact_quotient() {
    // 1.0 / 2.0 == 0.5 in double, exact
    let one: u128 = 0x3FF0000000000000;
    let two: u128 = 0x4000000000000000;
    let half: u128 = 0x3FE0000000000000;
    let (r, f) = ops::divide(one, two, Precision::Double, RNE);
    assert_eq!(r, half);
    assert_eq!(f, no_flags());
    let (r2, f2) = ops::multiply(two, half, Precision::Double, RNE);
    assert_eq!(r2, one);
    assert_eq!(f2, no_flags());
}

#[test]
fn single_inexact_third() {
    // 1.0 / 3.0 in single precision: the classic non-terminating quotient
    let one: u128 = 0x3F800000;
    let three: u128 = 0x40400000;
    let (r, f) = ops::divide(one, three, Precision::Single, RNE);
    assert_eq!(r, 0x3EAAAAAB);
    assert!(f.inexact);
}

#[test]
fn add_negate_sweep_half() {
    for bits in 0..=0xFFFFu32 {
        let a = bits as u128;
        let c = ops::decode_classify(a, Precision::Half);
        if matches!(c, Class::Subnormal | Class::Normal) {
            let na = ops::negate(a, Precision::Half);
            assert_eq!(ops::add(a, na, Precision::Half, RNE).0, 0x0000);
            assert_eq!(ops::add(a, na, Precision::Half, RTN).0, 0x8000);
        }
    }
}

#[test]
fn add_commutes_sweep_half() {
    // commutativity holds for finite operands; NaN payload propagation is
    // deliberately order-dependent
    let finite = |x: u128| {
        matches!(
            ops::decode_classify(x, Precision::Half),
            Class::Zero | Class::Subnormal | Class::Normal
        )
    };
    let mut a: u128 = 0;
    while a < 0x10000 {
        let mut b: u128 = 3;
        while b < 0x10000 {
            if finite(a) && finite(b) {
                assert_eq!(
                    ops::add(a, b, Precision::Half, RNE),
                    ops::add(b, a, Precision::Half, RNE)
                );
            }
            b += 509;
        }
        a += 257;
    }
}
