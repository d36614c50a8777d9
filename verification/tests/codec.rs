use softfp::codec::{decode, encode, Class};
use softfp::ops;
use softfp::params::Precision;

#[test]
fn roundtrip_exhaustive_half() {
    // every half-precision pattern decodes and re-encodes to itself
    for bits in 0..=0xFFFFu32 {
        let b = bits as u128;
        let v = decode(b, Precision::Half);
        assert_eq!(encode(v, Precision::Half), b);
    }
}

#[test]
fn roundtrip_sample_patterns_double() {
    let samples: [u128; 10] = [
        0x0000000000000000,
        0x8000000000000000,
        0x0000000000000001,
        0x000FFFFFFFFFFFFF,
        0x0010000000000000,
        0x3FF0000000000000,
        0x7FEFFFFFFFFFFFFF,
        0x7FF0000000000000,
        0x7FF8000000000123,
        0x7FF0000000000001,
    ];
    for b in samples {
        let v = decode(b, Precision::Double);
        assert_eq!(encode(v, Precision::Double), b);
    }
}

#[test]
fn roundtrip_sample_patterns_quad() {
    let samples: [u128; 6] = [
        0,
        1,
        0x80000000000000000000000000000000,
        0x3FFF0000000000000000000000000000,
        0x7FFF0000000000000000000000000000,
        0x7FFF8000000000000000000000000abc,
    ];
    for b in samples {
        let v = decode(b, Precision::Quad);
        assert_eq!(encode(v, Precision::Quad), b);
    }
}

#[test]
fn classify_examples() {
    let p = Precision::Half;
    assert_eq!(ops::decode_classify(0x0000, p), Class::Zero);
    assert_eq!(ops::decode_classify(0x8000, p), Class::Zero);
    assert_eq!(ops::decode_classify(0x0001, p), Class::Subnormal);
    assert_eq!(ops::decode_classify(0x03FF, p), Class::Subnormal);
    assert_eq!(ops::decode_classify(0x0400, p), Class::Normal);
    assert_eq!(ops::decode_classify(0x7BFF, p), Class::Normal);
    assert_eq!(ops::decode_classify(0x7C00, p), Class::Infinity);
    assert_eq!(ops::decode_classify(0xFC00, p), Class::Infinity);
    assert_eq!(ops::decode_classify(0x7E00, p), Class::QuietNan);
    assert_eq!(ops::decode_classify(0x7C01, p), Class::SignalingNan);
}

#[test]
fn decode_fields_of_a_normal() {
    let v = decode(0x1234, Precision::Half);
    assert!(!v.sign);
    assert_eq!(v.class, Class::Normal);
    assert_eq!(v.exponent, 4 - 15);
    assert_eq!(v.significand, 0x234 + 0x400);
}

#[test]
fn decode_fields_of_a_subnormal() {
    let v = decode(0x8003, Precision::Half);
    assert!(v.sign);
    assert_eq!(v.class, Class::Subnormal);
    assert_eq!(v.exponent, -14);
    assert_eq!(v.significand, 3);
}

#[test]
fn negate_flips_only_the_sign_bit() {
    assert_eq!(ops::negate(0x1234, Precision::Half), 0x9234);
    assert_eq!(ops::negate(0x9234, Precision::Half), 0x1234);
    assert_eq!(ops::negate(0x0000, Precision::Half), 0x8000);
    assert_eq!(
        ops::negate(0x3FF0000000000000, Precision::Double),
        0xBFF0000000000000
    );
}
