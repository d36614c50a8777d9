//! A software implementation of IEEE-754 binary floating-point arithmetic:
//! addition, multiplication and division over the half, single, double and
//! quad interchange formats, under the five standard rounding modes, with
//! exception flags. Every operation is specified down to the result bit
//! pattern and verified against that specification.
pub mod params;
pub mod codec;
pub mod arith;
pub mod rounding;
pub mod ops;
pub mod laws;
