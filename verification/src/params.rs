//! Per-format constants for the four IEEE binary interchange formats, and
//! small power-of-two helpers shared by the rest of the engine.
use vstd::prelude::*;
use vstd::arithmetic::power2::{pow2, lemma_pow2_unfold, lemma_pow2_adds, lemma_pow2_strictly_increases, lemma_pow2_pos, lemma2_to64};

verus! {

/// One of the four supported binary floating-point formats.
#[derive(Clone, Copy, PartialEq, Eq, Structural, Debug)]
pub enum Precision {
    Half,
    Single,
    Double,
    Quad,
}

/// Width in bits of the stored significand field (without the implicit bit).
pub open spec fn sig_width(p: Precision) -> nat {
    match p {
        Precision::Half => 10,
        Precision::Single => 23,
        Precision::Double => 52,
        Precision::Quad => 112,
    }
}

/// Width in bits of the biased-exponent field.
pub open spec fn exp_width(p: Precision) -> nat {
    match p {
        Precision::Half => 5,
        Precision::Single => 8,
        Precision::Double => 11,
        Precision::Quad => 15,
    }
}

/// Total width of the format in bits: sign + exponent + significand.
pub open spec fn width(p: Precision) -> nat {
    sig_width(p) + exp_width(p) + 1
}

/// Exponent bias of the format.
pub open spec fn bias(p: Precision) -> nat {
    (pow2((exp_width(p) - 1) as nat) - 1) as nat
}

/// The all-ones biased exponent, reserved for infinities and NaNs.
pub open spec fn bexp_all_ones(p: Precision) -> nat {
    (pow2(exp_width(p)) - 1) as nat
}

/// Smallest unbiased exponent of a normal or subnormal value.
pub open spec fn min_exp(p: Precision) -> int {
    1 - bias(p)
}

/// Largest unbiased exponent of a normal value.
pub open spec fn max_exp(p: Precision) -> int {
    bias(p) as int
}

/// Exponent bound used in `requires` clauses: every exponent the engine
/// manipulates stays well inside this range.
pub open spec fn exp_in_range(e: int) -> bool {
    -1000000 <= e <= 1000000
}

/// Runtime copy of the per-format constants.
pub struct FormatParams {
    pub sw: u64,
    pub ew: u64,
    pub w: u64,
    pub bias_v: i64,
    pub bexp_all: u64,
}

pub open spec fn params_ok(r: FormatParams, p: Precision) -> bool {
    &&& r.sw == sig_width(p)
    &&& r.ew == exp_width(p)
    &&& r.w == width(p)
    &&& r.bias_v == bias(p)
    &&& r.bexp_all == bexp_all_ones(p)
}

/// Parameter table lookup: the only place the format constants are written.
pub fn format_params(p: Precision) -> (r: FormatParams)
    ensures
        params_ok(r, p),
{
    proof {
        lemma2_to64();
    }
    match p {
        Precision::Half => FormatParams { sw: 10, ew: 5, w: 16, bias_v: 15, bexp_all: 31 },
        Precision::Single => FormatParams { sw: 23, ew: 8, w: 32, bias_v: 127, bexp_all: 255 },
        Precision::Double => FormatParams { sw: 52, ew: 11, w: 64, bias_v: 1023, bexp_all: 2047 },
        Precision::Quad => FormatParams { sw: 112, ew: 15, w: 128, bias_v: 16383, bexp_all: 32767 },
    }
}

/// Every power of two up to `pow2(127)` fits in a `u128`.
pub proof fn lemma_pow2_le_127(k: nat)
    requires
        k <= 127,
    ensures
        pow2(k) <= 0x8000_0000_0000_0000_0000_0000_0000_0000,
        pow2(127) == 0x8000_0000_0000_0000_0000_0000_0000_0000,
{
    lemma2_to64();
    vstd::arithmetic::power2::lemma2_to64_rest();
    lemma_pow2_adds(64, 63);
    if k < 127 {
        lemma_pow2_strictly_increases(k, 127);
    }
}

/// Monotonicity of `pow2` in non-strict form.
pub proof fn lemma_pow2_le(a: nat, b: nat)
    requires
        a <= b,
    ensures
        pow2(a) <= pow2(b),
{
    if a < b {
        lemma_pow2_strictly_increases(a, b);
    }
}

/// Concrete bounds on the format constants, for all four formats at once.
pub proof fn lemma_format_ranges(p: Precision)
    ensures
        10 <= sig_width(p) <= 112,
        5 <= exp_width(p) <= 15,
        width(p) <= 128,
        15 <= bias(p) <= 16383,
        bexp_all_ones(p) == 2 * bias(p) + 1,
        bexp_all_ones(p) <= 32767,
        pow2(exp_width(p)) == bexp_all_ones(p) + 1,
        min_exp(p) == 1 - bias(p),
        max_exp(p) == bias(p) as int,
{
    lemma2_to64();
}

/// Computes `pow2(k)` at runtime.
pub fn pow2x(k: u64) -> (r: u128)
    requires
        k < 128,
    ensures
        r == pow2(k as nat),
        r >= 1,
{
    proof {
        lemma_pow2_pos(k as nat);
    }
    let mut i: u64 = 0;
    let mut acc: u128 = 1;
    proof {
        lemma2_to64();
    }
    while i < k
        invariant
            i <= k,
            k < 128,
            acc == pow2(i as nat),
        decreases k - i,
    {
        proof {
            lemma_pow2_unfold((i + 1) as nat);
            lemma_pow2_le_127((i + 1) as nat);
        }
        acc = acc * 2;
        i = i + 1;
    }
    acc
}

} // verus!
