//! Point numbers, scores and scored points.

use crate::ranking::Prioritized;
use vstd::arithmetic::power2::pow2;
use vstd::prelude::*;

verus! {

/// Number of a point in the index.
pub type PointOffsetType = u32;

/// Similarity of two points, as an integer that is ordered like the similarity
/// itself. [`score_from_bits`] gives the score of a 32-bit float.
pub type ScoreType = i32;

/// A point together with its score.
#[derive(Clone, Copy, Debug, PartialEq, Eq, Structural)]
pub struct ScoredPointOffset {
    pub idx: PointOffsetType,
    pub score: ScoreType,
}

impl Prioritized for ScoredPointOffset {
    open spec fn priority(self) -> int {
        self.score as int
    }

    fn outranks(&self, other: &Self) -> (r: bool) {
        self.score > other.score
    }
}

/// The bits of a 32-bit float without its sign bit.
pub open spec fn float_magnitude(bits: u32) -> int {
    if bits < 0x8000_0000 {
        bits as int
    } else {
        bits - 0x8000_0000
    }
}

/// Whether the bits are those of a 32-bit float that is not a number: all eight
/// exponent bits set, and a fraction other than zero.
pub open spec fn float_is_nan(bits: u32) -> bool {
    float_magnitude(bits) > 0x7f80_0000
}

/// Absolute value of the float with this magnitude, in units of two to the power
/// of -149 (the smallest positive 32-bit float). Infinity counts as the first
/// value beyond the largest finite one.
pub open spec fn float_units(magnitude: int) -> int {
    let exponent = magnitude / 0x80_0000;
    let fraction = magnitude % 0x80_0000;
    if exponent == 0 {
        fraction
    } else {
        (0x80_0000 + fraction) * pow2((exponent - 1) as nat)
    }
}

/// Value of the float with these bits, in the units of [`float_units`].
pub open spec fn float_value(bits: u32) -> int {
    if bits < 0x8000_0000 {
        float_units(float_magnitude(bits))
    } else {
        -float_units(float_magnitude(bits))
    }
}

/// The score that stands for the float with these bits.
pub open spec fn float_score(bits: u32) -> int {
    if bits < 0x8000_0000 {
        float_magnitude(bits)
    } else {
        -float_magnitude(bits)
    }
}

/// Score of the 32-bit float with these bits; `None` if it is not a number.
pub fn score_from_bits(bits: u32) -> (r: Option<ScoreType>)
    ensures
        r is None <==> float_is_nan(bits),
        r matches Some(score) ==> score == float_score(bits),
{
    let negative: bool = bits >= 0x8000_0000;
    let magnitude: u32 = if negative {
        bits - 0x8000_0000
    } else {
        bits
    };
    if magnitude > 0x7f80_0000 {
        return None;
    }
    let score: i32 = magnitude as i32;
    if negative {
        Some(-score)
    } else {
        Some(score)
    }
}

proof fn lemma_float_units_step(magnitude: int)
    requires
        0 <= magnitude,
    ensures
        float_units(magnitude) < float_units(magnitude + 1),
{
    let e = magnitude / 0x80_0000;
    let f = magnitude % 0x80_0000;
    if f + 1 < 0x80_0000 {
        assert((magnitude + 1) / 0x80_0000 == e);
        assert((magnitude + 1) % 0x80_0000 == f + 1);
        if e > 0 {
            let p = pow2((e - 1) as nat) as int;
            vstd::arithmetic::power2::lemma_pow2_pos((e - 1) as nat);
            assert((0x80_0000 + f + 1) * p == (0x80_0000 + f) * p + p) by (nonlinear_arith);
        }
    } else {
        assert((magnitude + 1) / 0x80_0000 == e + 1);
        assert((magnitude + 1) % 0x80_0000 == 0);
        vstd::arithmetic::power2::lemma_pow2_pos(e as nat);
        if e > 0 {
            let p = pow2((e - 1) as nat) as int;
            vstd::arithmetic::power2::lemma_pow2_pos((e - 1) as nat);
            vstd::arithmetic::power2::lemma_pow2_unfold(e as nat);
            assert(0x80_0000 * (2 * p) == 0x100_0000 * p) by (nonlinear_arith);
            assert((0x80_0000 + f) * p == 0x100_0000 * p - p) by (nonlinear_arith)
                requires
                    f == 0x80_0000 - 1,
            ;
        } else {
            vstd::arithmetic::power2::lemma2_to64();
        }
    }
}

proof fn lemma_float_units_increase(a: int, b: int)
    requires
        0 <= a < b,
    ensures
        float_units(a) < float_units(b),
    decreases b - a,
{
    lemma_float_units_step(b - 1);
    if a < b - 1 {
        lemma_float_units_increase(a, b - 1);
    }
}

/// Scores are ordered as the floats that they stand for are: one is less than the
/// other, or equal to it, exactly when the values of the floats are.
pub proof fn law_scores_are_ordered_like_floats(a: u32, b: u32)
    requires
        !float_is_nan(a),
        !float_is_nan(b),
    ensures
        float_score(a) < float_score(b) <==> float_value(a) < float_value(b),
        float_score(a) == float_score(b) <==> float_value(a) == float_value(b),
{
    let x = float_magnitude(a);
    let y = float_magnitude(b);
    assert(float_units(0) == 0);
    if x > 0 {
        lemma_float_units_increase(0, x);
    }
    if y > 0 {
        lemma_float_units_increase(0, y);
    }
    if x < y {
        lemma_float_units_increase(x, y);
    }
    if y < x {
        lemma_float_units_increase(y, x);
    }
}

/// Bits stand for no number exactly if the eight exponent bits are all set and the fraction
/// is not zero; infinities are numbers with a score like any other.
pub proof fn law_not_a_number(bits: u32)
    ensures
        float_is_nan(bits) <==> (bits / 0x80_0000) % 0x100 == 0xff && bits % 0x80_0000 != 0,
{
    assert((bits > 0x7f80_0000 && bits < 0x8000_0000 || bits > 0xff80_0000) == ((bits / 0x80_0000)
        % 0x100 == 0xff && bits % 0x80_0000 != 0)) by (bit_vector);
}

} // verus!
