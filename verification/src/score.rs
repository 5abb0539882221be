//! Scores: 32-bit floating-point numbers, held by their place in the order of all of them.
//!
//! A number with the bit pattern `b` has the key `b` if its sign bit is clear, and the
//! key `-1 - m` for the other bits `m` if it is set. Keys are ordered as IEEE 754 orders
//! all such numbers in total: the negative NaNs, the negative numbers, -0, +0, the
//! positive numbers, the positive NaNs.

use vstd::prelude::*;

verus! {

/// A score, by its key.
#[derive(Debug, Clone, Copy, PartialEq, Eq, Structural)]
pub struct Score {
    pub key: i32,
}

/// The key of positive infinity.
pub const INFINITY_KEY: i32 = 0x7f80_0000;

/// The key of 1.
pub const ONE_KEY: i32 = 0x3f80_0000;

/// The key of a bit pattern.
pub open spec fn key_of(bits: u32) -> int {
    if bits < 0x8000_0000 {
        bits as int
    } else {
        -1 - (bits - 0x8000_0000)
    }
}

impl Score {
    /// The score of the number 1.
    pub open spec fn one() -> Score {
        Score { key: ONE_KEY }
    }

    /// The score is a number, not a NaN.
    pub open spec fn is_number(self) -> bool {
        -1 - INFINITY_KEY <= self.key <= INFINITY_KEY
    }

    /// The score is zero, of either sign.
    pub open spec fn is_zero(self) -> bool {
        self.key == 0 || self.key == -1
    }

    /// The score is a number greater than another; zeros of either sign are the same.
    pub open spec fn above(self, other: Score) -> bool {
        &&& self.is_number()
        &&& other.is_number()
        &&& self.key > other.key
        &&& !(self.is_zero() && other.is_zero())
    }

    /// The score is a number greater than another or the same.
    pub open spec fn at_least(self, other: Score) -> bool {
        &&& self.is_number()
        &&& other.is_number()
        &&& self.key >= other.key || self.is_zero() && other.is_zero()
    }

    /// The score with the given bit pattern.
    pub fn from_bits(bits: u32) -> (score: Score)
        ensures
            score.key == key_of(bits),
    {
        if bits < 0x8000_0000 {
            Score { key: bits as i32 }
        } else {
            Score { key: -1 - (bits - 0x8000_0000) as i32 }
        }
    }

    /// The bit pattern of the score.
    pub fn bits(self) -> (bits: u32)
        ensures
            key_of(bits) == self.key,
    {
        if self.key >= 0 {
            self.key as u32
        } else {
            0x8000_0000 + (-1 - self.key) as u32
        }
    }

    /// Whether the score is a number greater than another or the same.
    pub fn is_at_least(self, other: Score) -> (result: bool)
        ensures
            result == self.at_least(other),
    {
        let low: i32 = -1 - INFINITY_KEY;
        low <= self.key && self.key <= INFINITY_KEY && low <= other.key && other.key <= INFINITY_KEY
            && (self.key >= other.key || (self.key == 0 || self.key == -1) && (other.key == 0
            || other.key == -1))
    }

    /// Whether the score is a number greater than another.
    pub fn is_above(self, other: Score) -> (result: bool)
        ensures
            result == self.above(other),
    {
        let low: i32 = -1 - INFINITY_KEY;
        low <= self.key && self.key <= INFINITY_KEY && low <= other.key && other.key <= INFINITY_KEY
            && self.key > other.key && !((self.key == 0 || self.key == -1) && (other.key == 0
            || other.key == -1))
    }
}

/// Different bit patterns have different keys, and every key is that of one.
pub proof fn law_keys_are_bit_patterns(left: u32, right: u32)
    ensures
        key_of(left) == key_of(right) ==> left == right,
        i32::MIN <= key_of(left) <= i32::MAX,
{
}

/// `last` holds the place of the greatest key among the scores, the last one of them.
pub open spec fn is_last_greatest(scores: Seq<Score>, last: int) -> bool {
    &&& 0 <= last < scores.len()
    &&& forall|i: int| 0 <= i < scores.len() ==> (#[trigger] scores[i]).key <= scores[last].key
    &&& forall|i: int| last < i < scores.len() ==> (#[trigger] scores[i]).key < scores[last].key
}

/// The place of the greatest score, the last one if there are several.
pub fn last_greatest(scores: &Vec<Score>) -> (found: Option<usize>)
    ensures
        match found {
            Some(last) => is_last_greatest(scores@, last as int),
            None => scores@.len() == 0,
        },
{
    if scores.len() == 0 {
        return None;
    }
    let mut last: usize = 0;
    for i in 1..scores.len()
        invariant
            last < i <= scores@.len(),
            forall|k: int| 0 <= k < i ==> (#[trigger] scores@[k]).key <= scores@[last as int].key,
            forall|k: int| last < k < i ==> (#[trigger] scores@[k]).key < scores@[last as int].key,
    {
        if scores[i].key >= scores[last].key {
            last = i;
        }
    }
    Some(last)
}

/// Scores are compared as the numbers that they stand for: those without a sign grow with their bit
/// pattern, those with one fall with it, each of these is below each of those but for the two zeros,
/// and what is no number compares with nothing. The bit pattern of a score is the one that it is
/// made of.
pub proof fn law_scores_are_compared_as_numbers(
    low: u32,
    high: u32,
    left: Score,
    right: Score,
    at_least: bool,
    above: bool,
    bits: u32,
)
    requires
        call_ensures(Score::from_bits, (low,), left),
        call_ensures(Score::from_bits, (high,), right),
        call_ensures(Score::is_at_least, (left, right), at_least),
        call_ensures(Score::is_above, (left, right), above),
        call_ensures(Score::bits, (left,), bits),
    ensures
        bits == low,
        low <= 0x7f80_0000 && high <= 0x7f80_0000 ==> at_least == (low >= high) && above == (low > high),
        0x8000_0000 <= low <= 0xff80_0000 && 0x8000_0000 <= high <= 0xff80_0000 ==> at_least == (low <= high)
            && above == (low < high),
        low <= 0x7f80_0000 && 0x8000_0000 < high <= 0xff80_0000 ==> at_least && above,
        low == 0 && high == 0x8000_0000 ==> at_least && !above,
        low == 0x8000_0000 && high == 0 ==> at_least && !above,
        0x8000_0000 < low <= 0xff80_0000 && high <= 0x7f80_0000 ==> !at_least && !above,
        0x7f80_0000 < low < 0x8000_0000 || 0xff80_0000 < low ==> !at_least && !above,
        0x7f80_0000 < high < 0x8000_0000 || 0xff80_0000 < high ==> !at_least && !above,
{
    law_keys_are_bit_patterns(bits, low);
}

/// The greatest score is found wherever there is one: none is greater, and none behind it is as
/// great.
pub proof fn law_the_greatest_score_is_found(scores: &Vec<Score>, found: Option<usize>, at: int)
    requires
        call_ensures(last_greatest, (scores,), found),
        0 <= at < scores@.len(),
    ensures
        found is Some,
        found->0 < scores@.len(),
        scores@[at].key <= scores@[found->0 as int].key,
        found->0 < at ==> scores@[at].key < scores@[found->0 as int].key,
{
}

} // verus!
