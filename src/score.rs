use vstd::prelude::*;

verus! {

/// Mask of the sign bit of an IEEE-754 single-precision value.
pub const SIGN_MASK: u32 = 0x8000_0000;

/// Mask of the exponent field.
pub const EXPONENT_MASK: u32 = 0x7f80_0000;

/// Mask of the fraction field.
pub const FRACTION_MASK: u32 = 0x007f_ffff;

/// Mask of everything but the sign bit.
pub const MAGNITUDE_MASK: u32 = 0x7fff_ffff;

/// Rank given to every NaN: below negative infinity, whose rank is
/// `-(0x7f80_0000)`.
pub const NAN_RANK: i64 = -0x8000_0000;

/// A similarity score, held as the bit pattern of an IEEE-754
/// single-precision number.
#[derive(Clone, Copy, Debug, PartialEq, Eq)]
pub struct Score {
    pub bits: u32,
}

/// Whether `bits` encodes a NaN: all exponent bits set and a non-zero
/// fraction.
pub open spec fn is_nan_bits(bits: u32) -> bool {
    (bits & EXPONENT_MASK) == EXPONENT_MASK && (bits & FRACTION_MASK) != 0
}

/// The position of a score in the ranking order, as an integer.
///
/// For every value that is not a NaN, IEEE-754 orders non-negative numbers
/// as their magnitude bits and negative numbers in reverse, so the signed
/// magnitude orders them exactly as the numbers they encode; both zeros get
/// rank 0, as `0.0 == -0.0`. Every NaN gets the same rank, below negative
/// infinity: NaN scores compare equal among themselves and rank last.
pub open spec fn rank_of(bits: u32) -> int {
    if is_nan_bits(bits) {
        NAN_RANK as int
    } else if (bits & SIGN_MASK) != 0 {
        -((bits & MAGNITUDE_MASK) as int)
    } else {
        (bits & MAGNITUDE_MASK) as int
    }
}

impl Score {
    pub open spec fn rank(self) -> int {
        rank_of(self.bits)
    }

    pub open spec fn nan(self) -> bool {
        is_nan_bits(self.bits)
    }

    /// The score whose bit pattern is `bits`.
    pub fn from_bits(bits: u32) -> (r: Score)
        ensures
            r.bits == bits,
    {
        Score { bits }
    }

    /// The bit pattern of the score.
    pub fn to_bits(&self) -> (r: u32)
        ensures
            r == self.bits,
    {
        self.bits
    }

    /// Whether the score is a NaN.
    pub fn is_nan(&self) -> (r: bool)
        ensures
            r == self.nan(),
    {
        (self.bits & EXPONENT_MASK) == EXPONENT_MASK && (self.bits & FRACTION_MASK) != 0
    }

    /// The rank of the score, computed.
    pub fn rank_key(&self) -> (r: i64)
        ensures
            r as int == self.rank(),
    {
        if self.is_nan() {
            NAN_RANK
        } else if (self.bits & SIGN_MASK) != 0 {
            -((self.bits & MAGNITUDE_MASK) as i64)
        } else {
            (self.bits & MAGNITUDE_MASK) as i64
        }
    }

    /// Whether `self` ranks strictly above `other`.
    pub fn ranks_above(&self, other: &Score) -> (r: bool)
        ensures
            r == (self.rank() > other.rank()),
    {
        self.rank_key() > other.rank_key()
    }
}

/// NaN ranks strictly below every score that is not a NaN.
pub proof fn lemma_nan_ranks_last(a: Score, b: Score)
    requires
        a.nan(),
        !b.nan(),
    ensures
        a.rank() < b.rank(),
{
    let x = b.bits;
    assert(!((x & 0x7f80_0000u32) == 0x7f80_0000u32 && (x & 0x007f_ffffu32) != 0)
        ==> (x & 0x7fff_ffffu32) <= 0x7f80_0000u32) by (bit_vector);
}

} // verus!
