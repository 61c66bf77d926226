//! Sets of squares.
use vstd::arithmetic::power2::pow2;
use vstd::bits::lemma_u64_shr_is_div;
use vstd::prelude::*;

verus! {

/// A set of squares: bit `s` stands for square `s`.
#[derive(Clone, Copy, Debug, PartialEq, Eq, Structural)]
pub struct Bitboard {
    pub bits: u64,
}

/// The bit of a square.
pub open spec fn bit(bits: u64, s: u64) -> bool {
    (bits >> s) & 1 == 1
}

impl Bitboard {
    /// Whether a square belongs to the set.
    pub open spec fn has(self, s: int) -> bool {
        0 <= s < 64 && bit(self.bits, s as u64)
    }

    /// The set as a condition on squares.
    pub open spec fn members(self) -> spec_fn(int) -> bool {
        |s: int| self.has(s)
    }

    /// The set of no squares.
    pub fn empty() -> (r: Self)
        ensures
            forall|s: int| !(#[trigger] r.has(s)),
    {
        let r = Bitboard { bits: 0 };
        assert forall|s: int| !(#[trigger] r.has(s)) by {
            if 0 <= s < 64 {
                let k = s as u64;
                assert((0u64 >> k) & 1 != 1) by (bit_vector);
            }
        }
        r
    }

    /// Whether a square belongs to the set.
    pub fn contains(self, s: u8) -> (r: bool)
        requires
            s < 64,
        ensures
            r == self.has(s as int),
    {
        (self.bits >> (s as u64)) & 1 == 1
    }

    /// The set with one more square.
    pub fn with(self, s: u8) -> (r: Self)
        requires
            s < 64,
        ensures
            forall|t: int| #[trigger] r.has(t) == (self.has(t) || t == s),
    {
        let a: u64 = self.bits;
        let k: u64 = s as u64;
        let r = Bitboard { bits: a | (1u64 << k) };
        assert forall|t: int| #[trigger] r.has(t) == (self.has(t) || t == s) by {
            if 0 <= t < 64 {
                let j = t as u64;
                assert((((a | (1u64 << k)) >> j) & 1 == 1) == ((a >> j) & 1 == 1 || j == k))
                    by (bit_vector)
                    requires
                        k < 64,
                        j < 64,
                ;
            }
        }
        r
    }

    /// The squares of either set.
    pub fn union(self, other: Self) -> (r: Self)
        ensures
            forall|t: int| #[trigger] r.has(t) == (self.has(t) || other.has(t)),
    {
        let a: u64 = self.bits;
        let b: u64 = other.bits;
        let r = Bitboard { bits: a | b };
        assert forall|t: int| #[trigger] r.has(t) == (self.has(t) || other.has(t)) by {
            if 0 <= t < 64 {
                let j = t as u64;
                assert((((a | b) >> j) & 1 == 1) == ((a >> j) & 1 == 1 || (b >> j) & 1 == 1))
                    by (bit_vector);
            }
        }
        r
    }

    /// The squares of both sets.
    pub fn both(self, other: Self) -> (r: Self)
        ensures
            forall|t: int| #[trigger] r.has(t) == (self.has(t) && other.has(t)),
    {
        let a: u64 = self.bits;
        let b: u64 = other.bits;
        let r = Bitboard { bits: a & b };
        assert forall|t: int| #[trigger] r.has(t) == (self.has(t) && other.has(t)) by {
            if 0 <= t < 64 {
                let j = t as u64;
                assert((((a & b) >> j) & 1 == 1) == ((a >> j) & 1 == 1 && (b >> j) & 1 == 1))
                    by (bit_vector);
            }
        }
        r
    }

    /// The squares of this set that are not in another.
    pub fn without(self, other: Self) -> (r: Self)
        ensures
            forall|t: int| #[trigger] r.has(t) == (self.has(t) && !other.has(t)),
    {
        let a: u64 = self.bits;
        let b: u64 = other.bits;
        let r = Bitboard { bits: a & !b };
        assert forall|t: int| #[trigger] r.has(t) == (self.has(t) && !other.has(t)) by {
            if 0 <= t < 64 {
                let j = t as u64;
                assert((((a & !b) >> j) & 1 == 1) == ((a >> j) & 1 == 1 && (b >> j) & 1 != 1))
                    by (bit_vector)
                    requires
                        j < 64,
                ;
            }
        }
        r
    }
}

/// Square `s` belongs to a set exactly where the number that stands for the set has 2^s in it.
pub proof fn a_set_is_a_sum_of_powers(b: Bitboard, s: int)
    ensures
        b.has(s) == (0 <= s < 64 && (b.bits as nat / pow2(s as nat)) % 2 == 1),
{
    if 0 <= s < 64 {
        let k = s as u64;
        let x = b.bits >> k;
        lemma_u64_shr_is_div(b.bits, k);
        assert(x & 1 == x % 2) by (bit_vector);
    }
}

} // verus!
