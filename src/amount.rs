//! Exact sums of token amounts.
//!
//! A sum of many 128-bit amounts can exceed 128 bits. Totals are kept in two
//! 128-bit limbs, so that they are exact for any number of cells that a
//! transaction can hold, and comparisons between them never wrap.
use vstd::prelude::*;

verus! {

/// `2` raised to `128`: the weight of the high limb.
pub open spec fn limb_base() -> nat {
    u128::MAX as nat + 1
}

/// A higher high limb outweighs any low limb.
proof fn lemma_high_limb_dominates(hi_a: nat, lo_a: nat, hi_b: nat, lo_b: nat)
    requires
        hi_a > hi_b,
        lo_b < limb_base(),
    ensures
        hi_a * limb_base() + lo_a > hi_b * limb_base() + lo_b,
{
    let base = limb_base();
    assert(hi_a * base >= (hi_b + 1) * base) by (nonlinear_arith)
        requires
            hi_a >= hi_b + 1,
    ;
    assert((hi_b + 1) * base == hi_b * base + base) by (nonlinear_arith);
}

/// A token total of up to 256 bits, `hi * 2^128 + lo`.
#[derive(Debug, Clone, Copy, PartialEq, Eq, Structural)]
pub struct TokenSum {
    pub hi: u128,
    pub lo: u128,
}

impl TokenSum {
    /// The number this total stands for.
    pub open spec fn value(&self) -> nat {
        self.hi as nat * limb_base() + self.lo as nat
    }

    /// The total of nothing.
    pub fn zero() -> (r: TokenSum)
        ensures
            r.value() == 0,
            r.hi == 0,
    {
        TokenSum { hi: 0, lo: 0 }
    }

    /// A total holding exactly `x`.
    pub fn from_u128(x: u128) -> (r: TokenSum)
        ensures
            r.value() == x as nat,
            r.hi == 0,
    {
        TokenSum { hi: 0, lo: x }
    }

    /// Adds `x` to the total, carrying into the high limb when the low one fills.
    pub fn add(&mut self, x: u128)
        requires
            old(self).hi < u128::MAX,
        ensures
            final(self).value() == old(self).value() + x as nat,
            final(self).hi <= old(self).hi + 1,
    {
        if x <= u128::MAX - self.lo {
            self.lo = self.lo + x;
        } else {
            self.lo = x - (u128::MAX - self.lo) - 1;
            self.hi = self.hi + 1;
            proof {
                let base = limb_base();
                let h = old(self).hi as nat;
                assert((h + 1) * base == h * base + base) by (nonlinear_arith);
            }
        }
    }

    /// Whether this total is at least `other`.
    pub fn covers(&self, other: &TokenSum) -> (r: bool)
        ensures
            r == (self.value() >= other.value()),
    {
        proof {
            if self.hi > other.hi {
                lemma_high_limb_dominates(self.hi as nat, self.lo as nat, other.hi as nat, other.lo as nat);
            } else if self.hi < other.hi {
                lemma_high_limb_dominates(other.hi as nat, other.lo as nat, self.hi as nat, self.lo as nat);
            }
        }
        self.hi > other.hi || (self.hi == other.hi && self.lo >= other.lo)
    }

    /// The total as a `u128`, when it fits in one.
    pub fn to_u128(&self) -> (r: Option<u128>)
        ensures
            match r {
                Some(v) => v as nat == self.value(),
                None => self.value() > u128::MAX,
            },
    {
        proof {
            if self.hi > 0 {
                lemma_high_limb_dominates(self.hi as nat, self.lo as nat, 0, u128::MAX as nat);
            }
        }
        if self.hi == 0 {
            Some(self.lo)
        } else {
            None
        }
    }
}

} // verus!
