//! 64-bit unsigned integer built from two 32-bit limbs, for hosts whose
//! widest comfortable word is 32 bits; the limb algorithms are the same as
//! at the wider widths, with a two-step carry chain.

use vstd::prelude::*;

use crate::limb::{carry_add32, borrow_sub32, lemma_limb_split, mul_u64_full, p32, p64, RADIX32};
use crate::shift::lz64;
use vstd::arithmetic::div_mod::{
    lemma_fundamental_div_mod, lemma_fundamental_div_mod_converse,
    lemma_fundamental_div_mod_converse_mod,
};
use vstd::arithmetic::power2::pow2;

verus! {

broadcast use vstd::arithmetic::mul::lemma_mul_is_commutative,
    vstd::arithmetic::div_mod::lemma_mod_pos_bound;

/// 64-bit unsigned integer stored as two 32-bit limbs, least significant
/// first; the value is `l + h * 2^32`.
#[derive(Debug, Clone, Copy, PartialEq, Eq, Structural)]
pub struct Uint64 {
    pub l: u32,
    pub h: u32,
}

impl Uint64 {
    /// The numeric value of the limb pair.
    pub open spec fn as_int(self) -> int {
        self.l + self.h * p32()
    }

    /// The all-zero value.
    pub fn zero() -> (r: Self)
        ensures
            r.as_int() == 0,
    {
        Uint64 { l: 0, h: 0 }
    }

    /// The largest value, 2^64 - 1.
    pub fn max_value() -> (r: Self)
        ensures
            r.as_int() == p64() - 1,
    {
        Uint64 { l: u32::MAX, h: u32::MAX }
    }

    /// Direct limb construction, low limb first.
    pub fn new(l: u32, h: u32) -> (r: Self)
        ensures
            r == (Uint64 { l, h }),
    {
        Uint64 { l, h }
    }

    /// Split a native value into limbs.
    pub fn from_u64(v: u64) -> (r: Self)
        ensures
            r.as_int() == v,
    {
        proof {
            lemma_fundamental_div_mod(v as int, p32());
        }
        Uint64 { l: (v % RADIX32) as u32, h: (v / RADIX32) as u32 }
    }

    /// Reassemble the native value.
    pub fn to_u64(&self) -> (r: u64)
        ensures
            r == self.as_int(),
    {
        (self.h as u64) * RADIX32 + (self.l as u64)
    }

    /// Whether the value is zero.
    pub fn is_zero(&self) -> (r: bool)
        ensures
            r == (self.as_int() == 0),
    {
        self.l == 0 && self.h == 0
    }

    /// Number of leading zero bits: the unique `r` with
    /// `2^(63-r) <= value < 2^(64-r)`, or 64 for zero.
    pub fn leading_zeros(&self) -> (r: u32)
        ensures
            self.as_int() == 0 ==> r == 64,
            self.as_int() != 0 ==> r <= 63 && pow2((63 - r) as nat) <= self.as_int() < pow2(
                (64 - r) as nat,
            ),
    {
        lz64(self.to_u64())
    }

    /// Addition modulo 2^64 as a two-limb carry chain.
    pub fn wrapping_add(self, rhs: Self) -> (r: Self)
        ensures
            r.as_int() == (self.as_int() + rhs.as_int()) % p64(),
    {
        let (l, c0) = carry_add32(self.l, rhs.l, false);
        let (h, c1) = carry_add32(self.h, rhs.h, c0);
        let r = Uint64 { l, h };
        proof {
            lemma_fundamental_div_mod_converse_mod(
                self.as_int() + rhs.as_int(),
                p64(),
                if c1 {
                    1int
                } else {
                    0int
                },
                r.as_int(),
            );
        }
        r
    }

    /// Subtraction modulo 2^64 as a two-limb borrow chain.
    pub fn wrapping_sub(self, rhs: Self) -> (r: Self)
        ensures
            r.as_int() == (self.as_int() - rhs.as_int()) % p64(),
    {
        let (l, b0) = borrow_sub32(self.l, rhs.l, false);
        let (h, b1) = borrow_sub32(self.h, rhs.h, b0);
        let r = Uint64 { l, h };
        proof {
            lemma_fundamental_div_mod_converse_mod(
                self.as_int() - rhs.as_int(),
                p64(),
                if b1 {
                    -1int
                } else {
                    0int
                },
                r.as_int(),
            );
        }
        r
    }

    /// Multiplication modulo 2^64: the low half of the full widening
    /// product of the limb pairs.
    pub fn wrapping_mul(self, rhs: Self) -> (r: Self)
        ensures
            r.as_int() == (self.as_int() * rhs.as_int()) % p64(),
    {
        let a = self.to_u64();
        let b = rhs.to_u64();
        let (hi, lo) = mul_u64_full(a, b);
        proof {
            lemma_fundamental_div_mod_converse_mod(a as int * b, p64(), hi as int, lo as int);
        }
        Uint64::from_u64(lo)
    }

    /// Exact truncating division, on the assembled native value.
    pub fn div(self, rhs: Self) -> (r: Self)
        requires
            rhs.as_int() != 0,
        ensures
            r.as_int() == self.as_int() / rhs.as_int(),
    {
        Uint64::from_u64(self.to_u64() / rhs.to_u64())
    }

    /// Exact remainder, on the assembled native value.
    pub fn rem(self, rhs: Self) -> (r: Self)
        requires
            rhs.as_int() != 0,
        ensures
            r.as_int() == self.as_int() % rhs.as_int(),
    {
        Uint64::from_u64(self.to_u64() % rhs.to_u64())
    }

    /// Division by a single 32-bit limb.
    pub fn div_by_u32(self, d: u32) -> (r: Self)
        requires
            d != 0,
        ensures
            r.as_int() == self.as_int() / (d as int),
    {
        Uint64::from_u64(self.to_u64() / (d as u64))
    }

    /// Division by a single 32-bit limb, with the remainder.
    pub fn divrem_by_u32(self, d: u32) -> (r: (Self, u32))
        requires
            d != 0,
        ensures
            r.0.as_int() == self.as_int() / (d as int),
            r.1 == self.as_int() % (d as int),
    {
        let n = self.to_u64();
        let q = n / (d as u64);
        let rem = (n % (d as u64)) as u32;
        (Uint64::from_u64(q), rem)
    }

    /// Full 64x64 -> 128 bit multiplication, returning (high, low).
    pub fn widening_mul(self, rhs: Self) -> (r: (Self, Self))
        ensures
            r.0.as_int() * p64() + r.1.as_int() == self.as_int() * rhs.as_int(),
    {
        let (hi, lo) = mul_u64_full(self.to_u64(), rhs.to_u64());
        (Uint64::from_u64(hi), Uint64::from_u64(lo))
    }

    /// Unsigned comparison, high limb first.
    pub fn lt(&self, rhs: &Self) -> (r: bool)
        ensures
            r == (self.as_int() < rhs.as_int()),
    {
        if self.h != rhs.h {
            self.h < rhs.h
        } else {
            self.l < rhs.l
        }
    }

    /// Unsigned `<=`.
    pub fn le(&self, rhs: &Self) -> (r: bool)
        ensures
            r == (self.as_int() <= rhs.as_int()),
    {
        !rhs.lt(self)
    }
}

} // verus!
