//! 128-bit unsigned integer built from two 64-bit limbs. The widening
//! multiply of the low limbs is the only full-size product a truncating
//! multiplication needs; division delegates to the hardware double-word
//! path.

use vstd::prelude::*;

use crate::limb::{borrow_sub64, carry_add64, lemma_mul_expand_2, mul_u64_full, p128, p64,
    RADIX64};
use vstd::arithmetic::div_mod::{
    lemma_fundamental_div_mod, lemma_fundamental_div_mod_converse,
    lemma_fundamental_div_mod_converse_mod,
};

verus! {

broadcast use vstd::arithmetic::mul::lemma_mul_is_commutative,
    vstd::arithmetic::div_mod::lemma_mod_pos_bound;

/// 128-bit unsigned integer stored as two 64-bit limbs, least significant
/// first; the value is `l + h * 2^64`.
#[derive(Debug, Clone, Copy, PartialEq, Eq, Structural)]
pub struct Uint128 {
    pub l: u64,
    pub h: u64,
}

impl Uint128 {
    /// The numeric value of the limb pair.
    pub open spec fn as_int(self) -> int {
        self.l + self.h * p64()
    }

    /// The all-zero value.
    pub fn zero() -> (r: Self)
        ensures
            r.as_int() == 0,
    {
        Uint128 { l: 0, h: 0 }
    }

    /// The largest value, 2^128 - 1.
    pub fn max_value() -> (r: Self)
        ensures
            r.as_int() == p128() - 1,
    {
        Uint128 { l: u64::MAX, h: u64::MAX }
    }

    /// Split a native value into limbs.
    pub fn from_u128(v: u128) -> (r: Self)
        ensures
            r.as_int() == v,
    {
        proof {
            lemma_fundamental_div_mod(v as int, p64());
        }
        Uint128 { l: (v % RADIX64) as u64, h: (v / RADIX64) as u64 }
    }

    /// Reassemble the native value.
    pub fn to_u128(&self) -> (r: u128)
        ensures
            r == self.as_int(),
    {
        (self.h as u128) * RADIX64 + (self.l as u128)
    }

    /// Whether the value is zero.
    pub fn is_zero(&self) -> (r: bool)
        ensures
            r == (self.as_int() == 0),
    {
        self.l == 0 && self.h == 0
    }

    /// Addition modulo 2^128 as a two-limb carry chain.
    pub fn wrapping_add(self, rhs: Self) -> (r: Self)
        ensures
            r.as_int() == (self.as_int() + rhs.as_int()) % p128(),
    {
        let (l, c0) = carry_add64(self.l, rhs.l, false);
        let (h, c1) = carry_add64(self.h, rhs.h, c0);
        let r = Uint128 { l, h };
        proof {
            lemma_fundamental_div_mod_converse_mod(
                self.as_int() + rhs.as_int(),
                p128(),
                if c1 {
                    1int
                } else {
                    0int
                },
                r.as_int(),
            );
        }
        r
    }

    /// Subtraction modulo 2^128 as a two-limb borrow chain.
    pub fn wrapping_sub(self, rhs: Self) -> (r: Self)
        ensures
            r.as_int() == (self.as_int() - rhs.as_int()) % p128(),
    {
        let (l, b0) = borrow_sub64(self.l, rhs.l, false);
        let (h, b1) = borrow_sub64(self.h, rhs.h, b0);
        let r = Uint128 { l, h };
        proof {
            lemma_fundamental_div_mod_converse_mod(
                self.as_int() - rhs.as_int(),
                p128(),
                if b1 {
                    -1int
                } else {
                    0int
                },
                r.as_int(),
            );
        }
        r
    }

    /// Multiplication modulo 2^128: one full widening product of the low
    /// limbs plus the low halves of the two cross products; the high-limb
    /// product would only touch discarded bits.
    pub fn wrapping_mul(self, rhs: Self) -> (r: Self)
        ensures
            r.as_int() == (self.as_int() * rhs.as_int()) % p128(),
    {
        let (p0_hi, p0_lo) = mul_u64_full(self.l, rhs.l);
        proof {
            crate::limb::lemma_u64_mul_fits(self.l, rhs.h);
            crate::limb::lemma_u64_mul_fits(self.h, rhs.l);
        }
        let t1 = (self.l as u128) * (rhs.h as u128);
        let t2 = (self.h as u128) * (rhs.l as u128);
        let hsum: u128 = (p0_hi as u128) + (t1 % RADIX64) + (t2 % RADIX64);
        let h = (hsum % RADIX64) as u64;
        let r = Uint128 { l: p0_lo, h };
        proof {
            lemma_mul_expand_2(self.l as int, self.h as int, rhs.l as int, rhs.h as int, p64());
            lemma_fundamental_div_mod(t1 as int, p64());
            lemma_fundamental_div_mod(t2 as int, p64());
            lemma_fundamental_div_mod(hsum as int, p64());
            crate::limb::lemma_radix_products();
            let q: int = (self.h * rhs.h) + (t1 as int) / p64() + (t2 as int) / p64() + (
            hsum as int) / p64();
            assert(self.as_int() * rhs.as_int() == q * p128() + r.as_int()) by (nonlinear_arith)
                requires
                    self.as_int() * rhs.as_int() == self.l * rhs.l + (t1 + t2) * p64() + (self.h
                        * rhs.h) * (p64() * p64()) && self.l * rhs.l == p0_hi * p64() + p0_lo && t1
                        == p64() * ((t1 as int) / p64()) + (t1 as int) % p64() && t2 == p64() * ((
                    t2 as int) / p64()) + (t2 as int) % p64() && hsum == p64() * ((hsum as int)
                        / p64()) + (hsum as int) % p64() && hsum == p0_hi + (t1 as int) % p64() + (
                    t2 as int) % p64() && r.as_int() == p0_lo + ((hsum as int) % p64()) * p64() && q
                        == (self.h * rhs.h) + (t1 as int) / p64() + (t2 as int) / p64() + (
                    hsum as int) / p64() && p128() == p64() * p64(),
            ;
            lemma_fundamental_div_mod_converse_mod(
                self.as_int() * rhs.as_int(),
                p128(),
                q,
                r.as_int(),
            );
        }
        r
    }

    /// Exact truncating division, on the assembled native value.
    pub fn div(self, rhs: Self) -> (r: Self)
        requires
            rhs.as_int() != 0,
        ensures
            r.as_int() == self.as_int() / rhs.as_int(),
    {
        Uint128::from_u128(self.to_u128() / rhs.to_u128())
    }

    /// Exact remainder, on the assembled native value.
    pub fn rem(self, rhs: Self) -> (r: Self)
        requires
            rhs.as_int() != 0,
        ensures
            r.as_int() == self.as_int() % rhs.as_int(),
    {
        Uint128::from_u128(self.to_u128() % rhs.to_u128())
    }

    /// Unsigned comparison, high limb first.
    pub fn lt(&self, rhs: &Self) -> (r: bool)
        ensures
            r == (self.as_int() < rhs.as_int()),
    {
        if self.h != rhs.h {
            self.h < rhs.h
        } else {
            self.l < rhs.l
        }
    }

    /// Unsigned `<=`.
    pub fn le(&self, rhs: &Self) -> (r: bool)
        ensures
            r == (self.as_int() <= rhs.as_int()),
    {
        !rhs.lt(self)
    }
}

} // verus!
