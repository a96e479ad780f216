//! 256-bit signed integer in two's-complement form: the same four limbs as
//! the unsigned type, with the top bit of the highest limb as the sign.
//! Addition, subtraction and wrapping multiplication delegate to the
//! unsigned operations bit for bit; only comparison, division, remainder,
//! absolute value and the arithmetic right shift are sign-aware.

use vstd::prelude::*;

use crate::limb::{lemma_radix_products, lemma_tdiv_trem_magnitudes, p128, p192, p256, p64,
    tdiv, trem, RADIX64};
use crate::uint256::Uint256;
use vstd::arithmetic::div_mod::{
    lemma_basic_div, lemma_div_pos_is_pos, lemma_fundamental_div_mod,
    lemma_fundamental_div_mod_converse, lemma_fundamental_div_mod_converse_mod,
};
use vstd::arithmetic::power2::{lemma2_to64, lemma2_to64_rest, lemma_pow2_adds, lemma_pow2_pos,
    pow2};

verus! {

broadcast use vstd::arithmetic::mul::lemma_mul_is_commutative,
    vstd::arithmetic::div_mod::lemma_mod_pos_bound;

/// 2^255, the magnitude of the smallest 256-bit signed value.
pub open spec fn h256() -> int {
    0x8000_0000_0000_0000_0000_0000_0000_0000_0000_0000_0000_0000_0000_0000_0000_0000int
}

/// 2^127, the magnitude of the smallest native 128-bit signed value.
pub open spec fn h128() -> int {
    0x8000_0000_0000_0000_0000_0000_0000_0000int
}

/// A mathematical integer reduced into the signed 256-bit range by
/// wraparound.
pub open spec fn swrap256(n: int) -> int {
    let m = n % p256();
    if m >= h256() {
        m - p256()
    } else {
        m
    }
}

/// 256-bit signed integer stored as four 64-bit limbs, least significant
/// first; the most significant bit of `l3` is the sign bit.
#[derive(Debug, Clone, Copy, PartialEq, Eq, Structural)]
pub struct Int256 {
    pub l0: u64,
    pub l1: u64,
    pub l2: u64,
    pub l3: u64,
}

impl Int256 {
    /// The raw bit pattern read as an unsigned value.
    pub open spec fn as_uint(self) -> int {
        self.l0 + self.l1 * p64() + self.l2 * p128() + self.l3 * p192()
    }

    /// The two's-complement value: the unsigned reading, less 2^256 when
    /// the sign bit is set.
    pub open spec fn as_int(self) -> int {
        if self.l3 >= 0x8000_0000_0000_0000 {
            self.as_uint() - p256()
        } else {
            self.as_uint()
        }
    }

    /// The bit pattern seen as the unsigned type.
    pub open spec fn spec_unsigned(self) -> Uint256 {
        Uint256 { l0: self.l0, l1: self.l1, l2: self.l2, l3: self.l3 }
    }

    /// The signed value is the wraparound reduction of the unsigned one,
    /// and the two agree modulo 2^256.
    pub proof fn lemma_sign_split(self)
        ensures
            -h256() <= self.as_int() < h256(),
            self.as_int() == swrap256(self.as_uint()),
            self.as_uint() == self.as_int() + (if self.as_int() < 0 {
                p256()
            } else {
                0int
            }),
            self.as_int() < 0 <==> self.l3 >= 0x8000_0000_0000_0000,
            self.as_uint() == self.spec_unsigned().as_int(),
    {
        vstd::arithmetic::div_mod::lemma_small_mod(self.as_uint() as nat, p256() as nat);
    }

    /// Patterns with the same signed value are the same pattern.
    pub proof fn lemma_as_int_injective(a: Int256, b: Int256)
        requires
            a.as_int() == b.as_int(),
        ensures
            a == b,
    {
        a.lemma_sign_split();
        b.lemma_sign_split();
        a.spec_unsigned().lemma_limb_digits();
        b.spec_unsigned().lemma_limb_digits();
        assert(a.spec_unsigned().as_int() == b.spec_unsigned().as_int());
        assert(a.spec_unsigned() == b.spec_unsigned());
    }

    /// The all-zero value.
    pub fn zero() -> (r: Self)
        ensures
            r.as_int() == 0,
    {
        Int256 { l0: 0, l1: 0, l2: 0, l3: 0 }
    }

    /// The value one.
    pub fn one() -> (r: Self)
        ensures
            r.as_int() == 1,
    {
        Int256 { l0: 1, l1: 0, l2: 0, l3: 0 }
    }

    /// The value minus one: every bit set.
    pub fn neg_one() -> (r: Self)
        ensures
            r.as_int() == -1,
    {
        Int256 { l0: u64::MAX, l1: u64::MAX, l2: u64::MAX, l3: u64::MAX }
    }

    /// The smallest value, -2^255: only the sign bit set.
    pub fn min_value() -> (r: Self)
        ensures
            r.as_int() == -h256(),
    {
        Int256 { l0: 0, l1: 0, l2: 0, l3: 0x8000_0000_0000_0000 }
    }

    /// The largest value, 2^255 - 1.
    pub fn max_value() -> (r: Self)
        ensures
            r.as_int() == h256() - 1,
    {
        Int256 { l0: u64::MAX, l1: u64::MAX, l2: u64::MAX, l3: 0x7FFF_FFFF_FFFF_FFFF }
    }

    /// Direct limb construction, least significant limb first.
    pub fn new(l0: u64, l1: u64, l2: u64, l3: u64) -> (r: Self)
        ensures
            r == (Int256 { l0, l1, l2, l3 }),
    {
        Int256 { l0, l1, l2, l3 }
    }

    /// Reinterpret the bits as unsigned.
    pub fn to_uint256(&self) -> (r: Uint256)
        ensures
            r.as_int() == self.as_uint(),
    {
        Uint256 { l0: self.l0, l1: self.l1, l2: self.l2, l3: self.l3 }
    }

    /// Reinterpret unsigned bits as signed.
    pub fn from_uint256(u: Uint256) -> (r: Self)
        ensures
            r.as_uint() == u.as_int(),
            r.as_int() == swrap256(u.as_int()),
    {
        let r = Int256 { l0: u.l0, l1: u.l1, l2: u.l2, l3: u.l3 };
        proof {
            r.lemma_sign_split();
        }
        r
    }

    /// Sign-extend a native 128-bit value to 256 bits.
    pub fn from_i128(v: i128) -> (r: Self)
        ensures
            r.as_int() == v,
    {
        if v >= 0 {
            let uv = v as u128;
            let r = Int256 { l0: (uv % RADIX64) as u64, l1: (uv / RADIX64) as u64, l2: 0, l3: 0 };
            proof {
                lemma_fundamental_div_mod(uv as int, p64());
            }
            r
        } else {
            let mag: u128 = ((-(v + 1)) as u128) + 1;
            let uv: u128 = (u128::MAX - mag) + 1;
            let r = Int256 {
                l0: (uv % RADIX64) as u64,
                l1: (uv / RADIX64) as u64,
                l2: u64::MAX,
                l3: u64::MAX,
            };
            proof {
                lemma_fundamental_div_mod(uv as int, p64());
                assert(uv == v + p128());
                assert(r.as_uint() == v + p256());
            }
            r
        }
    }

    /// Truncate to the low 128 bits, read as a native signed value.
    pub fn to_i128(&self) -> (r: i128)
        ensures
            r == (if self.as_uint() % p128() >= h128() {
                self.as_uint() % p128() - p128()
            } else {
                self.as_uint() % p128()
            }),
    {
        let uv: u128 = (self.l1 as u128) * RADIX64 + (self.l0 as u128);
        proof {
            lemma_fundamental_div_mod_converse_mod(
                self.as_uint(),
                p128(),
                self.l2 + self.l3 * p64(),
                uv as int,
            );
        }
        if uv >= 0x8000_0000_0000_0000_0000_0000_0000_0000u128 {
            let mag: u128 = (u128::MAX - uv) + 1;
            -((mag - 1) as i128) - 1
        } else {
            uv as i128
        }
    }

    /// Truncating to 128 bits and sign-extending back are exact inverses
    /// on values that fit the narrower width.
    pub proof fn lemma_to_i128_round_trip(x: Int256, v: i128)
        requires
            x.as_int() == v,
        ensures
            (if x.as_uint() % p128() >= h128() {
                x.as_uint() % p128() - p128()
            } else {
                x.as_uint() % p128()
            }) == v,
    {
        x.lemma_sign_split();
        if x.as_int() < 0 {
            crate::limb::lemma_radix_products();
            assert((p128() - 1) * p128() == p256() - p128()) by (nonlinear_arith)
                requires
                    p256() == p128() * p128(),
            ;
            lemma_fundamental_div_mod_converse_mod(x.as_uint(), p128(), p128() - 1, v + p128());
        } else {
            vstd::arithmetic::div_mod::lemma_small_mod(x.as_uint() as nat, p128() as nat);
        }
    }

    /// Whether the value is zero.
    pub fn is_zero(&self) -> (r: bool)
        ensures
            r == (self.as_int() == 0),
    {
        proof {
            self.lemma_sign_split();
        }
        self.l0 == 0 && self.l1 == 0 && self.l2 == 0 && self.l3 == 0
    }

    /// Whether the sign bit is set.
    pub fn is_negative(&self) -> (r: bool)
        ensures
            r == (self.as_int() < 0),
    {
        proof {
            self.lemma_sign_split();
        }
        self.l3 >= 0x8000_0000_0000_0000
    }

    /// Whether the value is strictly positive.
    pub fn is_positive(&self) -> (r: bool)
        ensures
            r == (self.as_int() > 0),
    {
        !self.is_negative() && !self.is_zero()
    }

    /// The sign as a value: one, minus one, or zero.
    pub fn signum(&self) -> (r: Self)
        ensures
            r.as_int() == (if self.as_int() > 0 {
                1int
            } else if self.as_int() < 0 {
                -1int
            } else {
                0int
            }),
    {
        if self.is_zero() {
            Self::zero()
        } else if self.is_negative() {
            Self::neg_one()
        } else {
            Self::one()
        }
    }

    /// Addition modulo 2^256; two's complement makes the unsigned carry
    /// chain correct for signed values as well.
    pub fn wrapping_add(self, rhs: Self) -> (r: Self)
        ensures
            r.as_int() == swrap256(self.as_int() + rhs.as_int()),
    {
        let r = Self::from_uint256(self.to_uint256().wrapping_add(rhs.to_uint256()));
        proof {
            self.lemma_sign_split();
            rhs.lemma_sign_split();
            lemma_swrap256_congruent(
                self.as_int() + rhs.as_int(),
                (if self.as_int() < 0 { 1int } else { 0int }) + (if rhs.as_int() < 0 { 1int } else { 0int }),
            );
            assert(self.as_uint() + rhs.as_uint() == self.as_int() + rhs.as_int() + ((
            if self.as_int() < 0 { 1int } else { 0int }) + (if rhs.as_int() < 0 { 1int } else { 0int })) * p256());
            lemma_swrap256_of_mod(self.as_uint() + rhs.as_uint());
        }
        r
    }

    /// Subtraction modulo 2^256, again by the unsigned borrow chain.
    pub fn wrapping_sub(self, rhs: Self) -> (r: Self)
        ensures
            r.as_int() == swrap256(self.as_int() - rhs.as_int()),
    {
        let r = Self::from_uint256(self.to_uint256().wrapping_sub(rhs.to_uint256()));
        proof {
            self.lemma_sign_split();
            rhs.lemma_sign_split();
            lemma_swrap256_congruent(
                self.as_int() - rhs.as_int(),
                (if self.as_int() < 0 { 1int } else { 0int }) - (if rhs.as_int() < 0 { 1int } else { 0int }),
            );
            assert(self.as_uint() - rhs.as_uint() == self.as_int() - rhs.as_int() + ((
            if self.as_int() < 0 { 1int } else { 0int }) - (if rhs.as_int() < 0 { 1int } else { 0int })) * p256());
            lemma_swrap256_of_mod(self.as_uint() - rhs.as_uint());
        }
        r
    }

    /// Negation: zero minus the value; the minimum wraps back to itself.
    pub fn neg(self) -> (r: Self)
        ensures
            r.as_int() == swrap256(-self.as_int()),
    {
        Self::zero().wrapping_sub(self)
    }

    /// Multiplication modulo 2^256; the low half of a product does not
    /// depend on how the operands' top bits are interpreted.
    pub fn wrapping_mul(self, rhs: Self) -> (r: Self)
        ensures
            r.as_int() == swrap256(self.as_int() * rhs.as_int()),
    {
        let r = Self::from_uint256(self.to_uint256().wrapping_mul(rhs.to_uint256()));
        proof {
            self.lemma_sign_split();
            rhs.lemma_sign_split();
            let sa = self.as_int();
            let sb = rhs.as_int();
            let ea: int = if sa < 0 {
                1
            } else {
                0
            };
            let eb: int = if sb < 0 {
                1
            } else {
                0
            };
            assert(self.as_uint() * rhs.as_uint() == sa * sb + (ea * sb + eb * sa + ea * eb
                * p256()) * p256()) by (nonlinear_arith)
                requires
                    self.as_uint() == sa + ea * p256() && rhs.as_uint() == sb + eb * p256(),
            ;
            lemma_swrap256_congruent(sa * sb, ea * sb + eb * sa + ea * eb * p256());
            lemma_swrap256_of_mod(self.as_uint() * rhs.as_uint());
        }
        r
    }

    /// Absolute value by wraparound: the minimum has no positive
    /// counterpart and comes back unchanged.
    pub fn abs(&self) -> (r: Self)
        ensures
            r.as_int() == swrap256(if self.as_int() < 0 {
                -self.as_int()
            } else {
                self.as_int()
            }),
    {
        if self.is_negative() {
            Self::zero().wrapping_sub(*self)
        } else {
            proof {
                self.lemma_sign_split();
                lemma_swrap256_small(self.as_int());
            }
            *self
        }
    }

    /// Same as `abs`: the overflow case is wraparound by definition.
    pub fn wrapping_abs(&self) -> (r: Self)
        ensures
            r.as_int() == swrap256(if self.as_int() < 0 {
                -self.as_int()
            } else {
                self.as_int()
            }),
    {
        self.abs()
    }

    /// Absolute value that reports the one overflowing input instead of
    /// wrapping it.
    pub fn checked_abs(&self) -> (r: Option<Self>)
        ensures
            self.as_int() == -h256() ==> r is None,
            self.as_int() != -h256() ==> r is Some && r->0.as_int() == (if self.as_int() < 0 {
                -self.as_int()
            } else {
                self.as_int()
            }),
    {
        let m = Self::min_value();
        if *self == m {
            None
        } else {
            proof {
                if self.as_int() == -h256() {
                    Self::lemma_as_int_injective(*self, m);
                }
                self.lemma_sign_split();
                lemma_swrap256_small(if self.as_int() < 0 {
                    -self.as_int()
                } else {
                    self.as_int()
                });
            }
            Some(self.abs())
        }
    }

    /// Number of leading zero bits of the bit pattern, the sign bit
    /// counted like any other.
    pub fn leading_zeros(&self) -> (r: u32)
        ensures
            self.as_uint() == 0 ==> r == 256,
            self.as_uint() != 0 ==> r <= 255 && pow2((255 - r) as nat) <= self.as_uint() < pow2(
                (256 - r) as nat,
            ),
    {
        self.to_uint256().leading_zeros()
    }

    /// Signed comparison: opposite signs order by sign, same signs order
    /// by the unsigned pattern.
    pub fn lt(&self, rhs: &Self) -> (r: bool)
        ensures
            r == (self.as_int() < rhs.as_int()),
    {
        proof {
            self.lemma_sign_split();
            rhs.lemma_sign_split();
        }
        let sa = self.l3 >= 0x8000_0000_0000_0000;
        let sb = rhs.l3 >= 0x8000_0000_0000_0000;
        if sa != sb {
            sa
        } else {
            self.to_uint256().lt(&rhs.to_uint256())
        }
    }

    /// Signed `<=`.
    pub fn le(&self, rhs: &Self) -> (r: bool)
        ensures
            r == (self.as_int() <= rhs.as_int()),
    {
        !rhs.lt(self)
    }

    /// Truncating signed division: compute on magnitudes, then correct
    /// the sign. The quotient takes the exclusive-or of the operand
    /// signs; dividing the minimum by minus one wraps back to the
    /// minimum.
    pub fn div(self, rhs: Self) -> (r: Self)
        requires
            rhs.as_int() != 0,
        ensures
            r.as_int() == swrap256(tdiv(self.as_int(), rhs.as_int())),
    {
        let self_neg = self.is_negative();
        let rhs_neg = rhs.is_negative();
        let a = self.magnitude();
        let b = rhs.magnitude();
        let q = a.div(b);
        proof {
            let sa = self.as_int();
            let sb = rhs.as_int();
            lemma_fundamental_div_mod(a.as_int(), b.as_int());
            lemma_div_pos_is_pos(a.as_int(), b.as_int());
            assert(q.as_int() <= a.as_int()) by (nonlinear_arith)
                requires
                    q.as_int() * b.as_int() <= a.as_int() && b.as_int() >= 1 && q.as_int() >= 0,
            ;
        }
        if self_neg != rhs_neg {
            let r = Self::from_uint256(Uint256::zero().wrapping_sub(q));
            proof {
                let t = tdiv(self.as_int(), rhs.as_int());
                assert(t == -q.as_int());
                if q.as_int() == 0 {
                    lemma_swrap256_small(0);
                    assert((0int - 0int) % p256() == 0) by {
                        vstd::arithmetic::div_mod::lemma_small_mod(0nat, p256() as nat);
                    }
                } else {
                    lemma_neg_mod256(q.as_int());
                    lemma_swrap256_small(t);
                }
                r.lemma_sign_split();
            }
            r
        } else {
            let r = Self::from_uint256(q);
            proof {
                let t = tdiv(self.as_int(), rhs.as_int());
                assert(t == q.as_int());
                q.lemma_as_int_bounds();
                vstd::arithmetic::div_mod::lemma_small_mod(q.as_int() as nat, p256() as nat);
                r.lemma_sign_split();
            }
            r
        }
    }

    /// Truncating signed remainder: the magnitude remainder with the
    /// dividend's sign, so that quotient times divisor plus remainder
    /// returns the dividend.
    pub fn rem(self, rhs: Self) -> (r: Self)
        requires
            rhs.as_int() != 0,
        ensures
            r.as_int() == trem(self.as_int(), rhs.as_int()),
    {
        let self_neg = self.is_negative();
        let a = self.magnitude();
        let b = rhs.magnitude();
        let q = a.div(b);
        let prod = q.wrapping_mul(b);
        let rm = a.wrapping_sub(prod);
        proof {
            let av = a.as_int();
            let bv = b.as_int();
            lemma_fundamental_div_mod(av, bv);
            lemma_div_pos_is_pos(av, bv);
            assert(0 <= q.as_int() * bv <= av) by (nonlinear_arith)
                requires
                    q.as_int() * bv + av % bv == av && 0 <= av % bv && q.as_int() >= 0 && bv >= 1,
            ;
            vstd::arithmetic::div_mod::lemma_small_mod((q.as_int() * bv) as nat, p256() as nat);
            vstd::arithmetic::div_mod::lemma_small_mod((av - q.as_int() * bv) as nat,
                p256() as nat);
            assert(rm.as_int() == av % bv);
            lemma_tdiv_trem_magnitudes(self.as_int(), rhs.as_int());
        }
        if self_neg && !rm.is_zero() {
            let r = Self::from_uint256(Uint256::zero().wrapping_sub(rm));
            proof {
                lemma_neg_mod256(rm.as_int());
                r.lemma_sign_split();
            }
            r
        } else {
            let r = Self::from_uint256(rm);
            proof {
                vstd::arithmetic::div_mod::lemma_small_mod(rm.as_int() as nat, p256() as nat);
                r.lemma_sign_split();
            }
            r
        }
    }

    /// The magnitude of the value as an unsigned number; the minimum's
    /// magnitude, 2^255, is representable there.
    fn magnitude(&self) -> (r: Uint256)
        ensures
            r.as_int() == (if self.as_int() < 0 {
                -self.as_int()
            } else {
                self.as_int()
            }),
    {
        proof {
            self.lemma_sign_split();
        }
        if self.is_negative() {
            let u = self.to_uint256();
            proof {
                lemma_neg_mod256(u.as_int());
            }
            Uint256::zero().wrapping_sub(u)
        } else {
            self.to_uint256()
        }
    }

    /// Bitwise complement of every limb.
    pub fn not(self) -> (r: Self)
        ensures
            r == (Int256 { l0: !self.l0, l1: !self.l1, l2: !self.l2, l3: !self.l3 }),
    {
        Int256 { l0: !self.l0, l1: !self.l1, l2: !self.l2, l3: !self.l3 }
    }

    /// Limb-wise conjunction.
    pub fn bitand(self, rhs: Self) -> (r: Self)
        ensures
            r == (Int256 {
                l0: self.l0 & rhs.l0,
                l1: self.l1 & rhs.l1,
                l2: self.l2 & rhs.l2,
                l3: self.l3 & rhs.l3,
            }),
    {
        Int256 {
            l0: self.l0 & rhs.l0,
            l1: self.l1 & rhs.l1,
            l2: self.l2 & rhs.l2,
            l3: self.l3 & rhs.l3,
        }
    }

    /// Limb-wise disjunction.
    pub fn bitor(self, rhs: Self) -> (r: Self)
        ensures
            r == (Int256 {
                l0: self.l0 | rhs.l0,
                l1: self.l1 | rhs.l1,
                l2: self.l2 | rhs.l2,
                l3: self.l3 | rhs.l3,
            }),
    {
        Int256 {
            l0: self.l0 | rhs.l0,
            l1: self.l1 | rhs.l1,
            l2: self.l2 | rhs.l2,
            l3: self.l3 | rhs.l3,
        }
    }

    /// Limb-wise exclusive or.
    pub fn bitxor(self, rhs: Self) -> (r: Self)
        ensures
            r == (Int256 {
                l0: self.l0 ^ rhs.l0,
                l1: self.l1 ^ rhs.l1,
                l2: self.l2 ^ rhs.l2,
                l3: self.l3 ^ rhs.l3,
            }),
    {
        Int256 {
            l0: self.l0 ^ rhs.l0,
            l1: self.l1 ^ rhs.l1,
            l2: self.l2 ^ rhs.l2,
            l3: self.l3 ^ rhs.l3,
        }
    }

    /// Left shift: plain bit movement, identical to the unsigned shift.
    pub fn shl(self, n: u32) -> (r: Self)
        ensures
            r.as_int() == swrap256(self.as_int() * pow2(n as nat)),
    {
        let r = Self::from_uint256(self.to_uint256().shl_u32(n));
        proof {
            self.lemma_sign_split();
            let sa = self.as_int();
            let ea: int = if sa < 0 {
                1
            } else {
                0
            };
            assert(self.as_uint() * pow2(n as nat) == sa * pow2(n as nat) + (ea * pow2(
                n as nat,
            )) * p256()) by (nonlinear_arith)
                requires
                    self.as_uint() == sa + ea * p256(),
            ;
            lemma_swrap256_congruent(sa * pow2(n as nat), ea * pow2(n as nat));
            lemma_swrap256_of_mod(self.as_uint() * pow2(n as nat));
        }
        r
    }

    /// Arithmetic right shift: the floor of division by the power of two,
    /// filling with copies of the sign bit; by the width the result is
    /// all zeros or all ones.
    pub fn shr(self, n: u32) -> (r: Self)
        ensures
            r.as_int() == self.as_int() / (pow2(n as nat) as int),
    {
        proof {
            self.lemma_sign_split();
            lemma_pow2_pos(n as nat);
        }
        if n >= 256 {
            proof {
                lemma_pow2_adds(256, (n - 256) as nat);
                lemma_pow2_pos((n - 256) as nat);
                assert(pow2(256) == p256()) by {
                    lemma_pow2_adds(128, 128);
                    lemma_pow2_adds(64, 64);
                    lemma2_to64();
                    lemma2_to64_rest();
                    crate::limb::lemma_radix_products();
                    assert(pow2(128) == p128());
                }
                assert(pow2(n as nat) >= p256()) by (nonlinear_arith)
                    requires
                        pow2(n as nat) == pow2(256) * pow2((n - 256) as nat) && pow2(256) == p256()
                            && pow2((n - 256) as nat) >= 1,
                ;
                if self.as_int() < 0 {
                    lemma_fundamental_div_mod_converse(
                        self.as_int(),
                        pow2(n as nat) as int,
                        -1,
                        self.as_int() + pow2(n as nat),
                    );
                } else {
                    lemma_basic_div(self.as_int(), pow2(n as nat) as int);
                }
            }
            if self.is_negative() {
                Self::neg_one()
            } else {
                Self::zero()
            }
        } else if n == 0 {
            proof {
                lemma2_to64();
                lemma_fundamental_div_mod_converse(self.as_int(), 1, self.as_int(), 0);
            }
            self
        } else {
            let logical = self.to_uint256().shr_u32(n);
            proof {
                lemma_pow2_adds(n as nat, (256 - n) as nat);
                lemma_pow2_pos((256 - n) as nat);
                assert(pow2(256) == p256()) by {
                    lemma_pow2_adds(128, 128);
                    lemma_pow2_adds(64, 64);
                    lemma2_to64();
                    lemma2_to64_rest();
                    crate::limb::lemma_radix_products();
                    assert(pow2(128) == p128());
                }
                lemma_fundamental_div_mod(self.as_uint(), pow2(n as nat) as int);
                lemma_div_pos_is_pos(self.as_uint(), pow2(n as nat) as int);
                assert(logical.as_int() < pow2((256 - n) as nat)) by (nonlinear_arith)
                    requires
                        logical.as_int() * pow2(n as nat) <= self.as_uint() && self.as_uint()
                            < p256() && p256() == pow2(n as nat) * pow2((256 - n) as nat) && pow2(
                            n as nat,
                        ) >= 1 && logical.as_int() >= 0,
                ;
            }
            if self.is_negative() {
                let fill = Uint256::max_value().shl_u32(256 - n);
                let r = Self::from_uint256(logical.wrapping_add(fill));
                proof {
                    let pn = pow2(n as nat) as int;
                    let pk = pow2((256 - n) as nat) as int;
                    let ph = pow2((255 - n) as nat) as int;
                    lemma_pow2_adds((255 - n) as nat, 1);
                    lemma_pow2_adds(1, (n - 1) as nat);
                    lemma_pow2_pos((255 - n) as nat);
                    lemma_pow2_pos((n - 1) as nat);
                    lemma2_to64();
                    assert(pk == ph * 2);
                    assert(pn >= 2);
                    // the fill pattern is exactly the top n bits set
                    assert(pk < p256() && 2 <= pk) by (nonlinear_arith)
                        requires
                            p256() == pn * pk && pn >= 2 && pk == ph * 2 && ph >= 1,
                    ;
                    assert((p256() - 1) * pk == (pk - 1) * p256() + (p256() - pk))
                        by (nonlinear_arith);
                    lemma_fundamental_div_mod_converse_mod(
                        (p256() - 1) * pk,
                        p256(),
                        pk - 1,
                        p256() - pk,
                    );
                    assert(fill.as_int() == p256() - pk);
                    // half the range factors through the shift as well
                    assert(p256() == (pn * ph) * 2) by (nonlinear_arith)
                        requires
                            p256() == pn * pk && pk == ph * 2,
                    ;
                    assert(h256() == pn * ph);
                    let q = self.as_uint() / pn;
                    assert(q >= ph) by (nonlinear_arith)
                        requires
                            q * pn + self.as_uint() % pn == self.as_uint() && self.as_uint() % pn
                                < pn && self.as_uint() >= h256() && h256() == pn * ph && pn >= 1,
                    ;
                    assert(ph <= h256()) by (nonlinear_arith)
                        requires
                            h256() == pn * ph && pn >= 1 && ph >= 1,
                    ;
                    assert(logical.as_int() + fill.as_int() < p256());
                    vstd::arithmetic::div_mod::lemma_small_mod(
                        (logical.as_int() + fill.as_int()) as nat,
                        p256() as nat,
                    );
                    assert(r.as_uint() == q + (p256() - pk));
                    assert(r.as_uint() >= h256());
                    r.lemma_sign_split();
                    // floor division of the signed value gives the same bits
                    assert((q - pk) * pn == q * pn - p256()) by (nonlinear_arith)
                        requires
                            p256() == pn * pk,
                    ;
                    lemma_fundamental_div_mod_converse(
                        self.as_int(),
                        pn,
                        q - pk,
                        self.as_uint() % pn,
                    );
                }
                r
            } else {
                let r = Self::from_uint256(logical);
                proof {
                    assert(self.as_uint() < h256());
                    let q = self.as_uint() / (pow2(n as nat) as int);
                    assert(q < h256());
                    vstd::arithmetic::div_mod::lemma_small_mod(q as nat, p256() as nat);
                    r.lemma_sign_split();
                }
                r
            }
        }
    }
}

/// Wraparound reduction ignores any whole multiples of 2^256 separating
/// two integers.
pub proof fn lemma_swrap256_congruent(x: int, k: int)
    ensures
        swrap256(x + k * p256()) == swrap256(x),
{
    vstd::arithmetic::div_mod::lemma_mod_multiples_vanish(k, x, p256());
}

/// Reducing modulo 2^256 first does not change the wraparound value.
pub proof fn lemma_swrap256_of_mod(x: int)
    ensures
        swrap256(x % p256()) == swrap256(x),
{
    vstd::arithmetic::div_mod::lemma_mod_mod(x, p256(), 1);
    vstd::arithmetic::div_mod::lemma_small_mod((x % p256()) as nat, p256() as nat);
}

/// Values already in the signed range are fixed by wraparound.
pub proof fn lemma_swrap256_small(x: int)
    requires
        -h256() <= x < h256(),
    ensures
        swrap256(x) == x,
{
    if x >= 0 {
        vstd::arithmetic::div_mod::lemma_small_mod(x as nat, p256() as nat);
    } else {
        lemma_fundamental_div_mod_converse_mod(x, p256(), -1, x + p256());
    }
}

/// Negating a nonzero value below 2^256 lands on its complement.
pub proof fn lemma_neg_mod256(x: int)
    requires
        0 < x < p256(),
    ensures
        (0 - x) % p256() == p256() - x,
{
    lemma_fundamental_div_mod_converse_mod(0 - x, p256(), -1, p256() - x);
}

} // verus!
