//! 64-bit signed integer in two's-complement form over two 32-bit limbs.
//! Addition, subtraction and wrapping multiplication are the unsigned
//! operations bit for bit; division and remainder delegate to the native
//! checked operations, with the one overflowing quotient wrapped.

use vstd::prelude::*;

use crate::limb::{lemma_tdiv_trem_magnitudes, lemma_tdiv_trem_native_form, p32, p64, tdiv, trem,
    RADIX32};
use crate::shift::{pow2_64};
use crate::uint64::Uint64;
use vstd::arithmetic::div_mod::{
    lemma_basic_div, lemma_div_pos_is_pos, lemma_fundamental_div_mod,
    lemma_fundamental_div_mod_converse, lemma_fundamental_div_mod_converse_mod,
};
use vstd::arithmetic::power2::{lemma2_to64, lemma2_to64_rest, lemma_pow2_adds, lemma_pow2_pos,
    pow2};

verus! {

broadcast use vstd::arithmetic::mul::lemma_mul_is_commutative,
    vstd::arithmetic::div_mod::lemma_mod_pos_bound;

/// 2^63, the magnitude of the smallest 64-bit signed value.
pub open spec fn h64() -> int {
    0x8000_0000_0000_0000int
}

/// A mathematical integer reduced into the signed 64-bit range by
/// wraparound.
pub open spec fn swrap64(n: int) -> int {
    let m = n % p64();
    if m >= h64() {
        m - p64()
    } else {
        m
    }
}

/// 64-bit signed integer stored as two 32-bit limbs, least significant
/// first; the most significant bit of `h` is the sign bit.
#[derive(Debug, Clone, Copy, PartialEq, Eq, Structural)]
pub struct Int64 {
    pub l: u32,
    pub h: u32,
}

impl Int64 {
    /// The raw bit pattern read as an unsigned value.
    pub open spec fn as_uint(self) -> int {
        self.l + self.h * p32()
    }

    /// The two's-complement value.
    pub open spec fn as_int(self) -> int {
        if self.h >= 0x8000_0000 {
            self.as_uint() - p64()
        } else {
            self.as_uint()
        }
    }

    /// The signed value is the wraparound reduction of the unsigned one.
    pub proof fn lemma_sign_split(self)
        ensures
            -h64() <= self.as_int() < h64(),
            self.as_int() == swrap64(self.as_uint()),
            self.as_uint() == self.as_int() + (if self.as_int() < 0 {
                p64()
            } else {
                0int
            }),
            self.as_int() < 0 <==> self.h >= 0x8000_0000,
    {
        vstd::arithmetic::div_mod::lemma_small_mod(self.as_uint() as nat, p64() as nat);
    }

    /// Patterns with the same signed value are the same pattern.
    pub proof fn lemma_as_int_injective(a: Int64, b: Int64)
        requires
            a.as_int() == b.as_int(),
        ensures
            a == b,
    {
        a.lemma_sign_split();
        b.lemma_sign_split();
        crate::limb::lemma_limb_split(a.l as int, a.h as int, p32());
        crate::limb::lemma_limb_split(b.l as int, b.h as int, p32());
        assert(a.as_uint() == b.as_uint());
        assert(a.l == b.l && a.h == b.h);
    }

    /// The all-zero value.
    pub fn zero() -> (r: Self)
        ensures
            r.as_int() == 0,
    {
        Int64 { l: 0, h: 0 }
    }

    /// The value one.
    pub fn one() -> (r: Self)
        ensures
            r.as_int() == 1,
    {
        Int64 { l: 1, h: 0 }
    }

    /// The value minus one: every bit set.
    pub fn neg_one() -> (r: Self)
        ensures
            r.as_int() == -1,
    {
        Int64 { l: u32::MAX, h: u32::MAX }
    }

    /// The smallest value, -2^63.
    pub fn min_value() -> (r: Self)
        ensures
            r.as_int() == -h64(),
    {
        Int64 { l: 0, h: 0x8000_0000 }
    }

    /// The largest value, 2^63 - 1.
    pub fn max_value() -> (r: Self)
        ensures
            r.as_int() == h64() - 1,
    {
        Int64 { l: u32::MAX, h: 0x7FFF_FFFF }
    }

    /// Direct limb construction, low limb first.
    pub fn new(l: u32, h: u32) -> (r: Self)
        ensures
            r == (Int64 { l, h }),
    {
        Int64 { l, h }
    }

    /// Split a native signed value into limbs.
    pub fn from_i64(v: i64) -> (r: Self)
        ensures
            r.as_int() == v,
    {
        if v >= 0 {
            let uv = v as u64;
            proof {
                lemma_fundamental_div_mod(uv as int, p32());
            }
            let r = Int64 { l: (uv % RADIX32) as u32, h: (uv / RADIX32) as u32 };
            proof {
                r.lemma_sign_split();
            }
            r
        } else {
            let mag: u64 = ((-(v + 1)) as u64) + 1;
            let uv: u64 = (u64::MAX - mag) + 1;
            proof {
                lemma_fundamental_div_mod(uv as int, p32());
            }
            let r = Int64 { l: (uv % RADIX32) as u32, h: (uv / RADIX32) as u32 };
            proof {
                assert(uv == v + p64());
                r.lemma_sign_split();
            }
            r
        }
    }

    /// Reassemble the native signed value; the conversion is exact.
    pub fn to_i64(&self) -> (r: i64)
        ensures
            r == self.as_int(),
    {
        proof {
            self.lemma_sign_split();
        }
        let uv: u64 = (self.h as u64) * RADIX32 + (self.l as u64);
        if uv >= 0x8000_0000_0000_0000u64 {
            let mag: u64 = (u64::MAX - uv) + 1;
            -((mag - 1) as i64) - 1
        } else {
            uv as i64
        }
    }

    /// The bit pattern seen as the unsigned type.
    fn to_unsigned(&self) -> (r: Uint64)
        ensures
            r.as_int() == self.as_uint(),
    {
        Uint64 { l: self.l, h: self.h }
    }

    /// Unsigned bits reinterpreted as signed.
    fn from_unsigned(u: Uint64) -> (r: Self)
        ensures
            r.as_uint() == u.as_int(),
            r.as_int() == swrap64(u.as_int()),
    {
        let r = Int64 { l: u.l, h: u.h };
        proof {
            r.lemma_sign_split();
        }
        r
    }

    /// Whether the value is zero.
    pub fn is_zero(&self) -> (r: bool)
        ensures
            r == (self.as_int() == 0),
    {
        proof {
            self.lemma_sign_split();
        }
        self.l == 0 && self.h == 0
    }

    /// Whether the sign bit is set.
    pub fn is_negative(&self) -> (r: bool)
        ensures
            r == (self.as_int() < 0),
    {
        proof {
            self.lemma_sign_split();
        }
        self.h >= 0x8000_0000
    }

    /// Whether the value is strictly positive.
    pub fn is_positive(&self) -> (r: bool)
        ensures
            r == (self.as_int() > 0),
    {
        !self.is_negative() && !self.is_zero()
    }

    /// The sign as a value: one, minus one, or zero.
    pub fn signum(&self) -> (r: Self)
        ensures
            r.as_int() == (if self.as_int() > 0 {
                1int
            } else if self.as_int() < 0 {
                -1int
            } else {
                0int
            }),
    {
        if self.is_zero() {
            Self::zero()
        } else if self.is_negative() {
            Self::neg_one()
        } else {
            Self::one()
        }
    }

    /// Addition modulo 2^64, by the unsigned carry chain.
    pub fn wrapping_add(self, rhs: Self) -> (r: Self)
        ensures
            r.as_int() == swrap64(self.as_int() + rhs.as_int()),
    {
        let r = Self::from_unsigned(self.to_unsigned().wrapping_add(rhs.to_unsigned()));
        proof {
            self.lemma_sign_split();
            rhs.lemma_sign_split();
            lemma_swrap64_congruent(
                self.as_int() + rhs.as_int(),
                (if self.as_int() < 0 {
                    1int
                } else {
                    0int
                }) + (if rhs.as_int() < 0 {
                    1int
                } else {
                    0int
                }),
            );
            lemma_swrap64_of_mod(self.as_uint() + rhs.as_uint());
        }
        r
    }

    /// Subtraction modulo 2^64, by the unsigned borrow chain.
    pub fn wrapping_sub(self, rhs: Self) -> (r: Self)
        ensures
            r.as_int() == swrap64(self.as_int() - rhs.as_int()),
    {
        let r = Self::from_unsigned(self.to_unsigned().wrapping_sub(rhs.to_unsigned()));
        proof {
            self.lemma_sign_split();
            rhs.lemma_sign_split();
            lemma_swrap64_congruent(
                self.as_int() - rhs.as_int(),
                (if self.as_int() < 0 {
                    1int
                } else {
                    0int
                }) - (if rhs.as_int() < 0 {
                    1int
                } else {
                    0int
                }),
            );
            lemma_swrap64_of_mod(self.as_uint() - rhs.as_uint());
        }
        r
    }

    /// Negation by wraparound; the minimum comes back unchanged.
    pub fn neg(self) -> (r: Self)
        ensures
            r.as_int() == swrap64(-self.as_int()),
    {
        Self::zero().wrapping_sub(self)
    }

    /// Multiplication modulo 2^64: the low bits do not depend on the sign
    /// interpretation.
    pub fn wrapping_mul(self, rhs: Self) -> (r: Self)
        ensures
            r.as_int() == swrap64(self.as_int() * rhs.as_int()),
    {
        let r = Self::from_unsigned(self.to_unsigned().wrapping_mul(rhs.to_unsigned()));
        proof {
            self.lemma_sign_split();
            rhs.lemma_sign_split();
            let sa = self.as_int();
            let sb = rhs.as_int();
            let ea: int = if sa < 0 {
                1
            } else {
                0
            };
            let eb: int = if sb < 0 {
                1
            } else {
                0
            };
            assert(self.as_uint() * rhs.as_uint() == sa * sb + (ea * sb + eb * sa + ea * eb
                * p64()) * p64()) by (nonlinear_arith)
                requires
                    self.as_uint() == sa + ea * p64() && rhs.as_uint() == sb + eb * p64(),
            ;
            lemma_swrap64_congruent(sa * sb, ea * sb + eb * sa + ea * eb * p64());
            lemma_swrap64_of_mod(self.as_uint() * rhs.as_uint());
        }
        r
    }

    /// Absolute value by wraparound: the minimum comes back unchanged.
    pub fn abs(&self) -> (r: Self)
        ensures
            r.as_int() == swrap64(if self.as_int() < 0 {
                -self.as_int()
            } else {
                self.as_int()
            }),
    {
        if self.is_negative() {
            Self::zero().wrapping_sub(*self)
        } else {
            proof {
                self.lemma_sign_split();
                lemma_swrap64_small(self.as_int());
            }
            *self
        }
    }

    /// Same as `abs`: the overflow case is wraparound by definition.
    pub fn wrapping_abs(&self) -> (r: Self)
        ensures
            r.as_int() == swrap64(if self.as_int() < 0 {
                -self.as_int()
            } else {
                self.as_int()
            }),
    {
        self.abs()
    }

    /// Absolute value that reports the one overflowing input instead of
    /// wrapping it.
    pub fn checked_abs(&self) -> (r: Option<Self>)
        ensures
            self.as_int() == -h64() ==> r is None,
            self.as_int() != -h64() ==> r is Some && r->0.as_int() == (if self.as_int() < 0 {
                -self.as_int()
            } else {
                self.as_int()
            }),
    {
        let m = Self::min_value();
        if *self == m {
            None
        } else {
            proof {
                if self.as_int() == -h64() {
                    Self::lemma_as_int_injective(*self, m);
                }
                self.lemma_sign_split();
                lemma_swrap64_small(if self.as_int() < 0 {
                    -self.as_int()
                } else {
                    self.as_int()
                });
            }
            Some(self.abs())
        }
    }

    /// Truncating signed division, delegated to the native operation; the
    /// one overflowing quotient, the minimum divided by minus one, wraps
    /// back to the minimum.
    pub fn div(self, rhs: Self) -> (r: Self)
        requires
            rhs.as_int() != 0,
        ensures
            r.as_int() == swrap64(tdiv(self.as_int(), rhs.as_int())),
    {
        let av = self.to_i64();
        let bv = rhs.to_i64();
        proof {
            lemma_tdiv_trem_native_form(av as int, bv as int);
            lemma_tdiv_trem_div_bounds(self.as_int(), rhs.as_int(), h64());
        }
        match av.checked_div(bv) {
            Some(q) => {
                proof {
                    lemma_swrap64_small(tdiv(av as int, bv as int));
                }
                Self::from_i64(q)
            },
            None => {
                proof {
                    lemma_fundamental_div_mod_converse_mod(h64(), p64(), 0, h64());
                }
                Self::min_value()
            },
        }
    }

    /// Truncating signed remainder, delegated to the native operation; the
    /// remainder of the minimum by minus one is zero.
    pub fn rem(self, rhs: Self) -> (r: Self)
        requires
            rhs.as_int() != 0,
        ensures
            r.as_int() == trem(self.as_int(), rhs.as_int()),
    {
        let av = self.to_i64();
        let bv = rhs.to_i64();
        proof {
            lemma_tdiv_trem_native_form(av as int, bv as int);
            lemma_tdiv_trem_div_bounds(self.as_int(), rhs.as_int(), h64());
            lemma_tdiv_trem_magnitudes(av as int, bv as int);
        }
        match av.checked_rem(bv) {
            Some(m) => Self::from_i64(m),
            None => {
                proof {
                    assert(trem(av as int, bv as int) == av - tdiv(av as int, bv as int) * bv);
                    assert(h64() * -1 == -h64());
                }
                Self::zero()
            },
        }
    }

    /// Signed comparison: opposite signs order by sign, same signs by the
    /// bit pattern.
    pub fn lt(&self, rhs: &Self) -> (r: bool)
        ensures
            r == (self.as_int() < rhs.as_int()),
    {
        proof {
            self.lemma_sign_split();
            rhs.lemma_sign_split();
        }
        let sa = self.h >= 0x8000_0000;
        let sb = rhs.h >= 0x8000_0000;
        if sa != sb {
            sa
        } else {
            self.to_unsigned().lt(&rhs.to_unsigned())
        }
    }

    /// Signed `<=`.
    pub fn le(&self, rhs: &Self) -> (r: bool)
        ensures
            r == (self.as_int() <= rhs.as_int()),
    {
        !rhs.lt(self)
    }

    /// Bitwise complement of both limbs.
    pub fn not(self) -> (r: Self)
        ensures
            r == (Int64 { l: !self.l, h: !self.h }),
    {
        Int64 { l: !self.l, h: !self.h }
    }

    /// Limb-wise conjunction.
    pub fn bitand(self, rhs: Self) -> (r: Self)
        ensures
            r == (Int64 { l: self.l & rhs.l, h: self.h & rhs.h }),
    {
        Int64 { l: self.l & rhs.l, h: self.h & rhs.h }
    }

    /// Limb-wise disjunction.
    pub fn bitor(self, rhs: Self) -> (r: Self)
        ensures
            r == (Int64 { l: self.l | rhs.l, h: self.h | rhs.h }),
    {
        Int64 { l: self.l | rhs.l, h: self.h | rhs.h }
    }

    /// Limb-wise exclusive or.
    pub fn bitxor(self, rhs: Self) -> (r: Self)
        ensures
            r == (Int64 { l: self.l ^ rhs.l, h: self.h ^ rhs.h }),
    {
        Int64 { l: self.l ^ rhs.l, h: self.h ^ rhs.h }
    }

    /// Left shift: plain bit movement, zero once the amount reaches the
    /// width.
    pub fn shl(self, n: u32) -> (r: Self)
        ensures
            r.as_int() == swrap64(self.as_int() * pow2(n as nat)),
    {
        proof {
            self.lemma_sign_split();
            lemma2_to64();
        }
        if n >= 64 {
            proof {
                lemma_pow2_adds(64, (n - 64) as nat);
                lemma_pow2_pos((n - 64) as nat);
                lemma2_to64_rest();
                assert(self.as_int() * pow2(n as nat) == (self.as_int() * pow2((n - 64) as nat))
                    * p64()) by (nonlinear_arith)
                    requires
                        pow2(n as nat) == pow2(64) * pow2((n - 64) as nat) && pow2(64) == p64(),
                ;
                vstd::arithmetic::div_mod::lemma_mod_multiples_basic(
                    self.as_int() * pow2((n - 64) as nat),
                    p64(),
                );
            }
            Self::zero()
        } else if n == 0 {
            proof {
                lemma_swrap64_small(self.as_int());
                assert(self.as_int() * pow2(0) == self.as_int()) by (nonlinear_arith)
                    requires
                        pow2(0) == 1,
                ;
            }
            self
        } else {
            let bits = self.to_unsigned().to_u64();
            let m = pow2_64(n);
            let minv = pow2_64(64 - n);
            proof {
                lemma_pow2_adds(n as nat, (64 - n) as nat);
                lemma2_to64_rest();
                lemma_fundamental_div_mod(bits as int, minv as int);
                lemma_pow2_pos(n as nat);
                lemma_pow2_pos((64 - n) as nat);
                assert(((bits as int) % (minv as int)) * m <= p64() - m) by (nonlinear_arith)
                    requires
                        0 <= (bits as int) % (minv as int) && (bits as int) % (minv as int) <= minv
                            - 1 && minv * m == p64() && m >= 1,
                ;
            }
            let out = (bits % minv) * m;
            let r = Self::from_unsigned(Uint64::from_u64(out));
            proof {
                assert(bits * m == ((bits as int) / (minv as int)) * p64() + out)
                    by (nonlinear_arith)
                    requires
                        bits == minv * ((bits as int) / (minv as int)) + (bits as int) % (
                        minv as int) && out == ((bits as int) % (minv as int)) * m && minv * m
                            == p64(),
                ;
                lemma_fundamental_div_mod_converse_mod(
                    bits * m,
                    p64(),
                    (bits as int) / (minv as int),
                    out as int,
                );
                let sa = self.as_int();
                let ea: int = if sa < 0 {
                    1
                } else {
                    0
                };
                assert(self.as_uint() * pow2(n as nat) == sa * pow2(n as nat) + (ea * pow2(
                    n as nat,
                )) * p64()) by (nonlinear_arith)
                    requires
                        self.as_uint() == sa + ea * p64(),
                ;
                lemma_swrap64_congruent(sa * pow2(n as nat), ea * pow2(n as nat));
                lemma_swrap64_of_mod(self.as_uint() * pow2(n as nat));
            }
            r
        }
    }

    /// Arithmetic right shift: floor division by the power of two, the
    /// sign bit replicated from the top.
    pub fn shr(self, n: u32) -> (r: Self)
        ensures
            r.as_int() == self.as_int() / (pow2(n as nat) as int),
    {
        proof {
            self.lemma_sign_split();
            lemma_pow2_pos(n as nat);
            lemma2_to64();
            lemma2_to64_rest();
        }
        if n >= 64 {
            proof {
                lemma_pow2_adds(64, (n - 64) as nat);
                lemma_pow2_pos((n - 64) as nat);
                assert(pow2(n as nat) >= p64()) by (nonlinear_arith)
                    requires
                        pow2(n as nat) == pow2(64) * pow2((n - 64) as nat) && pow2(64) == p64()
                            && pow2((n - 64) as nat) >= 1,
                ;
                if self.as_int() < 0 {
                    lemma_fundamental_div_mod_converse(
                        self.as_int(),
                        pow2(n as nat) as int,
                        -1,
                        self.as_int() + pow2(n as nat),
                    );
                } else {
                    lemma_basic_div(self.as_int(), pow2(n as nat) as int);
                }
            }
            if self.is_negative() {
                Self::neg_one()
            } else {
                Self::zero()
            }
        } else if n == 0 {
            proof {
                lemma_fundamental_div_mod_converse(self.as_int(), 1, self.as_int(), 0);
            }
            self
        } else {
            let bits = self.to_unsigned().to_u64();
            let m = pow2_64(n);
            let q = bits / m;
            proof {
                lemma_pow2_adds(n as nat, (64 - n) as nat);
                lemma_pow2_adds((63 - n) as nat, 1);
                lemma_pow2_pos((64 - n) as nat);
                lemma_pow2_pos((63 - n) as nat);
                lemma_pow2_pos((n - 1) as nat);
                lemma_pow2_adds(1, (n - 1) as nat);
                lemma_fundamental_div_mod(bits as int, m as int);
            }
            if self.is_negative() {
                let minv = pow2_64(64 - n);
                let fill = (u64::MAX - minv) + 1;
                proof {
                    let pn = m as int;
                    let pk = minv as int;
                    let ph = pow2((63 - n) as nat) as int;
                    let qi = q as int;
                    assert(pk == ph * 2 && pn >= 2);
                    assert(fill == p64() - pk);
                    assert(p64() == (pn * ph) * 2) by (nonlinear_arith)
                        requires
                            p64() == pn * pk && pk == ph * 2,
                    ;
                    assert(h64() == pn * ph);
                    assert(qi >= ph) by (nonlinear_arith)
                        requires
                            qi * pn + (bits as int) % pn == bits && (bits as int) % pn < pn && bits
                                >= h64() && h64() == pn * ph && pn >= 1,
                    ;
                    assert(qi < pk) by (nonlinear_arith)
                        requires
                            qi * pn + (bits as int) % pn == bits && 0 <= (bits as int) % pn && bits
                                < p64() && p64() == pn * pk && pn >= 1 && qi >= 0,
                    ;
                    assert(ph <= h64()) by (nonlinear_arith)
                        requires
                            h64() == pn * ph && pn >= 1 && ph >= 1,
                    ;
                }
                let r = Self::from_unsigned(Uint64::from_u64(q + fill));
                proof {
                    let pn = m as int;
                    let pk = minv as int;
                    let ph = pow2((63 - n) as nat) as int;
                    let qi = q as int;
                    assert(r.as_uint() == qi + (p64() - pk));
                    assert(r.as_uint() >= h64());
                    r.lemma_sign_split();
                    assert((qi - pk) * pn == qi * pn - p64()) by (nonlinear_arith)
                        requires
                            p64() == pn * pk,
                    ;
                    lemma_fundamental_div_mod_converse(
                        self.as_int(),
                        pn,
                        qi - pk,
                        (bits as int) % pn,
                    );
                }
                r
            } else {
                let r = Self::from_unsigned(Uint64::from_u64(q));
                proof {
                    let pn = m as int;
                    let qi = q as int;
                    assert(qi < h64()) by (nonlinear_arith)
                        requires
                            qi * pn + (bits as int) % pn == bits && 0 <= (bits as int) % pn && bits
                                < h64() && pn >= 1 && qi >= 0,
                    ;
                    vstd::arithmetic::div_mod::lemma_small_mod(qi as nat, p64() as nat);
                    r.lemma_sign_split();
                }
                r
            }
        }
    }
}

/// Wraparound reduction ignores whole multiples of 2^64.
pub proof fn lemma_swrap64_congruent(x: int, k: int)
    ensures
        swrap64(x + k * p64()) == swrap64(x),
{
    vstd::arithmetic::div_mod::lemma_mod_multiples_vanish(k, x, p64());
}

/// Reducing modulo 2^64 first does not change the wraparound value.
pub proof fn lemma_swrap64_of_mod(x: int)
    ensures
        swrap64(x % p64()) == swrap64(x),
{
    vstd::arithmetic::div_mod::lemma_mod_mod(x, p64(), 1);
    vstd::arithmetic::div_mod::lemma_small_mod((x % p64()) as nat, p64() as nat);
}

/// Values already in the signed range are fixed by wraparound.
pub proof fn lemma_swrap64_small(x: int)
    requires
        -h64() <= x < h64(),
    ensures
        swrap64(x) == x,
{
    if x >= 0 {
        vstd::arithmetic::div_mod::lemma_small_mod(x as nat, p64() as nat);
    } else {
        lemma_fundamental_div_mod_converse_mod(x, p64(), -1, x + p64());
    }
}

/// The truncating quotient's magnitude never exceeds the dividend's, so
/// for half-range bounds the only overflow is the minimum divided by
/// minus one.
pub proof fn lemma_tdiv_trem_div_bounds(a: int, b: int, h: int)
    requires
        b != 0,
        h >= 1,
        -h <= a < h,
        -h <= b < h,
    ensures
        -h <= tdiv(a, b) <= h,
        tdiv(a, b) == h ==> a == -h && b == -1,
        -h < trem(a, b) < h,
{
    let aa = if a >= 0 {
        a
    } else {
        -a
    };
    let ab = if b >= 0 {
        b
    } else {
        -b
    };
    let m = aa / ab;
    lemma_fundamental_div_mod(aa, ab);
    lemma_div_pos_is_pos(aa, ab);
    assert(m <= aa) by (nonlinear_arith)
        requires
            m * ab + aa % ab == aa && 0 <= aa % ab && ab >= 1 && m >= 0,
    ;
    if m == h {
        assert(ab == 1 && aa == h) by (nonlinear_arith)
            requires
                m * ab + aa % ab == aa && 0 <= aa % ab < ab && ab >= 1 && m == h && aa <= h && h
                    >= 1,
        ;
    }
    lemma_tdiv_trem_magnitudes(a, b);
}

} // verus!
