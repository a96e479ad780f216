//! 256-bit unsigned integer stored as four 64-bit limbs, least significant
//! first, with wraparound arithmetic and exact division.

use vstd::prelude::*;

use crate::limb::{
    add_u128_ovf, borrow_sub64, carry_add64, lemma_limb_split, lemma_u64_mul_fits, p128, p192,
    p256, p64, RADIX64,
};
use crate::shift::{lemma_shl_limb, lemma_shr_limb, lz64, pow2_64};
use vstd::arithmetic::div_mod::{
    lemma_fundamental_div_mod, lemma_fundamental_div_mod_converse,
    lemma_fundamental_div_mod_converse_mod,
};
use vstd::arithmetic::power2::{lemma2_to64, lemma2_to64_rest, lemma_pow2_adds, pow2};

verus! {

/// 256-bit unsigned integer stored as four 64-bit limbs.
///
/// `l0` holds bits 0-63 (least significant) and `l3` bits 192-255; the
/// value is the little-endian limb sum `l0 + l1*2^64 + l2*2^128 + l3*2^192`.
/// Every bit pattern is a distinct valid value.
#[derive(Debug, Clone, Copy, PartialEq, Eq, Structural)]
pub struct Uint256 {
    pub l0: u64,
    pub l1: u64,
    pub l2: u64,
    pub l3: u64,
}

impl Uint256 {
    /// The numeric value of the limb sequence.
    pub open spec fn as_int(self) -> int {
        self.l0 + self.l1 * p64() + self.l2 * p128() + self.l3 * p192()
    }

    /// The limb representation of a value in `[0, 2^256)`.
    pub open spec fn of_int(n: int) -> Uint256 {
        Uint256 {
            l0: (n % p64()) as u64,
            l1: ((n / p64()) % p64()) as u64,
            l2: ((n / p128()) % p64()) as u64,
            l3: ((n / p192()) % p64()) as u64,
        }
    }

    /// The value of any limb pattern lies in `[0, 2^256)`.
    pub proof fn lemma_as_int_bounds(self)
        ensures
            0 <= self.as_int() < p256(),
    {
    }

    /// The limb digits of a pattern are exactly the base-2^64 digits of its
    /// value, so distinct patterns have distinct values.
    pub proof fn lemma_limb_digits(self)
        ensures
            self.as_int() % p64() == self.l0,
            (self.as_int() / p64()) % p64() == self.l1,
            (self.as_int() / p128()) % p64() == self.l2,
            (self.as_int() / p192()) % p64() == self.l3,
            Uint256::of_int(self.as_int()) == self,
    {
        let v = self.as_int();
        let r1 = self.l1 + self.l2 * p64() + self.l3 * p128();
        let r2 = self.l2 + self.l3 * p64();
        assert(v == self.l0 + r1 * p64()) by (nonlinear_arith)
            requires
                v == self.l0 + self.l1 * p64() + self.l2 * p128() + self.l3 * p192() && r1
                    == self.l1 + self.l2 * p64() + self.l3 * p128(),
        ;
        lemma_limb_split(self.l0 as int, r1, p64());
        assert(r1 == self.l1 + r2 * p64()) by (nonlinear_arith)
            requires
                r1 == self.l1 + self.l2 * p64() + self.l3 * p128() && r2 == self.l2 + self.l3
                    * p64(),
        ;
        lemma_limb_split(self.l1 as int, r2, p64());
        lemma_limb_split(self.l2 as int, self.l3 as int, p64());
        // v / p128 == r2 and v / p192 == l3 via dividing twice by p64
        vstd::arithmetic::div_mod::lemma_div_denominator(v, p64(), p64());
        vstd::arithmetic::div_mod::lemma_div_denominator(v, p128(), p64());
        assert(v / p128() == r2);
        assert(v / p192() == self.l3);
    }

    /// `of_int` really does invert `as_int` on `[0, 2^256)`.
    pub proof fn lemma_of_int_as_int(n: int)
        ensures
            0 <= n < p256() ==> Uint256::of_int(n).as_int() == n,
    {
        if 0 <= n < p256() {
            let x = Uint256::of_int(n);
            lemma_fundamental_div_mod(n, p64());
            lemma_fundamental_div_mod(n / p64(), p64());
            lemma_fundamental_div_mod(n / p128(), p64());
            vstd::arithmetic::div_mod::lemma_div_denominator(n, p64(), p64());
            vstd::arithmetic::div_mod::lemma_div_denominator(n, p128(), p64());
            assert(n / p192() < p64());
            assert(x.as_int() == n % p64() + ((n / p64()) % p64()) * p64() + ((n / p128()) % p64())
                * p128() + (n / p192()) * p192());
            assert(x.as_int() == n) by (nonlinear_arith)
                requires
                    x.as_int() == n % p64() + ((n / p64()) % p64()) * p64() + ((n / p128()) % p64())
                        * p128() + (n / p192()) * p192() && n % p64() == n - (n / p64()) * p64() && (
                    n / p64()) % p64() == n / p64() - (n / p128()) * p64() && (n / p128()) % p64()
                        == n / p128() - (n / p192()) * p64() && p128() == p64() * p64() && p192()
                        == p128() * p64(),
            ;
        }
    }

    /// The all-zero value.
    pub fn zero() -> (r: Self)
        ensures
            r.as_int() == 0,
    {
        Uint256 { l0: 0, l1: 0, l2: 0, l3: 0 }
    }

    /// The largest 256-bit value, 2^256 - 1.
    pub fn max_value() -> (r: Self)
        ensures
            r.as_int() == p256() - 1,
    {
        Uint256 { l0: u64::MAX, l1: u64::MAX, l2: u64::MAX, l3: u64::MAX }
    }

    /// Whether the value is zero.
    pub fn is_zero(&self) -> (r: bool)
        ensures
            r == (self.as_int() == 0),
    {
        proof {
            self.lemma_as_int_bounds();
        }
        self.l0 == 0 && self.l1 == 0 && self.l2 == 0 && self.l3 == 0
    }

    /// Addition modulo 2^256: a strict least-to-most-significant carry chain.
    pub fn wrapping_add(self, rhs: Self) -> (r: Self)
        ensures
            r.as_int() == (self.as_int() + rhs.as_int()) % p256(),
    {
        let (l0, c0) = carry_add64(self.l0, rhs.l0, false);
        let (l1, c1) = carry_add64(self.l1, rhs.l1, c0);
        let (l2, c2) = carry_add64(self.l2, rhs.l2, c1);
        let (l3, c3) = carry_add64(self.l3, rhs.l3, c2);
        let r = Uint256 { l0, l1, l2, l3 };
        proof {
            let q: int = if c3 {
                1
            } else {
                0
            };
            assert(r.as_int() + q * p256() == self.as_int() + rhs.as_int());
            lemma_fundamental_div_mod_converse_mod(
                self.as_int() + rhs.as_int(),
                p256(),
                q,
                r.as_int(),
            );
        }
        r
    }

    /// Subtraction modulo 2^256: a strict least-to-most-significant borrow
    /// chain.
    pub fn wrapping_sub(self, rhs: Self) -> (r: Self)
        ensures
            r.as_int() == (self.as_int() - rhs.as_int()) % p256(),
    {
        let (l0, b0) = borrow_sub64(self.l0, rhs.l0, false);
        let (l1, b1) = borrow_sub64(self.l1, rhs.l1, b0);
        let (l2, b2) = borrow_sub64(self.l2, rhs.l2, b1);
        let (l3, b3) = borrow_sub64(self.l3, rhs.l3, b2);
        let r = Uint256 { l0, l1, l2, l3 };
        proof {
            let q: int = if b3 {
                -1
            } else {
                0
            };
            assert(r.as_int() + q * p256() == self.as_int() - rhs.as_int());
            lemma_fundamental_div_mod_converse_mod(
                self.as_int() - rhs.as_int(),
                p256(),
                q,
                r.as_int(),
            );
        }
        r
    }

    /// Unsigned comparison, most significant limb first.
    pub fn lt(&self, rhs: &Self) -> (r: bool)
        ensures
            r == (self.as_int() < rhs.as_int()),
    {
        if self.l3 != rhs.l3 {
            self.l3 < rhs.l3
        } else if self.l2 != rhs.l2 {
            self.l2 < rhs.l2
        } else if self.l1 != rhs.l1 {
            self.l1 < rhs.l1
        } else {
            self.l0 < rhs.l0
        }
    }

    /// Unsigned `<=`, most significant limb first.
    pub fn le(&self, rhs: &Self) -> (r: bool)
        ensures
            r == (self.as_int() <= rhs.as_int()),
    {
        !rhs.lt(self)
    }

    /// Number of leading zero bits, scanning limbs from the most
    /// significant end: the unique `r` with `2^(255-r) <= value < 2^(256-r)`,
    /// or 256 for zero.
    pub fn leading_zeros(&self) -> (r: u32)
        ensures
            self.as_int() == 0 ==> r == 256,
            self.as_int() != 0 ==> r <= 255 && pow2((255 - r) as nat) <= self.as_int() < pow2(
                (256 - r) as nat,
            ),
    {
        proof {
            lemma2_to64();
            lemma2_to64_rest();
            lemma_pow2_adds(64, 64);
            lemma_pow2_adds(64, 128);
        }
        if self.l3 != 0 {
            let z = lz64(self.l3);
            proof {
                lemma_pow2_adds((63 - z) as nat, 192);
                lemma_pow2_adds((64 - z) as nat, 192);
                assert(pow2(192) == p192());
                assert(self.as_int() >= self.l3 * p192() >= pow2((63 - z) as nat) * pow2(192))
                    by (nonlinear_arith)
                    requires
                        self.as_int() >= self.l3 * p192() && self.l3 >= pow2((63 - z) as nat)
                            && p192() == pow2(192),
                ;
                assert(self.as_int() < (self.l3 + 1) * p192() <= pow2((64 - z) as nat) * pow2(192))
                    by (nonlinear_arith)
                    requires
                        self.as_int() < (self.l3 + 1) * p192() && self.l3 + 1 <= pow2(
                            (64 - z) as nat,
                        ) && p192() == pow2(192),
                ;
            }
            z
        } else if self.l2 != 0 {
            let z = lz64(self.l2);
            proof {
                lemma_pow2_adds((63 - z) as nat, 128);
                lemma_pow2_adds((64 - z) as nat, 128);
                assert(pow2(128) == p128());
                assert(self.as_int() >= self.l2 * p128() >= pow2((63 - z) as nat) * pow2(128))
                    by (nonlinear_arith)
                    requires
                        self.as_int() >= self.l2 * p128() && self.l2 >= pow2((63 - z) as nat)
                            && p128() == pow2(128),
                ;
                assert(self.as_int() < (self.l2 + 1) * p128() <= pow2((64 - z) as nat) * pow2(128))
                    by (nonlinear_arith)
                    requires
                        self.as_int() < (self.l2 + 1) * p128() && self.l2 + 1 <= pow2(
                            (64 - z) as nat,
                        ) && p128() == pow2(128),
                ;
            }
            64 + z
        } else if self.l1 != 0 {
            let z = lz64(self.l1);
            proof {
                lemma_pow2_adds((63 - z) as nat, 64);
                lemma_pow2_adds((64 - z) as nat, 64);
                assert(pow2(64) == p64());
                assert(self.as_int() >= self.l1 * p64() >= pow2((63 - z) as nat) * pow2(64))
                    by (nonlinear_arith)
                    requires
                        self.as_int() >= self.l1 * p64() && self.l1 >= pow2((63 - z) as nat)
                            && p64() == pow2(64),
                ;
                assert(self.as_int() < (self.l1 + 1) * p64() <= pow2((64 - z) as nat) * pow2(64))
                    by (nonlinear_arith)
                    requires
                        self.as_int() < (self.l1 + 1) * p64() && self.l1 + 1 <= pow2(
                            (64 - z) as nat,
                        ) && p64() == pow2(64),
                ;
            }
            128 + z
        } else {
            let z = lz64(self.l0);
            if self.l0 == 0 {
                256
            } else {
                192 + z
            }
        }
    }

    /// Shift left by at most a limb, returning five limbs so that no bit is
    /// lost; division normalization relies on the exact widened value.
    pub fn shl_wide(&self, b: u32) -> (r: (u64, u64, u64, u64, u64))
        requires
            b <= 63,
        ensures
            r.0 + r.1 * p64() + r.2 * p128() + r.3 * p192() + r.4 * p256() == self.as_int() * pow2(
                b as nat,
            ),
            r.4 < pow2(b as nat),
    {
        let m = pow2_64(b);
        proof {
            lemma_shl_limb(self.l0, b as nat);
            lemma_shl_limb(self.l1, b as nat);
            lemma_shl_limb(self.l2, b as nat);
            lemma_shl_limb(self.l3, b as nat);
        }
        let t0 = (self.l0 as u128) * (m as u128);
        let t1 = (self.l1 as u128) * (m as u128);
        let t2 = (self.l2 as u128) * (m as u128);
        let t3 = (self.l3 as u128) * (m as u128);
        let lo0 = (t0 % RADIX64) as u64;
        let hi0 = (t0 / RADIX64) as u64;
        let lo1 = (t1 % RADIX64) as u64;
        let hi1 = (t1 / RADIX64) as u64;
        let lo2 = (t2 % RADIX64) as u64;
        let hi2 = (t2 / RADIX64) as u64;
        let lo3 = (t3 % RADIX64) as u64;
        let hi3 = (t3 / RADIX64) as u64;
        let r = (lo0, lo1 + hi0, lo2 + hi1, lo3 + hi2, hi3);
        proof {
            lemma_row_times_digit(
                self.l0 as int,
                self.l1 as int,
                self.l2 as int,
                self.l3 as int,
                m as int,
                p64(),
            );
            assert(self.as_int() * m == t0 + (t1 as int) * p64() + (t2 as int) * p128() + (
            t3 as int) * p192());
            assert(t0 == lo0 + hi0 * p64());
            assert(t1 == lo1 + hi1 * p64());
            assert(t2 == lo2 + hi2 * p64());
            assert(t3 == lo3 + hi3 * p64());
            assert(r.0 + r.1 * p64() + r.2 * p128() + r.3 * p192() + r.4 * p256() == self.as_int()
                * m);
        }
        r
    }

    /// Shift left by `n` bits: limb-granularity moves for whole-limb
    /// amounts, sub-limb bits propagated across limb boundaries, zero once
    /// the amount reaches the width.
    pub fn shl_u32(self, n: u32) -> (r: Self)
        ensures
            r.as_int() == (self.as_int() * pow2(n as nat)) % p256(),
    {
        proof {
            lemma_pow2_adds(64, 64);
            lemma_pow2_adds(64, 128);
            lemma_pow2_adds(64, 192);
            lemma2_to64();
            lemma2_to64_rest();
        }
        if n >= 256 {
            proof {
                lemma_pow2_adds(256, (n - 256) as nat);
                assert(self.as_int() * pow2(n as nat) == (self.as_int() * pow2((n - 256) as nat))
                    * p256()) by (nonlinear_arith)
                    requires
                        pow2(n as nat) == pow2(256) * pow2((n - 256) as nat) && p256() == pow2(256),
                ;
                vstd::arithmetic::div_mod::lemma_mod_multiples_basic(
                    self.as_int() * pow2((n - 256) as nat),
                    p256(),
                );
            }
            Uint256 { l0: 0, l1: 0, l2: 0, l3: 0 }
        } else {
            let f = n / 64;
            let b = n % 64;
            let (t0, t1, t2, t3, t4) = self.shl_wide(b);
            let ghost w: int = self.as_int() * pow2(b as nat);
            proof {
                lemma_pow2_adds(b as nat, (64 * f) as nat);
                assert(n == 64 * f + b);
            }
            if f == 0 {
                let r = Uint256 { l0: t0, l1: t1, l2: t2, l3: t3 };
                proof {
                    lemma_fundamental_div_mod_converse_mod(w, p256(), t4 as int, r.as_int());
                }
                r
            } else if f == 1 {
                let r = Uint256 { l0: 0, l1: t0, l2: t1, l3: t2 };
                proof {
                    assert(self.as_int() * pow2(n as nat) == w * pow2(64)) by (nonlinear_arith)
                        requires
                            w == self.as_int() * pow2(b as nat) && pow2(n as nat) == pow2(
                                b as nat,
                            ) * pow2(64),
                    ;
                    assert(w * pow2(64) == (t3 + t4 * p64()) * p256() + r.as_int());
                    lemma_fundamental_div_mod_converse_mod(
                        w * pow2(64),
                        p256(),
                        t3 + t4 * p64(),
                        r.as_int(),
                    );
                }
                r
            } else if f == 2 {
                let r = Uint256 { l0: 0, l1: 0, l2: t0, l3: t1 };
                proof {
                    assert(self.as_int() * pow2(n as nat) == w * pow2(128)) by (nonlinear_arith)
                        requires
                            w == self.as_int() * pow2(b as nat) && pow2(n as nat) == pow2(
                                b as nat,
                            ) * pow2(128),
                    ;
                    assert(w * pow2(128) == (t2 + t3 * p64() + t4 * p128()) * p256() + r.as_int());
                    lemma_fundamental_div_mod_converse_mod(
                        w * pow2(128),
                        p256(),
                        t2 + t3 * p64() + t4 * p128(),
                        r.as_int(),
                    );
                }
                r
            } else {
                let r = Uint256 { l0: 0, l1: 0, l2: 0, l3: t0 };
                proof {
                    assert(self.as_int() * pow2(n as nat) == w * pow2(192)) by (nonlinear_arith)
                        requires
                            w == self.as_int() * pow2(b as nat) && pow2(n as nat) == pow2(
                                b as nat,
                            ) * pow2(192),
                    ;
                    assert(w * pow2(192) == (t1 + t2 * p64() + t3 * p128() + t4 * p192()) * p256()
                        + r.as_int());
                    lemma_fundamental_div_mod_converse_mod(
                        w * pow2(192),
                        p256(),
                        t1 + t2 * p64() + t3 * p128() + t4 * p192(),
                        r.as_int(),
                    );
                }
                r
            }
        }
    }


    /// Logical shift right by `n` bits: the value divided by 2^n, with
    /// zeros filling from the top.
    pub fn shr_u32(self, n: u32) -> (r: Self)
        ensures
            r.as_int() == self.as_int() / (pow2(n as nat) as int),
    {
        proof {
            lemma2_to64();
            lemma2_to64_rest();
            lemma_pow2_adds(64, 64);
            lemma_pow2_adds(64, 128);
            crate::limb::lemma_radix_products();
        }
        if n >= 256 {
            proof {
                self.lemma_as_int_bounds();
                lemma_pow2_adds(256, (n - 256) as nat);
                vstd::arithmetic::power2::lemma_pow2_pos((n - 256) as nat);
                assert(pow2(256) == p256()) by {
                    lemma_pow2_adds(128, 128);
                }
                assert(pow2(n as nat) >= p256()) by (nonlinear_arith)
                    requires
                        pow2(n as nat) == pow2(256) * pow2((n - 256) as nat) && pow2(256) == p256()
                            && pow2((n - 256) as nat) >= 1,
                ;
                vstd::arithmetic::div_mod::lemma_basic_div(self.as_int(), pow2(n as nat) as int);
            }
            return Uint256 { l0: 0, l1: 0, l2: 0, l3: 0 };
        }
        let f = n / 64;
        let b = n % 64;
        // sub-limb shift first: bits move down within and across limbs
        let (t0, t1, t2, t3) = if b == 0 {
            proof {
                assert(pow2(0) == 1);
            }
            (self.l0, self.l1, self.l2, self.l3)
        } else {
            let m = pow2_64(b);
            let minv = pow2_64(64 - b);
            proof {
                lemma_pow2_adds(b as nat, (64 - b) as nat);
                lemma_fundamental_div_mod(self.l0 as int, m as int);
                lemma_fundamental_div_mod(self.l1 as int, m as int);
                lemma_fundamental_div_mod(self.l2 as int, m as int);
                lemma_fundamental_div_mod(self.l3 as int, m as int);
                lemma_shr_limb(self.l0, self.l1, b as nat);
                lemma_shr_limb(self.l1, self.l2, b as nat);
                lemma_shr_limb(self.l2, self.l3, b as nat);
            }
            let t0 = self.l0 / m + (self.l1 % m) * minv;
            let t1 = self.l1 / m + (self.l2 % m) * minv;
            let t2 = self.l2 / m + (self.l3 % m) * minv;
            let t3 = self.l3 / m;
            proof {
                let mi = m as int;
                let q0 = (self.l0 as int) / mi;
                let q1 = (self.l1 as int) / mi;
                let q2 = (self.l2 as int) / mi;
                let q3 = (self.l3 as int) / mi;
                let w: int = t0 + t1 * p64() + t2 * p128() + t3 * p192();
                // each output limb, scaled back up by m, recovers one input
                // limb's quotient piece plus the bits passed downward
                assert(t0 * mi == q0 * mi + ((self.l1 as int) % mi) * p64()) by (nonlinear_arith)
                    requires
                        t0 == q0 + ((self.l1 as int) % mi) * minv && minv * mi == p64(),
                ;
                assert((t1 * mi) * p64() == (q1 * mi) * p64() + (((self.l2 as int) % mi) * p64())
                    * p64()) by (nonlinear_arith)
                    requires
                        t1 == q1 + ((self.l2 as int) % mi) * minv && minv * mi == p64(),
                ;
                assert((t2 * mi) * p128() == (q2 * mi) * p128() + (((self.l3 as int) % mi)
                    * p128()) * p64()) by (nonlinear_arith)
                    requires
                        t2 == q2 + ((self.l3 as int) % mi) * minv && minv * mi == p64(),
                ;
                assert(w * mi == (t0 * mi) + (t1 * mi) * p64() + (t2 * mi) * p128() + (q3 * mi)
                    * p192()) by (nonlinear_arith)
                    requires
                        w == t0 + t1 * p64() + t2 * p128() + t3 * p192() && t3 == q3 && p128()
                            == p64() * p64() && p192() == p128() * p64(),
                ;
                assert(self.l0 == q0 * mi + (self.l0 as int) % mi) by (nonlinear_arith)
                    requires
                        self.l0 == mi * q0 + (self.l0 as int) % mi,
                ;
                assert(self.l1 * p64() == (q1 * mi) * p64() + ((self.l1 as int) % mi) * p64())
                    by (nonlinear_arith)
                    requires
                        self.l1 == mi * q1 + (self.l1 as int) % mi,
                ;
                assert(self.l2 * p128() == (q2 * mi) * p128() + (((self.l2 as int) % mi) * p64())
                    * p64()) by (nonlinear_arith)
                    requires
                        self.l2 == mi * q2 + (self.l2 as int) % mi && p128() == p64() * p64(),
                ;
                assert(self.l3 * p192() == (q3 * mi) * p192() + (((self.l3 as int) % mi) * p128())
                    * p64()) by (nonlinear_arith)
                    requires
                        self.l3 == mi * q3 + (self.l3 as int) % mi && p192() == p128() * p64(),
                ;
                assert(w * mi + (self.l0 as int) % mi == self.as_int());
                lemma_fundamental_div_mod_converse(
                    self.as_int(),
                    m as int,
                    w,
                    (self.l0 as int) % (m as int),
                );
            }
            (t0, t1, t2, t3)
        };
        let ghost w: int = t0 + t1 * p64() + t2 * p128() + t3 * p192();
        proof {
            assert(w == self.as_int() / (pow2(b as nat) as int));
            lemma_pow2_adds(b as nat, (64 * f) as nat);
            vstd::arithmetic::div_mod::lemma_div_denominator(
                self.as_int(),
                pow2(b as nat) as int,
                pow2((64 * f) as nat) as int,
            );
            assert(pow2(b as nat) * pow2((64 * f) as nat) == pow2(n as nat));
        }
        // then drop whole limbs
        let r = if f == 0 {
            Uint256 { l0: t0, l1: t1, l2: t2, l3: t3 }
        } else if f == 1 {
            proof {
                lemma_fundamental_div_mod_converse(w, p64(), t1 + t2 * p64() + t3 * p128(), t0 as int);
            }
            Uint256 { l0: t1, l1: t2, l2: t3, l3: 0 }
        } else if f == 2 {
            proof {
                lemma_fundamental_div_mod_converse(w, p128(), t2 + t3 * p64(), t0 + t1 * p64());
            }
            Uint256 { l0: t2, l1: t3, l2: 0, l3: 0 }
        } else {
            proof {
                lemma_fundamental_div_mod_converse(w, p192(), t3 as int, t0 + t1 * p64() + t2 * p128());
            }
            Uint256 { l0: t3, l1: 0, l2: 0, l3: 0 }
        };
        proof {
            assert(pow2(0) == 1);
            assert(pow2(64) == p64() && pow2(128) == p128() && pow2(192) == p192());
        }
        r
    }

    /// Multiplication modulo 2^256. The original design selects between
    /// this portable column multiplication and a scheduled assembly twin
    /// that must stay bit-identical to it; only the portable path can be
    /// verified, so it is the one the library runs.
    pub fn wrapping_mul(self, rhs: Self) -> (r: Self)
        ensures
            r.as_int() == (self.as_int() * rhs.as_int()) % p256(),
    {
        self.mul_portable(rhs)
    }

    /// Schoolbook columns of double-word partial products, with the
    /// overflow of each column sum folded into the next column and the top
    /// column's overflow discarded.
    pub fn mul_portable(self, rhs: Self) -> (r: Self)
        ensures
            r.as_int() == (self.as_int() * rhs.as_int()) % p256(),
    {
        let (a0, a1, a2, a3) = (self.l0, self.l1, self.l2, self.l3);
        let (b0, b1, b2, b3) = (rhs.l0, rhs.l1, rhs.l2, rhs.l3);
        proof {
            lemma_u64_mul_fits(a0, b0);
            lemma_u64_mul_fits(a0, b1);
            lemma_u64_mul_fits(a1, b0);
            lemma_u64_mul_fits(a0, b2);
            lemma_u64_mul_fits(a1, b1);
            lemma_u64_mul_fits(a2, b0);
            lemma_u64_mul_fits(a0, b3);
            lemma_u64_mul_fits(a1, b2);
            lemma_u64_mul_fits(a2, b1);
            lemma_u64_mul_fits(a3, b0);
        }

        // column 0: a single product, no overflow possible
        let p00 = (a0 as u128) * (b0 as u128);
        let r0 = (p00 % RADIX64) as u64;
        let c0: u128 = p00 / RADIX64;
        proof {
            lemma_fundamental_div_mod(p00 as int, p64());
        }

        // column 1: two products plus the carry, overflow counted
        let p01 = (a0 as u128) * (b1 as u128);
        let p10 = (a1 as u128) * (b0 as u128);
        let (s1, o1a) = add_u128_ovf(c0, p01);
        let (col1, o1b) = add_u128_ovf(s1, p10);
        let r1 = (col1 % RADIX64) as u64;
        let ovf1: u128 = (if o1a {
            1u128
        } else {
            0u128
        }) + (if o1b {
            1u128
        } else {
            0u128
        });
        let c1: u128 = col1 / RADIX64 + ovf1 * RADIX64;
        proof {
            lemma_fundamental_div_mod(col1 as int, p64());
            assert(r1 + c1 * p64() == c0 + p01 + p10) by (nonlinear_arith)
                requires
                    col1 == r1 + (col1 / RADIX64) * p64() && c1 == col1 / RADIX64 + ovf1 * p64()
                        && col1 + ovf1 * p128() == c0 + p01 + p10 && p128() == p64() * p64(),
            ;
        }

        // column 2: three products plus the carry, overflow counted
        let p02 = (a0 as u128) * (b2 as u128);
        let p11 = (a1 as u128) * (b1 as u128);
        let p20 = (a2 as u128) * (b0 as u128);
        let (s2a, o2a) = add_u128_ovf(c1, p02);
        let (s2b, o2b) = add_u128_ovf(s2a, p11);
        let (col2, o2c) = add_u128_ovf(s2b, p20);
        let r2 = (col2 % RADIX64) as u64;
        let ovf2: u128 = (if o2a {
            1u128
        } else {
            0u128
        }) + (if o2b {
            1u128
        } else {
            0u128
        }) + (if o2c {
            1u128
        } else {
            0u128
        });
        let c2: u128 = col2 / RADIX64 + ovf2 * RADIX64;
        proof {
            lemma_fundamental_div_mod(col2 as int, p64());
            assert(r2 + c2 * p64() == c1 + p02 + p11 + p20) by (nonlinear_arith)
                requires
                    col2 == r2 + (col2 / RADIX64) * p64() && c2 == col2 / RADIX64 + ovf2 * p64()
                        && col2 + ovf2 * p128() == c1 + p02 + p11 + p20 && p128() == p64() * p64(),
            ;
        }

        // column 3: only the low 64 bits are kept, overflow discarded
        let p03 = (a0 as u128) * (b3 as u128);
        let p12 = (a1 as u128) * (b2 as u128);
        let p21 = (a2 as u128) * (b1 as u128);
        let p30 = (a3 as u128) * (b0 as u128);
        let t3: u128 = (c2 % RADIX64) + (p03 % RADIX64) + (p12 % RADIX64) + (p21 % RADIX64) + (p30
            % RADIX64);
        let r3 = (t3 % RADIX64) as u64;
        let ghost k3: int = c2 as int / p64() + p03 as int / p64() + p12 as int / p64() + p21 as int
            / p64() + p30 as int / p64() + t3 as int / p64();
        proof {
            lemma_fundamental_div_mod(c2 as int, p64());
            lemma_fundamental_div_mod(p03 as int, p64());
            lemma_fundamental_div_mod(p12 as int, p64());
            lemma_fundamental_div_mod(p21 as int, p64());
            lemma_fundamental_div_mod(p30 as int, p64());
            lemma_fundamental_div_mod(t3 as int, p64());
            assert(r3 == c2 + p03 + p12 + p21 + p30 - k3 * p64());
        }

        let r = Uint256 { l0: r0, l1: r1, l2: r2, l3: r3 };
        proof {
            let av = self.as_int();
            let bv = rhs.as_int();
            lemma_mul_expand_256(a0, a1, a2, a3, b0, b1, b2, b3);
            let s0: int = a0 * b0;
            let s1: int = a0 * b1 + a1 * b0;
            let s2: int = a0 * b2 + a1 * b1 + a2 * b0;
            let s3: int = a0 * b3 + a1 * b2 + a2 * b1 + a3 * b0;
            let hi: int = a1 * b3 + a2 * b2 + a3 * b1 + (a2 * b3 + a3 * b2) * p64() + (a3 * b3)
                * p128();
            assert(p00 == s0 && p01 + p10 == s1 && p02 + p11 + p20 == s2 && p03 + p12 + p21 + p30
                == s3);
            // carry the per-column equations up to the full value
            assert(r0 + r1 * p64() + r2 * p128() + c2 * p192() == s0 + s1 * p64() + s2 * p128());
            assert(r.as_int() == s0 + s1 * p64() + s2 * p128() + s3 * p192() - k3 * p256());
            assert(av * bv == r.as_int() + (hi + k3) * p256());
            r.lemma_as_int_bounds();
            lemma_fundamental_div_mod_converse_mod(av * bv, p256(), hi + k3, r.as_int());
        }
        r
    }
}

/// The full product of two four-limb values, written column by column: the
/// diagonal sums `s_k` collect the partial products with `i + j == k`, and
/// everything from column four up is a multiple of 2^256.
/// A four-digit row times a single digit, expanded term by term.
pub(crate) proof fn lemma_row_times_digit(a0: int, a1: int, a2: int, a3: int, b: int, k: int)
    by (nonlinear_arith)
    ensures
        (a0 + a1 * k + a2 * (k * k) + a3 * (k * k * k)) * b == a0 * b + (a1 * b) * k + (a2 * b) * (
        k * k) + (a3 * b) * (k * k * k),
{
}

/// A four-term row shifted up by one digit position.
proof fn lemma_row_shift1(c0: int, c1: int, c2: int, c3: int, k: int)
    by (nonlinear_arith)
    ensures
        (c0 + c1 * k + c2 * (k * k) + c3 * (k * k * k)) * k == c0 * k + c1 * (k * k) + c2 * (k * k
            * k) + c3 * (k * k * k * k),
{
}

/// A four-term row shifted up by two digit positions.
proof fn lemma_row_shift2(c0: int, c1: int, c2: int, c3: int, k: int)
    by (nonlinear_arith)
    ensures
        (c0 + c1 * k + c2 * (k * k) + c3 * (k * k * k)) * (k * k) == c0 * (k * k) + c1 * (k * k * k)
            + c2 * (k * k * k * k) + c3 * (k * k * k * k * k),
{
}

/// A four-term row shifted up by three digit positions.
proof fn lemma_row_shift3(c0: int, c1: int, c2: int, c3: int, k: int)
    by (nonlinear_arith)
    ensures
        (c0 + c1 * k + c2 * (k * k) + c3 * (k * k * k)) * (k * k * k) == c0 * (k * k * k) + c1 * (k
            * k * k * k) + c2 * (k * k * k * k * k) + c3 * (k * k * k * k * k * k),
{
}

/// A value distributed over a four-part sum.
proof fn lemma_distribute4(x: int, w0: int, w1: int, w2: int, w3: int)
    by (nonlinear_arith)
    ensures
        x * (w0 + w1 + w2 + w3) == x * w0 + x * w1 + x * w2 + x * w3,
{
}

/// The full product of two four-limb values, written column by column: the
/// diagonal sums collect the partial products with `i + j == k`, and
/// everything from column four up is a multiple of 2^256.
pub proof fn lemma_mul_expand_256(a0: u64, a1: u64, a2: u64, a3: u64, b0: u64, b1: u64, b2: u64, b3: u64)
    ensures
        (a0 + a1 * p64() + a2 * p128() + a3 * p192()) * (b0 + b1 * p64() + b2 * p128() + b3
            * p192()) == a0 * b0 + (a0 * b1 + a1 * b0) * p64() + (a0 * b2 + a1 * b1 + a2 * b0)
            * p128() + (a0 * b3 + a1 * b2 + a2 * b1 + a3 * b0) * p192() + (a1 * b3 + a2 * b2 + a3
            * b1 + (a2 * b3 + a3 * b2) * p64() + (a3 * b3) * p128()) * p256(),
{
    let k: int = 0x1_0000_0000_0000_0000int;
    let a: int = a0 + a1 * k + a2 * (k * k) + a3 * (k * k * k);
    assert(a == a0 + a1 * p64() + a2 * p128() + a3 * p192());
    lemma_distribute4(a, b0 as int, b1 * k, b2 * (k * k), b3 * (k * k * k));
    vstd::arithmetic::mul::lemma_mul_is_associative(a, b1 as int, k);
    vstd::arithmetic::mul::lemma_mul_is_associative(a, b2 as int, k * k);
    vstd::arithmetic::mul::lemma_mul_is_associative(a, b3 as int, k * k * k);
    lemma_row_times_digit(a0 as int, a1 as int, a2 as int, a3 as int, b0 as int, k);
    lemma_row_times_digit(a0 as int, a1 as int, a2 as int, a3 as int, b1 as int, k);
    lemma_row_times_digit(a0 as int, a1 as int, a2 as int, a3 as int, b2 as int, k);
    lemma_row_times_digit(a0 as int, a1 as int, a2 as int, a3 as int, b3 as int, k);
    lemma_row_shift1(a0 * b1, a1 * b1, a2 * b1, a3 * b1, k);
    lemma_row_shift2(a0 * b2, a1 * b2, a2 * b2, a3 * b2, k);
    lemma_row_shift3(a0 * b3, a1 * b3, a2 * b3, a3 * b3, k);
}

} // verus!
