//! Word-level primitives shared by every integer width: carry/borrow chains
//! and the widening multiply, together with the powers of two that the
//! value models are written over.

use vstd::prelude::*;

verus! {

/// 2^32 as a mathematical integer.
pub open spec fn p32() -> int {
    0x1_0000_0000int
}

/// 2^64 as a mathematical integer.
pub open spec fn p64() -> int {
    0x1_0000_0000_0000_0000int
}

/// 2^96 as a mathematical integer.
pub open spec fn p96() -> int {
    0x1_0000_0000_0000_0000_0000_0000int
}

/// 2^128 as a mathematical integer.
pub open spec fn p128() -> int {
    0x1_0000_0000_0000_0000_0000_0000_0000_0000int
}

/// 2^192 as a mathematical integer.
pub open spec fn p192() -> int {
    0x1_0000_0000_0000_0000_0000_0000_0000_0000_0000_0000_0000_0000int
}

/// 2^256 as a mathematical integer.
pub open spec fn p256() -> int {
    0x1_0000_0000_0000_0000_0000_0000_0000_0000_0000_0000_0000_0000_0000_0000_0000_0000int
}

/// 2^320 as a mathematical integer.
pub open spec fn p320() -> int {
    0x1_0000_0000_0000_0000_0000_0000_0000_0000_0000_0000_0000_0000_0000_0000_0000_0000_0000_0000_0000_0000int
}

/// 2^32 as a 64-bit word, the radix of the 32-bit limb chain.
pub const RADIX32: u64 = 0x1_0000_0000;

/// 2^64 as a 128-bit word, the radix of the 64-bit limb chain.
pub const RADIX64: u128 = 0x1_0000_0000_0000_0000;

/// One step of a 64-bit limb addition chain: add two limbs and an incoming
/// carry bit, returning the low limb of the sum and the outgoing carry.
pub fn carry_add64(a: u64, b: u64, c: bool) -> (r: (u64, bool))
    ensures
        r.0 + (if r.1 { p64() } else { 0 }) == a + b + (if c { 1int } else { 0 }),
{
    let t: u128 = a as u128 + b as u128 + (if c { 1u128 } else { 0u128 });
    if t >= RADIX64 {
        ((t - RADIX64) as u64, true)
    } else {
        (t as u64, false)
    }
}

/// One step of a 64-bit limb subtraction chain: subtract a limb and an
/// incoming borrow bit, returning the low limb of the difference and the
/// outgoing borrow.
pub fn borrow_sub64(a: u64, b: u64, c: bool) -> (r: (u64, bool))
    ensures
        r.0 - (if r.1 { p64() } else { 0 }) == a - b - (if c { 1int } else { 0 }),
{
    let bc: u128 = b as u128 + (if c { 1u128 } else { 0u128 });
    if a as u128 >= bc {
        ((a as u128 - bc) as u64, false)
    } else {
        ((a as u128 + RADIX64 - bc) as u64, true)
    }
}

/// One step of a 32-bit limb addition chain.
pub fn carry_add32(a: u32, b: u32, c: bool) -> (r: (u32, bool))
    ensures
        r.0 + (if r.1 { p32() } else { 0 }) == a + b + (if c { 1int } else { 0 }),
{
    let t: u64 = a as u64 + b as u64 + (if c { 1u64 } else { 0u64 });
    if t >= RADIX32 {
        ((t - RADIX32) as u32, true)
    } else {
        (t as u32, false)
    }
}

/// One step of a 32-bit limb subtraction chain.
pub fn borrow_sub32(a: u32, b: u32, c: bool) -> (r: (u32, bool))
    ensures
        r.0 - (if r.1 { p32() } else { 0 }) == a - b - (if c { 1int } else { 0 }),
{
    let bc: u64 = b as u64 + (if c { 1u64 } else { 0u64 });
    if a as u64 >= bc {
        ((a as u64 - bc) as u32, false)
    } else {
        ((a as u64 + RADIX32 - bc) as u32, true)
    }
}

/// Overflowing 128-bit addition: the sum modulo 2^128 and whether the sum
/// wrapped. Used to fold several double-word partial products into one
/// column of a schoolbook multiplication.
pub fn add_u128_ovf(a: u128, b: u128) -> (r: (u128, bool))
    ensures
        r.0 + (if r.1 { p128() } else { 0 }) == a + b,
{
    if a <= u128::MAX - b {
        (a + b, false)
    } else {
        (a - (u128::MAX - b) - 1, true)
    }
}

/// Wrapping 128-bit subtraction: the difference modulo 2^128 and whether
/// it borrowed.
pub fn sub_u128_wrap(a: u128, b: u128) -> (r: (u128, bool))
    ensures
        r.0 - (if r.1 { p128() } else { 0 }) == a - b,
{
    if a >= b {
        (a - b, false)
    } else {
        (a + (u128::MAX - b) + 1, true)
    }
}

/// The product of two 64-bit words fits in a double word, with room for
/// an incoming carry limb on top.
pub proof fn lemma_u64_mul_fits(x: u64, y: u64)
    by (nonlinear_arith)
    ensures
        0 <= x * y,
        x * y <= p128() - 2 * p64() + 1,
        x * y < p128(),
{
}

/// Truncating (round toward zero) signed division, the convention native
/// signed integers follow.
pub open spec fn tdiv(a: int, b: int) -> int {
    let m = (if a >= 0 {
        a
    } else {
        -a
    }) / (if b >= 0 {
        b
    } else {
        -b
    });
    if (a >= 0) == (b >= 0) {
        m
    } else {
        -m
    }
}

/// The remainder that pairs with truncating division: it takes the sign
/// of the dividend.
pub open spec fn trem(a: int, b: int) -> int {
    a - tdiv(a, b) * b
}

/// What truncating division and remainder look like on magnitudes: the
/// quotient is the quotient of the absolute values with the sign of the
/// operand signs' agreement, and the remainder is the remainder of the
/// absolute values with the dividend's sign.
pub proof fn lemma_tdiv_trem_magnitudes(a: int, b: int)
    requires
        b != 0,
    ensures
        trem(a, b) == (if a >= 0 {
            a % (if b >= 0 {
                b
            } else {
                -b
            })
        } else {
            -((-a) % (if b >= 0 {
                b
            } else {
                -b
            }))
        }),
        0 <= (if a >= 0 {
            a
        } else {
            -a
        }) % (if b >= 0 {
            b
        } else {
            -b
        }) < (if b >= 0 {
            b
        } else {
            -b
        }),
{
    let aa = if a >= 0 {
        a
    } else {
        -a
    };
    let ab = if b >= 0 {
        b
    } else {
        -b
    };
    let q = aa / ab;
    let r = aa % ab;
    vstd::arithmetic::div_mod::lemma_fundamental_div_mod(aa, ab);
    vstd::arithmetic::div_mod::lemma_mod_pos_bound(aa, ab);
    vstd::arithmetic::div_mod::lemma_div_pos_is_pos(aa, ab);
    let t = tdiv(a, b);
    assert(trem(a, b) == a - t * b);
    if a >= 0 {
        if b >= 0 {
            assert(trem(a, b) == r) by (nonlinear_arith)
                requires
                    a == b * q + r && t == q && trem(a, b) == a - t * b,
            ;
        } else {
            assert(trem(a, b) == r) by (nonlinear_arith)
                requires
                    a == (-b) * q + r && t == -q && trem(a, b) == a - t * b,
            ;
        }
    } else {
        if b >= 0 {
            assert(trem(a, b) == -r) by (nonlinear_arith)
                requires
                    -a == b * q + r && t == -q && trem(a, b) == a - t * b,
            ;
        } else {
            assert(trem(a, b) == -r) by (nonlinear_arith)
                requires
                    -a == (-b) * q + r && t == q && trem(a, b) == a - t * b,
            ;
        }
    }
}

/// Truncating division and remainder written the way native hardware
/// reports them, case by sign; this is the shape the checked native
/// operations are specified in.
pub proof fn lemma_tdiv_trem_native_form(a: int, b: int)
    requires
        b != 0,
    ensures
        tdiv(a, b) == (if a == 0 {
            0int
        } else if a > 0 && b > 0 {
            a / b
        } else if a < 0 && b < 0 {
            (a * -1) / (b * -1)
        } else if a < 0 {
            ((a * -1) / b) * -1
        } else {
            (a / (b * -1)) * -1
        }),
        trem(a, b) == (if a == 0 {
            0int
        } else if a > 0 && b > 0 {
            a % b
        } else if a < 0 && b < 0 {
            ((a * -1) % (b * -1)) * -1
        } else if a < 0 {
            ((a * -1) % b) * -1
        } else {
            a % (b * -1)
        }),
{
    let aa = if a >= 0 {
        a
    } else {
        -a
    };
    let ab = if b >= 0 {
        b
    } else {
        -b
    };
    lemma_tdiv_trem_magnitudes(a, b);
    assert(a * -1 == -a && b * -1 == -b);
    if a == 0 {
        vstd::arithmetic::div_mod::lemma_basic_div(0, ab);
        vstd::arithmetic::div_mod::lemma_small_mod(0nat, ab as nat);
        assert(tdiv(a, b) == 0 || tdiv(a, b) == -(0int));
        assert(tdiv(a, b) * b == 0) by (nonlinear_arith)
            requires
                tdiv(a, b) == 0,
        ;
    } else {
        let m = aa / ab;
        assert((-m) * -1 == m && m * -1 == -m);
    }
}

/// How the radix powers multiply into one another; the default solver
/// does not evaluate products of named constants on its own.
pub proof fn lemma_radix_products()
    ensures
        p32() * p32() == p64(),
        p32() * p64() == p96(),
        p64() * p64() == p128(),
        p64() * p128() == p192(),
        p64() * p192() == p256(),
        p64() * p256() == p320(),
        p128() * p128() == p256(),
        p128() * p192() == p320(),
{
    assert(p32() * p32() == p64() && p32() * p64() == p96() && p64() * p64() == p128() && p64()
        * p128() == p192() && p64() * p192() == p256() && p64() * p256() == p320() && p128()
        * p128() == p256() && p128() * p192() == p320()) by (nonlinear_arith)
        requires
            p32() == 0x1_0000_0000int,
            p64() == 0x1_0000_0000_0000_0000int,
            p96() == 0x1_0000_0000_0000_0000_0000_0000int,
            p128() == 0x1_0000_0000_0000_0000_0000_0000_0000_0000int,
            p192() == 0x1_0000_0000_0000_0000_0000_0000_0000_0000_0000_0000_0000_0000int,
            p256() == 0x1_0000_0000_0000_0000_0000_0000_0000_0000_0000_0000_0000_0000_0000_0000_0000_0000int,
            p320() == 0x1_0000_0000_0000_0000_0000_0000_0000_0000_0000_0000_0000_0000_0000_0000_0000_0000_0000_0000_0000_0000int,
    ;
}

/// The product of two two-digit numbers, column by column.
pub proof fn lemma_mul_expand_2(a0: int, a1: int, b0: int, b1: int, k: int)
    ensures
        (a0 + a1 * k) * (b0 + b1 * k) == a0 * b0 + (a0 * b1 + a1 * b0) * k + (a1 * b1) * (k * k),
{
    assert((a0 + a1 * k) * (b0 + b1 * k) == a0 * (b0 + b1 * k) + (a1 * k) * (b0 + b1 * k))
        by (nonlinear_arith);
    assert(a0 * (b0 + b1 * k) == a0 * b0 + (a0 * b1) * k) by (nonlinear_arith);
    assert((a1 * k) * (b0 + b1 * k) == (a1 * b0) * k + (a1 * b1) * (k * k)) by (nonlinear_arith);
    assert((a0 * b1) * k + (a1 * b0) * k == (a0 * b1 + a1 * b0) * k) by (nonlinear_arith);
}

/// A value assembled as `lo + hi * k` with `lo` below `k` splits back into
/// exactly those digits.
pub proof fn lemma_limb_split(lo: int, hi: int, k: int)
    requires
        k > 0,
        0 <= lo < k,
        0 <= hi,
    ensures
        (lo + hi * k) % k == lo,
        (lo + hi * k) / k == hi,
{
    vstd::arithmetic::div_mod::lemma_fundamental_div_mod_converse(lo + hi * k, k, hi, lo);
}

/// Full 64x64 -> 128 bit multiply built from four 32x32 -> 64 partial
/// products, returning (high word, low word). This is the schoolbook
/// widening multiply that every wider width reduces to.
pub fn mul_u64_full(a: u64, b: u64) -> (r: (u64, u64))
    ensures
        r.0 * p64() + r.1 == a * b,
{
    let a0 = a % RADIX32;
    let a1 = a / RADIX32;
    let b0 = b % RADIX32;
    let b1 = b / RADIX32;

    proof {
        assert(a0 * b0 < p64() && a0 * b1 < p64() && a1 * b0 < p64() && a1 * b1 < p64())
            by (nonlinear_arith)
            requires
                0 <= a0 < p32() && 0 <= a1 < p32() && 0 <= b0 < p32() && 0 <= b1 < p32(),
        ;
    }
    let p0 = a0 * b0;
    let p1 = a0 * b1;
    let p2 = a1 * b0;
    let p3 = a1 * b1;

    proof {
        assert((a1 * p32() + a0) * (b1 * p32() + b0) == (a1 * b1) * p64() + (a0 * b1) * p32()
            + (a1 * b0) * p32() + a0 * b0) by (nonlinear_arith);
        assert(a * b == p3 * p64() + (p1 + p2) * p32() + p0) by (nonlinear_arith)
            requires
                a == a1 * p32() + a0 && b == b1 * p32() + b0 && p0 == a0 * b0 && p1 == a0 * b1
                    && p2 == a1 * b0 && p3 == a1 * b1,
        ;
    }

    // middle column: the two cross products, with their own carry
    let (middle, cm) = carry_add64(p1, p2, false);
    let middle_lo = middle % RADIX32;
    let middle_hi = middle / RADIX32;

    // low word: p0 plus the low half of the middle column
    let (low, cl) = carry_add64(p0, middle_lo * RADIX32, false);

    // high word: everything that carries past bit 64
    let ghost hi_val: int = p3 + middle_hi + (if cm { p32() } else { 0int }) + (if cl {
        1int
    } else {
        0int
    });
    proof {
        assert((p1 + p2) * p32() == (middle + (if cm { p64() } else { 0int })) * p32());
        assert(middle * p32() == middle_hi * p64() + middle_lo * p32()) by (nonlinear_arith)
            requires
                middle == middle_hi * p32() + middle_lo,
        ;
        assert(p64() * p32() == p96());
        assert((if cm { p64() } else { 0int }) * p32() == (if cm { p96() } else { 0int }));
        assert(hi_val * p64() + low == a * b) by (nonlinear_arith)
            requires
                a * b == p3 * p64() + (p1 + p2) * p32() + p0 && (p1 + p2) * p32() == middle_hi
                    * p64() + middle_lo * p32() + (if cm { p96() } else { 0int }) && low + (if cl {
                    p64()
                } else {
                    0int
                }) == p0 + middle_lo * p32() && hi_val == p3 + middle_hi + (if cm {
                    p32()
                } else {
                    0int
                }) + (if cl { 1int } else { 0int }),
        ;
        assert(a * b < p128()) by (nonlinear_arith)
            requires
                0 <= a < p64() && 0 <= b < p64(),
        ;
        assert(hi_val < p64()) by (nonlinear_arith)
            requires
                hi_val * p64() + low == a * b && a * b < p128() && low >= 0,
        ;
    }
    let high = p3 + middle_hi + (if cm { RADIX32 } else { 0u64 }) + (if cl { 1u64 } else { 0u64 });

    (high, low)
}

} // verus!
