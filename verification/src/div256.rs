//! Division helpers: hardware-width steps, Knuth-style quotient-digit
//! estimation with correction, and the multiply-subtract / add-back limb
//! chains the general divider is built from.

use vstd::prelude::*;

use crate::limb::{borrow_sub64, carry_add64, lemma_u64_mul_fits, p128, p192, p256, p320, p64,
    RADIX64};
use crate::shift::{lz64, pow2_128, pow2_64};
use crate::uint256::{lemma_row_times_digit, Uint256};
use vstd::arithmetic::div_mod::{
    lemma_div_pos_is_pos, lemma_fundamental_div_mod, lemma_fundamental_div_mod_converse,
};
use vstd::arithmetic::power2::{lemma2_to64, lemma2_to64_rest, lemma_pow2_adds, lemma_pow2_pos,
    pow2};

verus! {

broadcast use vstd::arithmetic::mul::lemma_mul_is_commutative,
    vstd::arithmetic::div_mod::lemma_mod_pos_bound;

/// Dividing numerator and divisor by a common power leaves the quotient
/// unchanged; normalization in the divider relies on this.
pub proof fn lemma_div_common_factor(a: int, d: int, m: int)
    requires
        a >= 0,
        d >= 1,
        m >= 1,
    ensures
        (a * m) / (d * m) == a / d,
{
    let q = a / d;
    let r = a % d;
    lemma_fundamental_div_mod(a, d);
    lemma_div_pos_is_pos(a, d);
    assert(a * m == q * (d * m) + r * m && 0 <= r * m && r * m < d * m) by (nonlinear_arith)
        requires
            a == d * q + r && 0 <= r && r < d && m >= 1,
    ;
    lemma_fundamental_div_mod_converse(a * m, d * m, q, r * m);
}

/// The initial quotient-digit guess from the top divisor limb never
/// underestimates the true digit. `s` is the scale of the top limb `dh`
/// within `d`, and `n2` the window's top two digits.
proof fn lemma_digit_estimate_ge(u: int, d: int, dh: int, s: int, n2: int, qhat: int)
    requires
        s > 0,
        dh >= 1,
        dh * s <= d,
        0 <= u,
        u < d * p64(),
        n2 == u / s,
        qhat == p64() - 1 || qhat == n2 / dh,
    ensures
        u / d <= qhat,
{
    assert(d >= 1) by (nonlinear_arith)
        requires
            dh >= 1 && s > 0 && dh * s <= d,
    ;
    let q = u / d;
    let r = u % d;
    lemma_fundamental_div_mod(u, d);
    lemma_div_pos_is_pos(u, d);
    assert(q < p64()) by (nonlinear_arith)
        requires
            u == d * q + r && 0 <= r && u < d * p64() && d >= 1 && q >= 0,
    ;
    if qhat != p64() - 1 {
        lemma_fundamental_div_mod(u, s);
        lemma_div_pos_is_pos(u, s);
        lemma_fundamental_div_mod(n2, dh);
        assert(q <= qhat) by (nonlinear_arith)
            requires
                u == d * q + r && 0 <= r,
                u == s * n2 + u % s && 0 <= u % s && u % s < s,
                n2 == dh * qhat + n2 % dh && 0 <= n2 % dh && n2 % dh < dh,
                dh * s <= d,
                s > 0 && dh >= 1 && q >= 0 && qhat >= 0,
        ;
    }
}

/// Once the two-limb refinement test passes, the guess is at most one
/// above the true digit. `d2` is the divisor's top two limbs at scale
/// `s2`; normalization makes `d2` at least a full limb, which bounds the
/// error.
proof fn lemma_digit_estimate_le(u: int, d: int, d2: int, s2: int, qhat: int)
    requires
        s2 > 0,
        d2 >= p64(),
        d2 * s2 <= d,
        d < (d2 + 1) * s2,
        0 <= u,
        u < d * p64(),
        qhat * d2 <= u / s2,
        qhat >= 0,
    ensures
        qhat <= u / d + 1,
{
    assert(d >= 1) by (nonlinear_arith)
        requires
            d2 >= p64() && s2 > 0 && d2 * s2 <= d,
    ;
    let q = u / d;
    let r = u % d;
    let n3 = u / s2;
    let r3 = u % s2;
    lemma_fundamental_div_mod(u, d);
    lemma_div_pos_is_pos(u, d);
    lemma_fundamental_div_mod(u, s2);
    assert(q < p64()) by (nonlinear_arith)
        requires
            u == d * q + r && 0 <= r && u < d * p64() && d >= 1 && q >= 0,
    ;
    assert(qhat <= q + 1) by (nonlinear_arith)
        requires
            u == d * q + r && 0 <= r && r < d,
            u == s2 * n3 + r3 && 0 <= r3,
            qhat * d2 <= n3,
            d < (d2 + 1) * s2,
            d2 >= p64() && s2 > 0 && 0 <= q && q < p64() && qhat >= 0,
    ;
}

/// While the refinement test fails, the guess is strictly above the true
/// digit, so decrementing it is safe.
proof fn lemma_digit_estimate_gt(u: int, d: int, d2: int, s2: int, qhat: int)
    requires
        s2 > 0,
        d > 0,
        d2 >= 0,
        d2 * s2 <= d,
        0 <= u,
        qhat * d2 >= u / s2 + 1,
        qhat >= 0,
    ensures
        u / d < qhat,
{
    let q = u / d;
    let n3 = u / s2;
    lemma_fundamental_div_mod(u, d);
    lemma_div_pos_is_pos(u, d);
    lemma_fundamental_div_mod(u, s2);
    assert(q < qhat) by (nonlinear_arith)
        requires
            u == d * q + u % d && 0 <= u % d,
            u == s2 * n3 + u % s2 && 0 <= u % s2 && u % s2 < s2,
            n3 + 1 <= qhat * d2,
            d2 * s2 <= d,
            s2 > 0 && d > 0 && q >= 0 && qhat >= 0 && d2 >= 0,
    ;
}

/// One Knuth quotient digit: a first guess from the top remainder and
/// divisor limbs, capped at the largest limb value, then refined by
/// comparing against the second divisor limb until the guess is at most
/// one too large. When the divisor is exactly its top two limbs the test
/// is exact and no later correction is needed.
///
/// `u` is the value of the current remainder window, `d` the normalized
/// divisor, and `s2` the scale of the divisor's top two limbs `dh`, `ds`.
fn estimate_digit(
    n2: u128,
    dh: u64,
    ds: u64,
    next: u64,
    Ghost(u): Ghost<int>,
    Ghost(d): Ghost<int>,
    Ghost(s2): Ghost<int>,
) -> (qhat: u64)
    requires
        dh >= 0x8000_0000_0000_0000,
        s2 > 0,
        (dh * p64() + ds) * s2 <= d,
        d < (dh * p64() + ds + 1) * s2,
        0 <= u,
        u < d * p64(),
        n2 == u / (s2 * p64()),
        u / s2 == n2 * p64() + next,
    ensures
        u / d <= qhat,
        qhat <= u / d + 1,
        d == (dh * p64() + ds) * s2 ==> qhat == u / d,
{
    let ghost d2: int = dh * p64() + ds;
    proof {
        assert(s2 * p64() > 0) by (nonlinear_arith)
            requires
                s2 > 0,
        ;
        assert(d >= 1) by (nonlinear_arith)
            requires
                dh >= 1 && s2 > 0 && d2 == dh * p64() + ds && d2 * s2 <= d && ds >= 0,
        ;
        lemma_fundamental_div_mod(u, s2 * p64());
        lemma_div_pos_is_pos(u, s2 * p64());
        assert(dh * (s2 * p64()) <= d) by (nonlinear_arith)
            requires
                (dh * p64() + ds) * s2 <= d && ds >= 0 && s2 > 0 && dh >= 0,
        ;
    }
    let r_hi = (n2 / RADIX64) as u64;
    proof {
        lemma_fundamental_div_mod(n2 as int, p64());
    }
    let mut qhat: u64 = if r_hi >= dh {
        proof {
            assert((p64() - 1) * dh <= n2) by (nonlinear_arith)
                requires
                    n2 == p64() * r_hi + (n2 as int) % p64() && 0 <= (n2 as int) % p64() && r_hi >= dh && dh >= 1,
            ;
            lemma_digit_estimate_ge(u, d, dh as int, s2 * p64(), n2 as int, p64() - 1);
        }
        u64::MAX
    } else {
        proof {
            assert(n2 < dh * p64()) by (nonlinear_arith)
                requires
                    n2 == p64() * r_hi + (n2 as int) % p64() && (n2 as int) % p64() < p64() && r_hi <= dh - 1,
            ;
            lemma_fundamental_div_mod(n2 as int, dh as int);
            lemma_div_pos_is_pos(n2 as int, dh as int);
            let qi = (n2 as int) / (dh as int);
            assert(qi < p64() && qi * dh <= n2) by (nonlinear_arith)
                requires
                    n2 == dh * qi + (n2 as int) % (dh as int) && 0 <= (n2 as int) % (dh as int) && n2 < dh * p64()
                        && dh >= 1 && qi >= 0,
            ;
            lemma_digit_estimate_ge(u, d, dh as int, s2 * p64(), n2 as int, qi);
        }
        (n2 / (dh as u128)) as u64
    };
    loop
        invariant_except_break
            dh >= 0x8000_0000_0000_0000,
            s2 > 0,
            d2 == dh * p64() + ds,
            d2 * s2 <= d,
            d < (d2 + 1) * s2,
            d >= 1,
            0 <= u,
            u < d * p64(),
            n2 == u / (s2 * p64()),
            u / s2 == n2 * p64() + next,
            u / d <= qhat,
            qhat * dh <= n2,
        ensures
            u / d <= qhat,
            qhat <= u / d + 1,
            d == d2 * s2 ==> qhat == u / d,
        decreases qhat,
    {
        let rhat128: u128 = n2 - (qhat as u128) * (dh as u128);
        let passed: bool = if rhat128 >= RADIX64 {
            proof {
                // a remainder of a full limb outweighs any second-limb product
                assert(qhat * d2 <= n2 * p64()) by (nonlinear_arith)
                    requires
                        d2 == dh * p64() + ds && n2 - qhat * dh >= p64() && qhat < p64() && ds
                            < p64() && qhat >= 0 && ds >= 0 && dh >= 0,
                ;
            }
            true
        } else {
            let rhat = rhat128 as u64;
            proof {
                lemma_u64_mul_fits(qhat, ds);
            }
            let left: u128 = (qhat as u128) * (ds as u128);
            let right: u128 = (rhat as u128) * RADIX64 + (next as u128);
            if left <= right {
                proof {
                    assert(qhat * d2 <= n2 * p64() + next) by (nonlinear_arith)
                        requires
                            d2 == dh * p64() + ds && qhat * ds <= (n2 - qhat * dh) * p64() + next,
                    ;
                }
                true
            } else {
                proof {
                    assert(qhat * d2 >= n2 * p64() + next + 1) by (nonlinear_arith)
                        requires
                            d2 == dh * p64() + ds && qhat * ds > (n2 - qhat * dh) * p64() + next,
                    ;
                }
                false
            }
        };
        if passed {
            proof {
                assert(qhat * d2 <= u / s2);
                lemma_digit_estimate_le(u, d, d2, s2, qhat as int);
                if d == d2 * s2 {
                    lemma_fundamental_div_mod(u, s2);
                    lemma_div_pos_is_pos(u, s2);
                    assert(qhat * d <= u) by (nonlinear_arith)
                        requires
                            qhat * d2 <= u / s2 && u == s2 * (u / s2) + u % s2 && 0 <= u % s2 && d
                                == d2 * s2 && s2 > 0 && qhat >= 0 && d2 >= 0 && u / s2 >= 0,
                    ;
                    lemma_fundamental_div_mod(u, d);
                    lemma_div_pos_is_pos(u, d);
                    assert(qhat <= u / d) by (nonlinear_arith)
                        requires
                            qhat * d <= u && u == d * (u / d) + u % d && u % d < d && d >= 1 && qhat
                                >= 0 && u / d >= 0,
                    ;
                }
            }
            break ;
        }
        proof {
            lemma_digit_estimate_gt(u, d, d2, s2, qhat as int);
            lemma_div_pos_is_pos(u, d);
            assert((qhat - 1) * dh <= qhat * dh) by (nonlinear_arith)
                requires
                    dh >= 0,
            ;
        }
        qhat = qhat - 1;
    }
    qhat
}


/// A product of two limbs leaves a carry of at most a limb minus one.
proof fn lemma_prod_div_bound(pr: int)
    requires
        0 <= pr,
        pr <= p128() - 2 * p64() + 1,
    ensures
        pr / p64() <= p64() - 2,
{
    lemma_fundamental_div_mod(pr, p64());
    lemma_div_pos_is_pos(pr, p64());
    assert(pr / p64() <= p64() - 2) by (nonlinear_arith)
        requires
            pr == p64() * (pr / p64()) + pr % p64() && 0 <= pr % p64() && pr <= p128() - 2
                * p64() + 1 && pr / p64() >= 0,
    ;
}

/// A product of two limbs plus an incoming carry still leaves a carry of
/// at most a limb minus one.
proof fn lemma_prod_carry_div_bound(pr: int)
    requires
        0 <= pr,
        pr <= p128() - p64(),
    ensures
        pr / p64() <= p64() - 1,
{
    lemma_fundamental_div_mod(pr, p64());
    lemma_div_pos_is_pos(pr, p64());
    assert(pr / p64() <= p64() - 1) by (nonlinear_arith)
        requires
            pr == p64() * (pr / p64()) + pr % p64() && 0 <= pr % p64() && pr <= p128() - p64()
                && pr / p64() >= 0,
    ;
}

/// Subtract `qhat` times the four-limb divisor from a five-limb remainder
/// window; the flag reports whether the subtraction borrowed past the top,
/// which happens exactly when the product exceeds the window.
fn sub_mul_limbs(w: (u64, u64, u64, u64, u64), d: &Uint256, qhat: u64) -> (out: (
    (u64, u64, u64, u64, u64),
    bool,
))
    ensures
        out.0.0 + out.0.1 * p64() + out.0.2 * p128() + out.0.3 * p192() + out.0.4 * p256() - (
        if out.1 {
            p320()
        } else {
            0int
        }) == (w.0 + w.1 * p64() + w.2 * p128() + w.3 * p192() + w.4 * p256()) - qhat * d.as_int(),
        out.1 <==> (w.0 + w.1 * p64() + w.2 * p128() + w.3 * p192() + w.4 * p256()) < qhat
            * d.as_int(),
{
    proof {
        lemma_u64_mul_fits(qhat, d.l0);
        lemma_u64_mul_fits(qhat, d.l1);
        lemma_u64_mul_fits(qhat, d.l2);
        lemma_u64_mul_fits(qhat, d.l3);
    }
    let pr0: u128 = (qhat as u128) * (d.l0 as u128);
    let (o0, b0) = borrow_sub64(w.0, (pr0 % RADIX64) as u64, false);
    proof {
        assert(pr0 == qhat * d.l0);
        lemma_prod_div_bound(pr0 as int);
        assert(pr0 / RADIX64 <= p64() - 2);
    }
    let c0: u128 = pr0 / RADIX64 + (if b0 {
        1u128
    } else {
        0u128
    });
    let m1: u128 = (qhat as u128) * (d.l1 as u128);
    let pr1: u128 = m1 + c0;
    let (o1, b1) = borrow_sub64(w.1, (pr1 % RADIX64) as u64, false);
    proof {
        lemma_prod_carry_div_bound(pr1 as int);
    }
    let c1: u128 = pr1 / RADIX64 + (if b1 {
        1u128
    } else {
        0u128
    });
    let m2: u128 = (qhat as u128) * (d.l2 as u128);
    let pr2: u128 = m2 + c1;
    let (o2, b2) = borrow_sub64(w.2, (pr2 % RADIX64) as u64, false);
    proof {
        lemma_prod_carry_div_bound(pr2 as int);
    }
    let c2: u128 = pr2 / RADIX64 + (if b2 {
        1u128
    } else {
        0u128
    });
    let m3: u128 = (qhat as u128) * (d.l3 as u128);
    let pr3: u128 = m3 + c2;
    let (o3, b3) = borrow_sub64(w.3, (pr3 % RADIX64) as u64, false);
    proof {
        lemma_prod_carry_div_bound(pr3 as int);
    }
    let c3: u128 = pr3 / RADIX64 + (if b3 {
        1u128
    } else {
        0u128
    });
    let t: u128 = w.4 as u128;
    let (o4, borrow) = if t >= c3 {
        (((t - c3) as u64), false)
    } else {
        (((t + RADIX64 - c3) as u64), true)
    };
    proof {
        lemma_fundamental_div_mod(pr0 as int, p64());
        lemma_fundamental_div_mod(pr1 as int, p64());
        lemma_fundamental_div_mod(pr2 as int, p64());
        lemma_fundamental_div_mod(pr3 as int, p64());
        lemma_row_times_digit(d.l0 as int, d.l1 as int, d.l2 as int, d.l3 as int, qhat as int, p64());
        let win = w.0 + w.1 * p64() + w.2 * p128() + w.3 * p192() + w.4 * p256();
        let res = o0 + o1 * p64() + o2 * p128() + o3 * p192() + o4 * p256();
        let qd = qhat * d.as_int();
        assert(qd == qhat * d.l0 + (qhat * d.l1) * p64() + (qhat * d.l2) * p128() + (qhat * d.l3)
            * p192());
        assert(res - (if borrow {
            p320()
        } else {
            0int
        }) == win - qd);
        assert(0 <= res < p320());
    }
    ((o0, o1, o2, o3, o4), borrow)
}

/// Subtract `qhat` times a three-limb divisor from a four-limb remainder
/// window; the flag reports a borrow past the top.
fn sub_mul_limbs_3(w: (u64, u64, u64, u64), d: &Uint256, qhat: u64) -> (out: (
    (u64, u64, u64, u64),
    bool,
))
    requires
        d.l3 == 0,
    ensures
        out.0.0 + out.0.1 * p64() + out.0.2 * p128() + out.0.3 * p192() - (if out.1 {
            p256()
        } else {
            0int
        }) == (w.0 + w.1 * p64() + w.2 * p128() + w.3 * p192()) - qhat * d.as_int(),
        out.1 <==> (w.0 + w.1 * p64() + w.2 * p128() + w.3 * p192()) < qhat * d.as_int(),
{
    proof {
        lemma_u64_mul_fits(qhat, d.l0);
        lemma_u64_mul_fits(qhat, d.l1);
        lemma_u64_mul_fits(qhat, d.l2);
    }
    let pr0: u128 = (qhat as u128) * (d.l0 as u128);
    let (o0, b0) = borrow_sub64(w.0, (pr0 % RADIX64) as u64, false);
    proof {
        assert(pr0 == qhat * d.l0);
        lemma_prod_div_bound(pr0 as int);
        assert(pr0 / RADIX64 <= p64() - 2);
    }
    let c0: u128 = pr0 / RADIX64 + (if b0 {
        1u128
    } else {
        0u128
    });
    let m1: u128 = (qhat as u128) * (d.l1 as u128);
    let pr1: u128 = m1 + c0;
    let (o1, b1) = borrow_sub64(w.1, (pr1 % RADIX64) as u64, false);
    proof {
        lemma_prod_carry_div_bound(pr1 as int);
    }
    let c1: u128 = pr1 / RADIX64 + (if b1 {
        1u128
    } else {
        0u128
    });
    let m2: u128 = (qhat as u128) * (d.l2 as u128);
    let pr2: u128 = m2 + c1;
    let (o2, b2) = borrow_sub64(w.2, (pr2 % RADIX64) as u64, false);
    proof {
        lemma_prod_carry_div_bound(pr2 as int);
    }
    let c2: u128 = pr2 / RADIX64 + (if b2 {
        1u128
    } else {
        0u128
    });
    let t: u128 = w.3 as u128;
    let (o3, borrow) = if t >= c2 {
        (((t - c2) as u64), false)
    } else {
        (((t + RADIX64 - c2) as u64), true)
    };
    proof {
        lemma_fundamental_div_mod(pr0 as int, p64());
        lemma_fundamental_div_mod(pr1 as int, p64());
        lemma_fundamental_div_mod(pr2 as int, p64());
        lemma_row_times_digit(d.l0 as int, d.l1 as int, d.l2 as int, 0int, qhat as int, p64());
        let win = w.0 + w.1 * p64() + w.2 * p128() + w.3 * p192();
        let res = o0 + o1 * p64() + o2 * p128() + o3 * p192();
        let qd = qhat * d.as_int();
        assert(qd == qhat * d.l0 + (qhat * d.l1) * p64() + (qhat * d.l2) * p128());
        assert(res - (if borrow {
            p256()
        } else {
            0int
        }) == win - qd);
        assert(0 <= res < p256());
    }
    ((o0, o1, o2, o3), borrow)
}

/// Add a three-limb divisor back into a four-limb window after the
/// multiply-subtract step borrowed; the carry off the top exactly cancels
/// the earlier borrow.
fn add_back_limbs_3(w: (u64, u64, u64, u64), d: &Uint256) -> (out: ((u64, u64, u64, u64), bool))
    requires
        d.l3 == 0,
    ensures
        out.0.0 + out.0.1 * p64() + out.0.2 * p128() + out.0.3 * p192() + (if out.1 {
            p256()
        } else {
            0int
        }) == (w.0 + w.1 * p64() + w.2 * p128() + w.3 * p192()) + d.as_int(),
{
    let (o0, c0) = carry_add64(w.0, d.l0, false);
    let (o1, c1) = carry_add64(w.1, d.l1, c0);
    let (o2, c2) = carry_add64(w.2, d.l2, c1);
    let (o3, c3) = carry_add64(w.3, 0, c2);
    ((o0, o1, o2, o3), c3)
}

/// Add the four-limb divisor back into a five-limb window after the
/// multiply-subtract step borrowed; the carry off the top exactly cancels
/// the earlier borrow.
fn add_back_limbs(w: (u64, u64, u64, u64, u64), d: &Uint256) -> (out: (
    (u64, u64, u64, u64, u64),
    bool,
))
    ensures
        out.0.0 + out.0.1 * p64() + out.0.2 * p128() + out.0.3 * p192() + out.0.4 * p256() + (
        if out.1 {
            p320()
        } else {
            0int
        }) == (w.0 + w.1 * p64() + w.2 * p128() + w.3 * p192() + w.4 * p256()) + d.as_int(),
{
    let (o0, c0) = carry_add64(w.0, d.l0, false);
    let (o1, c1) = carry_add64(w.1, d.l1, c0);
    let (o2, c2) = carry_add64(w.2, d.l2, c1);
    let (o3, c3) = carry_add64(w.3, d.l3, c2);
    let (o4, c4) = carry_add64(w.4, 0, c3);
    ((o0, o1, o2, o3, o4), c4)
}

/// Divide a double word by a single word when the quotient fits in one
/// word, returning quotient and remainder. The limb-by-limb long division
/// path is a chain of this step.
pub fn div_u128_by_u64(n: u128, d: u64) -> (r: (u64, u64))
    requires
        d > 0,
        n < d * p64(),
    ensures
        r.0 == (n as int) / (d as int),
        r.1 == (n as int) % (d as int),
{
    let q = n / (d as u128);
    let rem = n % (d as u128);
    proof {
        lemma_fundamental_div_mod(n as int, d as int);
        lemma_div_pos_is_pos(n as int, d as int);
        let qi = (n as int) / (d as int);
        assert(qi < p64()) by (nonlinear_arith)
            requires
                n == d * qi + (n as int) % (d as int) && 0 <= (n as int) % (d as int) && n < d
                    * p64() && d >= 1 && qi >= 0,
        ;
    }
    (q as u64, rem as u64)
}


/// One exact division step of a three-digit window by a two-limb
/// normalized divisor `dh:dl`: the estimated digit needs no later
/// correction, so the remainder can be taken modulo 2^128 directly.
fn digit_step(n2: u128, next: u64, dh: u64, dl: u64, Ghost(w): Ghost<int>) -> (r: (u64, u128))
    requires
        dh >= 0x8000_0000_0000_0000,
        w == n2 * p64() + next,
        n2 < dh * p64() + dl,
    ensures
        r.0 == w / (dh * p64() + dl),
        r.1 == w % (dh * p64() + dl),
{
    let ghost dnv: int = dh * p64() + dl;
    proof {
        lemma_fundamental_div_mod_converse(w, p64(), n2 as int, next as int);
        lemma_fundamental_div_mod_converse(w, 1, w, 0);
        assert(w < dnv * p64()) by (nonlinear_arith)
            requires
                w == n2 * p64() + next && n2 <= dnv - 1 && next < p64(),
        ;
    }
    let q = estimate_digit(n2, dh, dl, next, Ghost(w), Ghost(dnv), Ghost(1int));
    // remainder modulo 2^128; the true remainder is below the divisor, so
    // nothing is lost to the wraparound
    let w1low: u128 = (n2 % RADIX64) * RADIX64 + (next as u128);
    proof {
        lemma_u64_mul_fits(q, dl);
        lemma_u64_mul_fits(q, dh);
        lemma_fundamental_div_mod(n2 as int, p64());
    }
    let sub_lo: u128 = (q as u128) * (dl as u128);
    let sub_hi: u128 = (q as u128) * (dh as u128);
    let (subv, _sov) = crate::limb::add_u128_ovf(sub_lo, (sub_hi % RADIX64) * RADIX64);
    let (rem, _rb) = crate::limb::sub_u128_wrap(w1low, subv);
    proof {
        lemma_fundamental_div_mod(w, dnv);
        lemma_div_pos_is_pos(w, dnv);
        lemma_fundamental_div_mod(sub_hi as int, p64());
        assert(q * dnv == sub_lo + sub_hi * p64()) by (nonlinear_arith)
            requires
                dnv == dh * p64() + dl && sub_lo == q * dl && sub_hi == q * dh,
        ;
        assert(rem == w % dnv);
    }
    (q, rem)
}

/// Divide the normalized 256-bit value `hi:lo` by a double-word divisor
/// with `hi < d`, so that the quotient fits in a double word: normalize,
/// then two exact Knuth digit steps.
pub fn div_u256_by_u128(hi: u128, lo: u128, d: u128) -> (q: u128)
    requires
        d >= RADIX64,
        hi < d,
    ensures
        q == (hi * p128() + lo) / (d as int),
{
    let ghost nval: int = hi * p128() + lo;
    if hi == 0 {
        proof {
            assert(nval == lo);
        }
        return lo / d;
    }
    // normalize so the divisor's top limb has its high bit set
    let top = (d / RADIX64) as u64;
    proof {
        lemma_fundamental_div_mod(d as int, p64());
        assert(top >= 1) by (nonlinear_arith)
            requires
                d == p64() * top + (d as int) % p64() && (d as int) % p64() < p64() && d >= p64(),
        ;
    }
    let shift = lz64(top);
    let m = pow2_64(shift);
    proof {
        lemma2_to64();
        lemma2_to64_rest();
        lemma_pow2_pos(shift as nat);
        lemma_pow2_adds((64 - shift) as nat, shift as nat);
        lemma_pow2_adds((63 - shift) as nat, shift as nat);
        assert(d < pow2((64 - shift) as nat) * p64()) by (nonlinear_arith)
            requires
                d == p64() * top + (d as int) % p64() && (d as int) % p64() < p64() && top + 1
                    <= pow2((64 - shift) as nat),
        ;
        assert(d * m < p128()) by (nonlinear_arith)
            requires
                d < pow2((64 - shift) as nat) * p64() && m == pow2(shift as nat) && pow2(
                    (64 - shift) as nat,
                ) * pow2(shift as nat) == pow2(64) && pow2(64) == p64() && p64() * p64() == p128()
                    && m >= 1 && d >= 0,
        ;
    }
    let d_norm: u128 = d * (m as u128);
    let dh = (d_norm / RADIX64) as u64;
    let dl = (d_norm % RADIX64) as u64;
    proof {
        lemma_fundamental_div_mod(d_norm as int, p64());
        assert(d_norm >= pow2(63) * p64()) by (nonlinear_arith)
            requires
                d >= p64() * top && top >= pow2((63 - shift) as nat) && m == pow2(shift as nat)
                    && pow2((63 - shift) as nat) * pow2(shift as nat) == pow2(63) && d_norm == d
                    * m && m >= 1 && p64() > 0,
        ;
        assert(dh >= 0x8000_0000_0000_0000) by (nonlinear_arith)
            requires
                d_norm == p64() * dh + (d_norm as int) % p64() && (d_norm as int) % p64() < p64()
                    && d_norm >= pow2(63) * p64() && pow2(63) == 0x8000_0000_0000_0000,
        ;
        assert(d_norm == dh * p64() + dl);
    }
    // normalized numerator, split into its top two and low two digits
    let ghost nn: int = nval * m;
    let (n2, n1) = normalize_numerator(hi, lo, m, shift, Ghost(d as int));
    let nn1 = (n1 / RADIX64) as u64;
    let nn0 = (n1 % RADIX64) as u64;
    let ghost w1: int = n2 * p64() + nn1;
    proof {
        lemma_fundamental_div_mod(n1 as int, p64());
        assert(nn == w1 * p64() + nn0);
        lemma_fundamental_div_mod_converse(nn, p64(), w1, nn0 as int);
    }
    let (q1, rem1) = digit_step(n2, nn1, dh, dl, Ghost(w1));
    let ghost w2: int = rem1 * p64() + nn0;
    let (q0, _rem2) = digit_step(rem1, nn0, dh, dl, Ghost(w2));
    let q: u128 = (q1 as u128) * RADIX64 + (q0 as u128);
    proof {
        let dnv: int = d_norm as int;
        lemma_fundamental_div_mod(w1, dnv);
        lemma_fundamental_div_mod(w2, dnv);
        lemma_div_pos_is_pos(w1, dnv);
        let rem2 = w2 % dnv;
        assert(nn == (q1 * p64() + q0) * dnv + rem2) by (nonlinear_arith)
            requires
                nn == w1 * p64() + nn0 && w1 == dnv * q1 + rem1 && w2 == rem1 * p64() + nn0 && w2
                    == dnv * q0 + rem2 && rem1 == w1 % dnv,
        ;
        lemma_fundamental_div_mod_converse(nn, dnv, q1 * p64() + q0, rem2);
        lemma_div_common_factor(nval, d as int, m as int);
        assert(q == q1 * p64() + q0);
    }
    q
}

/// Shift the 256-bit numerator `hi:lo` left into its normalized digit
/// form: the top two digits in one double word and the low two in
/// another. `m` is the normalization factor 2^shift and the divisor bound
/// guarantees nothing spills past 2^128 in the top half.
fn normalize_numerator(hi: u128, lo: u128, m: u64, shift: u32, Ghost(d): Ghost<int>) -> (r: (
    u128,
    u128,
))
    requires
        shift <= 63,
        m == pow2(shift as nat),
        hi <= d - 1,
        d * m < p128(),
        d >= 1,
    ensures
        r.0 * p128() + r.1 == (hi * p128() + lo) * m,
        r.0 < d * m,
{
    if shift == 0 {
        proof {
            lemma2_to64();
            assert(m == 1);
            assert(hi * p128() + lo == (hi * p128() + lo) * m);
            assert(hi * m == hi);
        }
        (hi, lo)
    } else {
        let minv = pow2_128((128 - shift) as u32);
        proof {
            lemma2_to64();
            lemma2_to64_rest();
            lemma_pow2_adds((128 - shift) as nat, shift as nat);
            lemma_pow2_adds(64, 64);
            lemma_pow2_pos((128 - shift) as nat);
            assert(pow2(128) == pow2(64) * pow2(64));
            assert(pow2(128) == p128());
            lemma_fundamental_div_mod(lo as int, minv as int);
            lemma_div_pos_is_pos(lo as int, minv as int);
            assert(minv * m == p128()) by (nonlinear_arith)
                requires
                    minv == pow2((128 - shift) as nat) && m == pow2(shift as nat) && pow2(
                        (128 - shift) as nat,
                    ) * pow2(shift as nat) == pow2(128) && pow2(128) == p128(),
            ;
            assert((lo as int) / (minv as int) < m) by (nonlinear_arith)
                requires
                    lo == minv * ((lo as int) / (minv as int)) + (lo as int) % (minv as int) && 0
                        <= (lo as int) % (minv as int) && lo < p128() && minv * m == p128() && minv
                        >= 1 && (lo as int) / (minv as int) >= 0,
            ;
            assert((lo as int) % (minv as int) * m < p128()) by (nonlinear_arith)
                requires
                    (lo as int) % (minv as int) < minv && 0 <= (lo as int) % (minv as int) && minv
                        * m == p128() && m >= 1,
            ;
            assert(hi * m <= d * m - m) by (nonlinear_arith)
                requires
                    hi <= d - 1 && m >= 1,
            ;
        }
        let r0: u128 = hi * (m as u128) + lo / minv;
        let r1: u128 = (lo % minv) * (m as u128);
        proof {
            let minvi = minv as int;
            assert(r0 * p128() + r1 == (hi * p128() + lo) * m) by (nonlinear_arith)
                requires
                    r0 == hi * m + (lo as int) / minvi && r1 == (lo as int) % minvi * m && lo
                        == minvi * ((lo as int) / minvi) + (lo as int) % minvi && minvi * m
                        == p128(),
            ;
            assert(r0 < d * m) by (nonlinear_arith)
                requires
                    r0 == hi * m + (lo as int) / minvi && hi * m <= d * m - m && (lo as int) / minvi
                        < m,
            ;
        }
        (r0, r1)
    }
}

impl Uint256 {
    /// Division by a single-word divisor: process limbs from most to least
    /// significant, threading the remainder through a hardware-width divide
    /// at each limb. The quotient digit is always exact on this path.
    pub fn div_by_u64(self, d: u64) -> (q: Self)
        requires
            d != 0,
        ensures
            q.as_int() == self.as_int() / (d as int),
    {
        proof {
            assert(self.l3 < d * p64()) by (nonlinear_arith)
                requires
                    d >= 1 && self.l3 < p64(),
            ;
        }
        let (q3, r3) = div_u128_by_u64(self.l3 as u128, d);
        let n2: u128 = (r3 as u128) * RADIX64 + (self.l2 as u128);
        proof {
            assert(n2 < d * p64()) by (nonlinear_arith)
                requires
                    n2 == r3 * p64() + self.l2 && r3 <= d - 1 && self.l2 < p64(),
            ;
        }
        let (q2, r2) = div_u128_by_u64(n2, d);
        let n1: u128 = (r2 as u128) * RADIX64 + (self.l1 as u128);
        proof {
            assert(n1 < d * p64()) by (nonlinear_arith)
                requires
                    n1 == r2 * p64() + self.l1 && r2 <= d - 1 && self.l1 < p64(),
            ;
        }
        let (q1, r1) = div_u128_by_u64(n1, d);
        let n0: u128 = (r1 as u128) * RADIX64 + (self.l0 as u128);
        proof {
            assert(n0 < d * p64()) by (nonlinear_arith)
                requires
                    n0 == r1 * p64() + self.l0 && r1 <= d - 1 && self.l0 < p64(),
            ;
        }
        let (q0, r0) = div_u128_by_u64(n0, d);
        let q = Uint256 { l0: q0, l1: q1, l2: q2, l3: q3 };
        proof {
            lemma_fundamental_div_mod(self.l3 as int, d as int);
            lemma_fundamental_div_mod(n2 as int, d as int);
            lemma_fundamental_div_mod(n1 as int, d as int);
            lemma_fundamental_div_mod(n0 as int, d as int);
            lemma_row_times_digit(q0 as int, q1 as int, q2 as int, q3 as int, d as int, p64());
            let v = self.as_int();
            assert(v == (d * q3) * p192() + n2 * p128() + self.l1 * p64() + self.l0);
            assert(v == (d * q3) * p192() + (d * q2) * p128() + n1 * p64() + self.l0);
            assert(v == (d * q3) * p192() + (d * q2) * p128() + (d * q1) * p64() + n0);
            assert(self.as_int() == q.as_int() * d + r0);
            lemma_fundamental_div_mod_converse(self.as_int(), d as int, q.as_int(), r0 as int);
        }
        q
    }

    /// Division by a double-word divisor that does not fit one word: the
    /// high half of the dividend is divided directly, then its remainder
    /// and the low half go through one normalized 256-by-128 step.
    pub fn div_by_u128(self, d: u128) -> (q: Self)
        requires
            d >= RADIX64,
        ensures
            q.as_int() == self.as_int() / (d as int),
    {
        let n_hi: u128 = (self.l3 as u128) * RADIX64 + (self.l2 as u128);
        let n_lo: u128 = (self.l1 as u128) * RADIX64 + (self.l0 as u128);
        let q_hi = n_hi / d;
        let r_hi = n_hi % d;
        let q_lo = div_u256_by_u128(r_hi, n_lo, d);
        proof {
            lemma_fundamental_div_mod(n_hi as int, d as int);
            lemma_div_pos_is_pos(n_hi as int, d as int);
            assert(q_hi < p64()) by (nonlinear_arith)
                requires
                    n_hi == d * q_hi + n_hi % d && 0 <= n_hi % d && n_hi < p128() && d >= p64()
                        && p128() == p64() * p64() && q_hi >= 0,
            ;
            let wv: int = r_hi * p128() + n_lo;
            lemma_fundamental_div_mod(wv, d as int);
            lemma_div_pos_is_pos(wv, d as int);
            assert(q_lo < p128()) by (nonlinear_arith)
                requires
                    wv == d * q_lo + wv % (d as int) && 0 <= wv % (d as int) && wv == r_hi * p128() + n_lo && r_hi
                        <= d - 1 && n_lo < p128() && d >= 1 && q_lo >= 0,
            ;
        }
        let q = Uint256 {
            l0: (q_lo % RADIX64) as u64,
            l1: (q_lo / RADIX64) as u64,
            l2: q_hi as u64,
            l3: 0,
        };
        proof {
            lemma_fundamental_div_mod(q_lo as int, p64());
            let wv: int = r_hi * p128() + n_lo;
            let rho = wv % (d as int);
            assert(q.as_int() == q_hi * p128() + q_lo);
            assert(self.as_int() == (q_hi * p128() + q_lo) * d + rho) by (nonlinear_arith)
                requires
                    self.as_int() == n_hi * p128() + n_lo && n_hi == d * q_hi + r_hi && wv == r_hi
                        * p128() + n_lo && wv == d * q_lo + rho && p128() == p64() * p64(),
            ;
            lemma_fundamental_div_mod_converse(
                self.as_int(),
                d as int,
                q_hi * p128() + q_lo,
                rho,
            );
        }
        q
    }

    /// The general divider for divisors that reach the upper two limbs:
    /// normalize, estimate one or two quotient digits with correction, and
    /// undo the normalization. When the divisor occupies the top limb the
    /// quotient fits a single limb.
    pub fn div_large_divisor_64bit_quotient(self, d: Self) -> (q: Self)
        requires
            d.l3 != 0,
        ensures
            q.as_int() == self.as_int() / d.as_int(),
    {
        let shift = lz64(d.l3);
        proof {
            self.lemma_as_int_bounds();
            d.lemma_as_int_bounds();
            lemma2_to64();
            lemma2_to64_rest();
            lemma_pow2_pos(shift as nat);
            lemma_pow2_adds(64, 128);
            lemma_pow2_adds(64, 192);
            lemma_pow2_adds((64 - shift) as nat, shift as nat);
            lemma_pow2_adds((63 - shift) as nat, shift as nat);
            assert(d.as_int() * pow2(shift as nat) < p256()) by (nonlinear_arith)
                requires
                    d.as_int() < (d.l3 + 1) * p192() && d.l3 + 1 <= pow2((64 - shift) as nat)
                        && pow2((64 - shift) as nat) * pow2(shift as nat) == p64() && p64() * p192()
                        == p256() && pow2(shift as nat) >= 1 && d.as_int() >= 0,
            ;
            vstd::arithmetic::div_mod::lemma_small_mod(
                (d.as_int() * pow2(shift as nat)) as nat,
                p256() as nat,
            );
        }
        let d_norm = d.shl_u32(shift);
        proof {
            assert(d_norm.as_int() == d.as_int() * pow2(shift as nat));
            assert(d_norm.as_int() >= pow2(63) * p192()) by (nonlinear_arith)
                requires
                    d_norm.as_int() == d.as_int() * pow2(shift as nat) && d.as_int() >= d.l3
                        * p192() && d.l3 >= pow2((63 - shift) as nat) && pow2((63 - shift) as nat)
                        * pow2(shift as nat) == pow2(63) && p192() > 0 && pow2(shift as nat) >= 1,
            ;
            assert(d_norm.l3 * p192() + p192() > d_norm.as_int());
            assert(d_norm.l3 >= 0x8000_0000_0000_0000) by (nonlinear_arith)
                requires
                    d_norm.l3 * p192() + p192() > pow2(63) * p192() && pow2(63)
                        == 0x8000_0000_0000_0000 && p192() > 0,
            ;
        }
        let w = self.shl_wide(shift);
        let ghost u: int = self.as_int() * pow2(shift as nat);
        let n2: u128 = (w.4 as u128) * RADIX64 + (w.3 as u128);
        proof {
            let dv = d_norm.as_int();
            assert(u < dv * p64()) by (nonlinear_arith)
                requires
                    u == self.as_int() * pow2(shift as nat) && self.as_int() < p256() && dv
                        == d.as_int() * pow2(shift as nat) && d.as_int() >= p192() && p256()
                        == p192() * p64() && pow2(shift as nat) >= 1 && self.as_int() >= 0,
            ;
            assert(u == n2 * p192() + (w.0 + w.1 * p64() + w.2 * p128()));
            lemma_fundamental_div_mod_converse(
                u,
                p192(),
                n2 as int,
                w.0 + w.1 * p64() + w.2 * p128(),
            );
            lemma_fundamental_div_mod_converse(
                u,
                p128(),
                n2 * p64() + w.2,
                w.0 + w.1 * p64(),
            );
            assert((d_norm.l3 * p64() + d_norm.l2) * p128() <= dv) by (nonlinear_arith)
                requires
                    dv == d_norm.l0 + d_norm.l1 * p64() + d_norm.l2 * p128() + d_norm.l3 * p192()
                        && d_norm.l0 >= 0 && d_norm.l1 >= 0 && p192() == p64() * p128(),
            ;
            assert(dv < (d_norm.l3 * p64() + d_norm.l2 + 1) * p128()) by (nonlinear_arith)
                requires
                    dv == d_norm.l0 + d_norm.l1 * p64() + d_norm.l2 * p128() + d_norm.l3 * p192()
                        && d_norm.l0 < p64() && d_norm.l1 < p64() && p192() == p64() * p128()
                        && p128() == p64() * p64(),
            ;
        }
        let qhat = estimate_digit(
            n2,
            d_norm.l3,
            d_norm.l2,
            w.2,
            Ghost(u),
            Ghost(d_norm.as_int()),
            Ghost(p128()),
        );
        let (ww, borrow) = sub_mul_limbs(w, &d_norm, qhat);
        let digit = if borrow {
            let _restored = add_back_limbs(ww, &d_norm);
            qhat - 1
        } else {
            qhat
        };
        proof {
            let dv = d_norm.as_int();
            let qq = u / dv;
            lemma_fundamental_div_mod(u, dv);
            lemma_div_pos_is_pos(u, dv);
            if borrow {
                assert(qq < qhat) by (nonlinear_arith)
                    requires
                        u == dv * qq + u % dv && 0 <= u % dv && u < qhat * dv && dv >= 1 && qq >= 0
                            && qhat >= 0,
                ;
            } else {
                assert(qhat <= qq) by (nonlinear_arith)
                    requires
                        qhat * dv <= u && u == dv * qq + u % dv && u % dv < dv && dv >= 1 && qhat
                            >= 0 && qq >= 0,
                ;
            }
            lemma_div_common_factor(self.as_int(), d.as_int(), pow2(shift as nat) as int);
        }
        Uint256 { l0: digit, l1: 0, l2: 0, l3: 0 }
    }

    /// The general divider when the divisor's top limb is the third: the
    /// quotient fits two limbs, found by two digit steps over a sliding
    /// four-limb remainder window.
    pub fn div_large_divisor_128bit_quotient(self, d: Self) -> (q: Self)
        requires
            d.l2 != 0,
            d.l3 == 0,
        ensures
            q.as_int() == self.as_int() / d.as_int(),
    {
        let shift = lz64(d.l2);
        proof {
            self.lemma_as_int_bounds();
            d.lemma_as_int_bounds();
            lemma2_to64();
            lemma2_to64_rest();
            lemma_pow2_pos(shift as nat);
            lemma_pow2_adds(64, 64);
            lemma_pow2_adds(64, 128);
            lemma_pow2_adds((64 - shift) as nat, shift as nat);
            lemma_pow2_adds((63 - shift) as nat, shift as nat);
            assert(d.as_int() * pow2(shift as nat) < p192()) by (nonlinear_arith)
                requires
                    d.as_int() < (d.l2 + 1) * p128() && d.l2 + 1 <= pow2((64 - shift) as nat)
                        && pow2((64 - shift) as nat) * pow2(shift as nat) == p64() && p64() * p128()
                        == p192() && pow2(shift as nat) >= 1 && d.as_int() >= 0,
            ;
            vstd::arithmetic::div_mod::lemma_small_mod(
                (d.as_int() * pow2(shift as nat)) as nat,
                p256() as nat,
            );
        }
        let d_norm = d.shl_u32(shift);
        proof {
            assert(d_norm.as_int() == d.as_int() * pow2(shift as nat));
            d_norm.lemma_limb_digits();
            assert(d_norm.l3 == 0);
            assert(d_norm.as_int() >= pow2(63) * p128()) by (nonlinear_arith)
                requires
                    d_norm.as_int() == d.as_int() * pow2(shift as nat) && d.as_int() >= d.l2
                        * p128() && d.l2 >= pow2((63 - shift) as nat) && pow2((63 - shift) as nat)
                        * pow2(shift as nat) == pow2(63) && p128() > 0 && pow2(shift as nat) >= 1,
            ;
            assert(d_norm.l2 * p128() + p128() > d_norm.as_int());
            assert(d_norm.l2 >= 0x8000_0000_0000_0000) by (nonlinear_arith)
                requires
                    d_norm.l2 * p128() + p128() > pow2(63) * p128() && pow2(63)
                        == 0x8000_0000_0000_0000 && p128() > 0,
            ;
        }
        let w = self.shl_wide(shift);
        let ghost u: int = self.as_int() * pow2(shift as nat);
        let ghost dv: int = d_norm.as_int();
        let ghost u1: int = w.1 + w.2 * p64() + w.3 * p128() + w.4 * p192();
        proof {
            assert(u == u1 * p64() + w.0);
            assert(d.as_int() >= p128());
            assert(pow2(shift as nat) >= 1);
            crate::limb::lemma_radix_products();
            assert(u < (p192() * pow2(shift as nat)) * p64()) by (nonlinear_arith)
                requires
                    u == self.as_int() * pow2(shift as nat) && self.as_int() < p256() && p256()
                        == p192() * p64() && pow2(shift as nat) >= 1 && self.as_int() >= 0,
            ;
            assert(u1 < p192() * pow2(shift as nat)) by (nonlinear_arith)
                requires
                    u == u1 * p64() + w.0 && w.0 >= 0 && u < (p192() * pow2(shift as nat)) * p64()
                        && u1 >= 0,
            ;
            assert(p192() * pow2(shift as nat) <= dv * p64()) by (nonlinear_arith)
                requires
                    dv == d.as_int() * pow2(shift as nat) && d.as_int() >= p128() && p192()
                        == p128() * p64() && pow2(shift as nat) >= 1,
            ;
            assert(u1 == (w.4 * p64() + w.3) * p128() + (w.1 + w.2 * p64()));
            lemma_fundamental_div_mod_converse(
                u1,
                p128(),
                w.4 * p64() + w.3,
                w.1 + w.2 * p64(),
            );
            lemma_fundamental_div_mod_converse(
                u1,
                p64(),
                (w.4 * p64() + w.3) * p64() + w.2,
                w.1 as int,
            );
            assert((d_norm.l2 * p64() + d_norm.l1) * p64() <= dv) by (nonlinear_arith)
                requires
                    dv == d_norm.l0 + d_norm.l1 * p64() + d_norm.l2 * p128() && d_norm.l0 >= 0
                        && p128() == p64() * p64(),
            ;
            assert(dv < (d_norm.l2 * p64() + d_norm.l1 + 1) * p64()) by (nonlinear_arith)
                requires
                    dv == d_norm.l0 + d_norm.l1 * p64() + d_norm.l2 * p128() && d_norm.l0 < p64()
                        && p128() == p64() * p64(),
            ;
        }
        let n2a: u128 = (w.4 as u128) * RADIX64 + (w.3 as u128);
        let qhat1 = estimate_digit(
            n2a,
            d_norm.l2,
            d_norm.l1,
            w.2,
            Ghost(u1),
            Ghost(dv),
            Ghost(p64()),
        );
        let (v, borrow1) = sub_mul_limbs_3((w.1, w.2, w.3, w.4), &d_norm, qhat1);
        let (v, digit1) = if borrow1 {
            let (restored, carry) = add_back_limbs_3(v, &d_norm);
            proof {
                let qq = u1 / dv;
                lemma_fundamental_div_mod(u1, dv);
                lemma_div_pos_is_pos(u1, dv);
                assert(qq < qhat1) by (nonlinear_arith)
                    requires
                        u1 == dv * qq + u1 % dv && 0 <= u1 % dv && u1 < qhat1 * dv && dv >= 1 && qq
                            >= 0 && qhat1 >= 0,
                ;
                assert(qhat1 == qq + 1);
                assert(qhat1 * dv == qq * dv + dv) by (nonlinear_arith)
                    requires
                        qhat1 == qq + 1,
                ;
                assert(restored.0 + restored.1 * p64() + restored.2 * p128() + restored.3 * p192()
                    == u1 % dv);
            }
            (restored, qhat1 - 1)
        } else {
            proof {
                let qq = u1 / dv;
                lemma_fundamental_div_mod(u1, dv);
                lemma_div_pos_is_pos(u1, dv);
                assert(qhat1 <= qq) by (nonlinear_arith)
                    requires
                        qhat1 * dv <= u1 && u1 == dv * qq + u1 % dv && u1 % dv < dv && dv >= 1
                            && qhat1 >= 0 && qq >= 0,
                ;
                assert(qhat1 == qq);
                assert(v.0 + v.1 * p64() + v.2 * p128() + v.3 * p192() == u1 % dv);
            }
            (v, qhat1)
        };
        let ghost rem1: int = u1 % dv;
        proof {
            assert(v.0 + v.1 * p64() + v.2 * p128() + v.3 * p192() == rem1);
            assert(v.3 == 0) by (nonlinear_arith)
                requires
                    v.0 + v.1 * p64() + v.2 * p128() + v.3 * p192() == rem1 && 0 <= rem1 && rem1
                        < p192() && v.0 >= 0 && v.1 >= 0 && v.2 >= 0 && v.3 >= 0 && p192() > 0,
            ;
        }
        // slide the window down one limb for the second digit
        let ghost u2: int = rem1 * p64() + w.0;
        proof {
            assert(u2 == w.0 + v.0 * p64() + v.1 * p128() + v.2 * p192());
            assert(u2 < dv * p64()) by (nonlinear_arith)
                requires
                    u2 == rem1 * p64() + w.0 && rem1 <= dv - 1 && w.0 < p64(),
            ;
            assert(u2 == (v.2 * p64() + v.1) * p128() + (w.0 + v.0 * p64()));
            lemma_fundamental_div_mod_converse(
                u2,
                p128(),
                v.2 * p64() + v.1,
                w.0 + v.0 * p64(),
            );
            lemma_fundamental_div_mod_converse(
                u2,
                p64(),
                (v.2 * p64() + v.1) * p64() + v.0,
                w.0 as int,
            );
        }
        let n2b: u128 = (v.2 as u128) * RADIX64 + (v.1 as u128);
        let qhat0 = estimate_digit(
            n2b,
            d_norm.l2,
            d_norm.l1,
            v.0,
            Ghost(u2),
            Ghost(dv),
            Ghost(p64()),
        );
        let (_v2, borrow2) = sub_mul_limbs_3((w.0, v.0, v.1, v.2), &d_norm, qhat0);
        let digit0 = if borrow2 {
            let (_restored2, _carry2) = add_back_limbs_3(_v2, &d_norm);
            proof {
                let qq = u2 / dv;
                lemma_fundamental_div_mod(u2, dv);
                lemma_div_pos_is_pos(u2, dv);
                assert(qq < qhat0) by (nonlinear_arith)
                    requires
                        u2 == dv * qq + u2 % dv && 0 <= u2 % dv && u2 < qhat0 * dv && dv >= 1 && qq
                            >= 0 && qhat0 >= 0,
                ;
            }
            qhat0 - 1
        } else {
            proof {
                let qq = u2 / dv;
                lemma_fundamental_div_mod(u2, dv);
                lemma_div_pos_is_pos(u2, dv);
                assert(qhat0 <= qq) by (nonlinear_arith)
                    requires
                        qhat0 * dv <= u2 && u2 == dv * qq + u2 % dv && u2 % dv < dv && dv >= 1
                            && qhat0 >= 0 && qq >= 0,
                ;
            }
            qhat0
        };
        let q = Uint256 { l0: digit0, l1: digit1, l2: 0, l3: 0 };
        proof {
            let rem2 = u2 % dv;
            lemma_fundamental_div_mod(u1, dv);
            lemma_fundamental_div_mod(u2, dv);
            assert(u == (digit1 * p64() + digit0) * dv + rem2) by (nonlinear_arith)
                requires
                    u == u1 * p64() + w.0 && u1 == dv * digit1 + rem1 && u2 == rem1 * p64() + w.0
                        && u2 == dv * digit0 + rem2,
            ;
            lemma_fundamental_div_mod_converse(u, dv, digit1 * p64() + digit0, rem2);
            lemma_div_common_factor(self.as_int(), d.as_int(), pow2(shift as nat) as int);
        }
        q
    }

    /// Knuth-style division for divisors whose top bits reach the upper
    /// half of the value; dispatches on how many quotient digits are
    /// needed, after the trivial case of a dividend below the divisor.
    pub fn div_knuth(self, d: Self) -> (q: Self)
        requires
            d.l2 != 0 || d.l3 != 0,
        ensures
            q.as_int() == self.as_int() / d.as_int(),
    {
        if self.lt(&d) {
            proof {
                self.lemma_as_int_bounds();
                vstd::arithmetic::div_mod::lemma_basic_div(self.as_int(), d.as_int());
            }
            return Uint256::zero();
        }
        if d.l3 != 0 {
            self.div_large_divisor_64bit_quotient(d)
        } else {
            self.div_large_divisor_128bit_quotient(d)
        }
    }

    /// Exact truncating division. Dispatches on the magnitude of the
    /// divisor: a hardware-width path for one-limb divisors, a single
    /// normalized estimation step for two-limb divisors, and the general
    /// Knuth divider above that.
    pub fn div(self, rhs: Self) -> (q: Self)
        requires
            rhs.as_int() != 0,
        ensures
            q.as_int() == self.as_int() / rhs.as_int(),
    {
        if rhs.l3 == 0 && rhs.l2 == 0 {
            if rhs.l1 == 0 {
                proof {
                    assert(rhs.as_int() == rhs.l0);
                }
                self.div_by_u64(rhs.l0)
            } else {
                let dd: u128 = (rhs.l1 as u128) * RADIX64 + (rhs.l0 as u128);
                proof {
                    assert(dd == rhs.as_int());
                }
                self.div_by_u128(dd)
            }
        } else {
            self.div_knuth(rhs)
        }
    }
}

} // verus!
