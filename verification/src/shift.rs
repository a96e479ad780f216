//! Bit-count and power-of-two helpers used by shifting and by division
//! normalization.

use vstd::prelude::*;

use crate::limb::{p128, p64};
use vstd::arithmetic::power2::{
    lemma2_to64, lemma2_to64_rest, lemma_pow2_adds, lemma_pow2_pos, lemma_pow2_strictly_increases,
    pow2,
};

verus! {

/// Number of leading zero bits of a 64-bit word: the unique `r` with
/// `2^(63-r) <= x < 2^(64-r)`, or 64 when `x` is zero.
pub fn lz64(x: u64) -> (r: u32)
    ensures
        x == 0 ==> r == 64,
        x != 0 ==> r <= 63 && pow2((63 - r) as nat) <= x < pow2((64 - r) as nat),
{
    if x == 0 {
        return 64;
    }
    let mut y = x;
    let mut n: u32 = 0;
    proof {
        lemma2_to64();
        lemma2_to64_rest();
    }
    while y < 0x8000_0000_0000_0000u64
        invariant
            x != 0,
            n <= 63,
            y == x * pow2(n as nat),
            y < p64(),
        decreases 63 - n,
    {
        proof {
            lemma2_to64();
            lemma2_to64_rest();
            lemma_pow2_pos(n as nat);
            // x >= 1, so y >= 2^n; were n already 63, y would be at least 2^63
            assert(y >= pow2(n as nat)) by (nonlinear_arith)
                requires
                    y == x * pow2(n as nat) && x >= 1 && pow2(n as nat) >= 1,
            ;
            if n == 63 {
                assert(pow2(63) == 0x8000_0000_0000_0000) by {
                    lemma2_to64_rest();
                }
                assert(false);
            }
            lemma_pow2_adds(n as nat, 1);
            assert(x * pow2((n + 1) as nat) == y * 2) by (nonlinear_arith)
                requires
                    y == x * pow2(n as nat) && pow2((n + 1) as nat) == pow2(n as nat) * pow2(1)
                        && pow2(1) == 2,
            ;
        }
        y = y * 2;
        n = n + 1;
    }
    proof {
        lemma2_to64();
        lemma2_to64_rest();
        lemma_pow2_adds((63 - n) as nat, n as nat);
        lemma_pow2_adds((64 - n) as nat, n as nat);
        lemma_pow2_pos(n as nat);
        // 2^63 <= x * 2^n < 2^64 pins x between 2^(63-n) and 2^(64-n)
        assert(x >= pow2((63 - n) as nat)) by (nonlinear_arith)
            requires
                x * pow2(n as nat) >= pow2(63) && pow2(63) == pow2((63 - n) as nat) * pow2(n as nat)
                    && pow2(n as nat) >= 1,
        ;
        assert(x < pow2((64 - n) as nat)) by (nonlinear_arith)
            requires
                x * pow2(n as nat) < pow2(64) && pow2(64) == pow2((64 - n) as nat) * pow2(n as nat)
                    && pow2(n as nat) >= 1,
        ;
    }
    n
}

/// 2^e as a 64-bit word, for exponents below the word width.
pub fn pow2_64(e: u32) -> (r: u64)
    requires
        e <= 63,
    ensures
        r == pow2(e as nat),
{
    let mut r: u64 = 1;
    let mut i: u32 = 0;
    proof {
        lemma2_to64();
    }
    while i < e
        invariant
            i <= e <= 63,
            r == pow2(i as nat),
        decreases e - i,
    {
        proof {
            lemma_pow2_strictly_increases(i as nat, 63);
            lemma2_to64_rest();
            lemma_pow2_adds(i as nat, 1);
            lemma2_to64();
        }
        r = r * 2;
        i = i + 1;
    }
    r
}

/// 2^e as a 128-bit word, for exponents below the double-word width.
pub fn pow2_128(e: u32) -> (r: u128)
    requires
        e <= 127,
    ensures
        r == pow2(e as nat),
{
    let mut r: u128 = 1;
    let mut i: u32 = 0;
    proof {
        lemma2_to64();
    }
    while i < e
        invariant
            i <= e <= 127,
            r == pow2(i as nat),
        decreases e - i,
    {
        proof {
            lemma_pow2_strictly_increases(i as nat, 127);
            lemma_pow2_adds(63, 64);
            lemma2_to64();
            lemma2_to64_rest();
            assert(pow2(127) == pow2(63) * pow2(64));
            lemma_pow2_adds(i as nat, 1);
        }
        r = r * 2;
        i = i + 1;
    }
    r
}

/// Splitting one limb times a sub-limb power of two at the word boundary:
/// the low part is a multiple of the power, and both parts are bounded.
pub proof fn lemma_shl_limb(l: u64, b: nat)
    requires
        b <= 63,
    ensures
        (l * pow2(b)) % p64() + ((l * pow2(b)) / p64()) * p64() == l * pow2(b),
        (l * pow2(b)) % p64() <= p64() - pow2(b),
        (l * pow2(b)) / p64() < pow2(b),
        l * pow2(b) < p128(),
{
    let m = pow2(b) as int;
    let t = l * m;
    lemma_pow2_adds(b, (64 - b) as nat);
    lemma_pow2_adds(64, 64);
    lemma2_to64();
    lemma2_to64_rest();
    lemma_pow2_pos(b);
    lemma_pow2_pos((64 - b) as nat);
    let minv = pow2((64 - b) as nat) as int;
    assert(m * minv == p64());
    assert(t < p128() && t / p64() < m) by (nonlinear_arith)
        requires
            t == l * m && 0 <= l < p64() && 1 <= m && m * minv == p64() && 1 <= minv && p128()
                == p64() * p64(),
    ;
    vstd::arithmetic::div_mod::lemma_fundamental_div_mod(t, p64());
    let w = l - (t / p64()) * minv;
    assert(t % p64() == m * w) by (nonlinear_arith)
        requires
            t % p64() == t - (t / p64()) * p64() && t == l * m && p64() == m * minv && w == l - (t
                / p64()) * minv,
    ;
    assert(w >= 0 && m * w <= p64() - m) by (nonlinear_arith)
        requires
            m * w == t % p64() && 0 <= t % p64() < p64() && m >= 1 && p64() == m * minv,
    ;
}

/// Bounds for one limb of a logical right shift: the shifted-down part
/// and the bits arriving from the limb above never carry.
pub proof fn lemma_shr_limb(lo: u64, hi: u64, b: nat)
    requires
        1 <= b <= 63,
    ensures
        (lo as int) / (pow2(b) as int) < pow2((64 - b) as nat),
        ((hi as int) % (pow2(b) as int)) * pow2((64 - b) as nat) <= p64() - pow2((64 - b) as nat),
        (lo as int) / (pow2(b) as int) + ((hi as int) % (pow2(b) as int)) * pow2((64 - b) as nat)
            < p64(),
{
    let m = pow2(b) as int;
    let minv = pow2((64 - b) as nat) as int;
    lemma_pow2_pos(b);
    lemma_pow2_pos((64 - b) as nat);
    lemma_pow2_adds(b, (64 - b) as nat);
    lemma2_to64();
    lemma2_to64_rest();
    vstd::arithmetic::div_mod::lemma_fundamental_div_mod(lo as int, m);
    vstd::arithmetic::div_mod::lemma_mod_pos_bound(lo as int, m);
    vstd::arithmetic::div_mod::lemma_mod_pos_bound(hi as int, m);
    vstd::arithmetic::div_mod::lemma_div_pos_is_pos(lo as int, m);
    assert((lo as int) / m < minv) by (nonlinear_arith)
        requires
            lo == m * ((lo as int) / m) + (lo as int) % m && 0 <= (lo as int) % m && lo < p64()
                && m * minv == p64() && m >= 1 && (lo as int) / m >= 0,
    ;
    assert(((hi as int) % m) * minv <= p64() - minv) by (nonlinear_arith)
        requires
            0 <= (hi as int) % m && (hi as int) % m <= m - 1 && m * minv == p64() && minv >= 1,
    ;
}

} // verus!
