//! The algebraic facts the library promises, stated over the value models
//! that the operations' contracts use: wraparound arithmetic forms a
//! commutative ring, division and remainder reconstruct the dividend, the
//! orders are antisymmetric, and the bitwise identities hold limb-wise.

use vstd::prelude::*;

use crate::int256::{h256, swrap256, Int256};
use crate::int128::swrap128;
use crate::int256::h128;
use crate::int64::{h64, swrap64};
use crate::limb::{p128, p256, p64, tdiv, trem, lemma_tdiv_trem_magnitudes};
use crate::uint256::Uint256;
use vstd::arithmetic::div_mod::{
    lemma_fundamental_div_mod, lemma_fundamental_div_mod_converse_mod, lemma_mod_multiples_vanish,
    lemma_small_mod,
};

verus! {

broadcast use vstd::arithmetic::mul::lemma_mul_is_commutative,
    vstd::arithmetic::div_mod::lemma_mod_pos_bound;

/// Quotient times divisor plus remainder gives back the dividend, and the
/// remainder is non-negative and below the divisor.
pub proof fn lemma_unsigned_division_identity(a: Uint256, b: Uint256)
    requires
        b.as_int() != 0,
    ensures
        (a.as_int() / b.as_int()) * b.as_int() + a.as_int() % b.as_int() == a.as_int(),
        0 <= a.as_int() % b.as_int() < b.as_int(),
{
    a.lemma_as_int_bounds();
    b.lemma_as_int_bounds();
    lemma_fundamental_div_mod(a.as_int(), b.as_int());
}

/// Signed quotient times divisor plus remainder gives back the dividend;
/// the remainder takes the dividend's sign and its magnitude stays below
/// the divisor's.
pub proof fn lemma_signed_division_identity(a: Int256, b: Int256)
    requires
        b.as_int() != 0,
    ensures
        tdiv(a.as_int(), b.as_int()) * b.as_int() + trem(a.as_int(), b.as_int()) == a.as_int(),
        trem(a.as_int(), b.as_int()) == 0 || ((trem(a.as_int(), b.as_int()) < 0) <==> (a.as_int()
            < 0)),
        (if trem(a.as_int(), b.as_int()) >= 0 {
            trem(a.as_int(), b.as_int())
        } else {
            -trem(a.as_int(), b.as_int())
        }) < (if b.as_int() >= 0 {
            b.as_int()
        } else {
            -b.as_int()
        }),
{
    lemma_tdiv_trem_magnitudes(a.as_int(), b.as_int());
}

/// Wraparound addition commutes.
pub proof fn lemma_uint256_add_commutes(a: Uint256, b: Uint256)
    ensures
        (a.as_int() + b.as_int()) % p256() == (b.as_int() + a.as_int()) % p256(),
{
}

/// Wraparound multiplication commutes.
pub proof fn lemma_uint256_mul_commutes(a: Uint256, b: Uint256)
    ensures
        (a.as_int() * b.as_int()) % p256() == (b.as_int() * a.as_int()) % p256(),
{
}

/// Adding and then subtracting the same value returns the original
/// pattern.
pub proof fn lemma_uint256_add_sub_cancel(a: Uint256, b: Uint256)
    ensures
        Uint256::of_int((((a.as_int() + b.as_int()) % p256()) - b.as_int()) % p256()) == a,
{
    a.lemma_as_int_bounds();
    b.lemma_as_int_bounds();
    let s = a.as_int() + b.as_int();
    lemma_fundamental_div_mod(s, p256());
    let k = s / p256();
    assert(s % p256() - b.as_int() == a.as_int() + (-k) * p256());
    lemma_mod_multiples_vanish(-k, a.as_int(), p256());
    lemma_small_mod(a.as_int() as nat, p256() as nat);
    a.lemma_limb_digits();
}

/// Subtracting a value from itself gives zero.
pub proof fn lemma_uint256_sub_self(a: Uint256)
    ensures
        (a.as_int() - a.as_int()) % p256() == 0,
{
    lemma_small_mod(0nat, p256() as nat);
}

/// Multiplying by one returns the original pattern.
pub proof fn lemma_uint256_mul_one(a: Uint256)
    ensures
        Uint256::of_int((a.as_int() * 1) % p256()) == a,
{
    a.lemma_as_int_bounds();
    lemma_small_mod(a.as_int() as nat, p256() as nat);
    a.lemma_limb_digits();
}

/// Multiplying by zero gives zero.
pub proof fn lemma_uint256_mul_zero(a: Uint256)
    ensures
        (a.as_int() * 0) % p256() == 0,
{
    lemma_small_mod(0nat, p256() as nat);
}

/// Negating twice returns the original value, the minimum included.
pub proof fn lemma_int256_neg_neg(a: Int256)
    ensures
        swrap256(-swrap256(-a.as_int())) == a.as_int(),
{
    a.lemma_sign_split();
    let v = a.as_int();
    if v == -h256() {
        crate::int256::lemma_swrap256_congruent(-h256(), 1);
        assert(h256() + (-1) * p256() == -h256());
        crate::int256::lemma_swrap256_small(-h256());
    } else {
        crate::int256::lemma_swrap256_small(-v);
        crate::int256::lemma_swrap256_small(v);
    }
}

/// The bitwise identities on one machine word: double complement is the
/// identity, conjunction and disjunction with oneself are the identity,
/// and exclusive or with oneself is zero.
pub proof fn lemma_u64_bit_identities(x: u64)
    ensures
        !(!x) == x,
        x & x == x,
        x | x == x,
        x ^ x == 0,
{
    assert(!(!x) == x && (x & x) == x && (x | x) == x && (x ^ x) == 0) by (bit_vector);
}

/// Double bitwise complement returns the original pattern.
pub proof fn lemma_int256_not_not(a: Int256)
    ensures
        (Int256 { l0: !(!a.l0), l1: !(!a.l1), l2: !(!a.l2), l3: !(!a.l3) }) == a,
{
    lemma_u64_bit_identities(a.l0);
    lemma_u64_bit_identities(a.l1);
    lemma_u64_bit_identities(a.l2);
    lemma_u64_bit_identities(a.l3);
}

/// Conjunction and disjunction with oneself are the identity, and
/// exclusive or with oneself is zero.
pub proof fn lemma_int256_self_operations(a: Int256)
    ensures
        (Int256 { l0: a.l0 & a.l0, l1: a.l1 & a.l1, l2: a.l2 & a.l2, l3: a.l3 & a.l3 }) == a,
        (Int256 { l0: a.l0 | a.l0, l1: a.l1 | a.l1, l2: a.l2 | a.l2, l3: a.l3 | a.l3 }) == a,
        (Int256 { l0: a.l0 ^ a.l0, l1: a.l1 ^ a.l1, l2: a.l2 ^ a.l2, l3: a.l3 ^ a.l3 })
            == (Int256 { l0: 0, l1: 0, l2: 0, l3: 0 }),
{
    lemma_u64_bit_identities(a.l0);
    lemma_u64_bit_identities(a.l1);
    lemma_u64_bit_identities(a.l2);
    lemma_u64_bit_identities(a.l3);
}

/// The unsigned 64-bit operations agree bit for bit with the native
/// wraparound operations, as the standard library's own specifications
/// state them.
pub proof fn lemma_uint64_wraparound_equivalence(a: u64, b: u64)
    ensures
        (a + b) % p64() == vstd::wrapping::u64_specs::wrapping_add(a, b),
        (a - b) % p64() == vstd::wrapping::u64_specs::wrapping_sub(a, b),
        (a * b) % p64() == vstd::wrapping::u64_specs::wrapping_mul(a, b),
{
    if a + b > u64::MAX {
        lemma_fundamental_div_mod_converse_mod(a + b, p64(), 1, a + b - p64());
    } else {
        lemma_small_mod((a + b) as nat, p64() as nat);
    }
    if a >= b {
        lemma_small_mod((a - b) as nat, p64() as nat);
    } else {
        lemma_fundamental_div_mod_converse_mod(a - b, p64(), -1, a - b + p64());
    }
    assert((a * b) % p64() == ((a as nat * b as nat) % (p64() as nat)) as int);
}

/// The signed 64-bit operations agree bit for bit with the native
/// wraparound operations, as the standard library's own specifications
/// state them.
pub proof fn lemma_int64_wraparound_equivalence(a: i64, b: i64)
    ensures
        swrap64(a + b) == vstd::wrapping::i64_specs::wrapping_add(a, b),
        swrap64(a - b) == vstd::wrapping::i64_specs::wrapping_sub(a, b),
        swrap64(a * b) == vstd::wrapping::i64_specs::wrapping_mul(a, b),
{
    lemma_swrap64_cases(a + b);
    lemma_swrap64_cases(a - b);
    lemma_swrap64_signed_crop(a * b);
}

/// On values at most one width away from the signed range, wraparound is
/// a single correction step, which is how the native specification words
/// it.
proof fn lemma_swrap64_cases(x: int)
    requires
        -p64() <= x < p64(),
    ensures
        swrap64(x) == (if x > h64() - 1 {
            x - p64()
        } else if x < -h64() {
            x + p64()
        } else {
            x
        }),
{
    if x > h64() - 1 {
        lemma_small_mod(x as nat, p64() as nat);
    } else if x < -h64() {
        lemma_fundamental_div_mod_converse_mod(x, p64(), -1, x + p64());
        crate::int64::lemma_swrap64_small(x + p64());
    } else {
        crate::int64::lemma_swrap64_small(x);
    }
}

/// Wraparound agrees with the native specification's crop of a full
/// product: reduce modulo the width, then recentre.
proof fn lemma_swrap64_signed_crop(x: int)
    ensures
        swrap64(x) == (if x % p64() > h64() - 1 {
            x % p64() - p64()
        } else {
            x % p64()
        }),
{
}

/// The unsigned 128-bit operations agree bit for bit with the native
/// wraparound operations.
pub proof fn lemma_uint128_wraparound_equivalence(a: u128, b: u128)
    ensures
        (a + b) % p128() == vstd::wrapping::u128_specs::wrapping_add(a, b),
        (a - b) % p128() == vstd::wrapping::u128_specs::wrapping_sub(a, b),
        (a * b) % p128() == vstd::wrapping::u128_specs::wrapping_mul(a, b),
{
    if a + b > u128::MAX {
        lemma_fundamental_div_mod_converse_mod(a + b, p128(), 1, a + b - p128());
    } else {
        lemma_small_mod((a + b) as nat, p128() as nat);
    }
    if a >= b {
        lemma_small_mod((a - b) as nat, p128() as nat);
    } else {
        lemma_fundamental_div_mod_converse_mod(a - b, p128(), -1, a - b + p128());
    }
    assert((a * b) % p128() == ((a as nat * b as nat) % (p128() as nat)) as int);
}

/// The signed 128-bit operations agree bit for bit with the native
/// wraparound operations.
pub proof fn lemma_int128_wraparound_equivalence(a: i128, b: i128)
    ensures
        swrap128(a + b) == vstd::wrapping::i128_specs::wrapping_add(a, b),
        swrap128(a - b) == vstd::wrapping::i128_specs::wrapping_sub(a, b),
        swrap128(a * b) == vstd::wrapping::i128_specs::wrapping_mul(a, b),
{
    lemma_swrap128_cases(a + b);
    lemma_swrap128_cases(a - b);
    lemma_swrap128_signed_crop(a * b);
}

/// On values at most one width away from the signed range, wraparound is
/// a single correction step.
proof fn lemma_swrap128_cases(x: int)
    requires
        -p128() <= x < p128(),
    ensures
        swrap128(x) == (if x > h128() - 1 {
            x - p128()
        } else if x < -h128() {
            x + p128()
        } else {
            x
        }),
{
    if x > h128() - 1 {
        lemma_small_mod(x as nat, p128() as nat);
    } else if x < -h128() {
        lemma_fundamental_div_mod_converse_mod(x, p128(), -1, x + p128());
        crate::int128::lemma_swrap128_small(x + p128());
    } else {
        crate::int128::lemma_swrap128_small(x);
    }
}

/// Wraparound agrees with the native specification's crop of a full
/// product.
proof fn lemma_swrap128_signed_crop(x: int)
    ensures
        swrap128(x) == (if x % p128() > h128() - 1 {
            x % p128() - p128()
        } else {
            x % p128()
        }),
{
}

/// The unsigned order is antisymmetric: equal values are the same
/// pattern.
pub proof fn lemma_uint256_le_antisymmetric(a: Uint256, b: Uint256)
    requires
        a.as_int() <= b.as_int(),
        b.as_int() <= a.as_int(),
    ensures
        a == b,
{
    a.lemma_limb_digits();
    b.lemma_limb_digits();
}

/// The signed order is antisymmetric: equal values are the same pattern.
pub proof fn lemma_int256_le_antisymmetric(a: Int256, b: Int256)
    requires
        a.as_int() <= b.as_int(),
        b.as_int() <= a.as_int(),
    ensures
        a == b,
{
    Int256::lemma_as_int_injective(a, b);
}

/// The signed order is total.
pub proof fn lemma_int256_le_total(a: Int256, b: Int256)
    ensures
        a.as_int() <= b.as_int() || b.as_int() <= a.as_int(),
{
}

} // verus!
