//! Fixed-width multi-limb integers: unsigned and signed 64-, 128- and
//! 256-bit values built from native machine words, with wraparound
//! arithmetic and exact truncating division.

use vstd::prelude::*;

pub mod div256;
pub mod int128;
pub mod int256;
pub mod int64;
pub mod laws;
pub mod limb;
pub mod shift;
pub mod uint128;
pub mod uint256;
pub mod uint64;

use crate::limb::{p128, p256};
use crate::uint256::Uint256;
use vstd::arithmetic::div_mod::lemma_fundamental_div_mod_converse_mod;

verus! {

/// 256-bit wraparound addition on the limb type.
pub fn custom256_add(a: Uint256, b: Uint256) -> (r: Uint256)
    ensures
        r.as_int() == (a.as_int() + b.as_int()) % p256(),
{
    a.wrapping_add(b)
}

/// 256-bit wraparound subtraction on the limb type.
pub fn custom256_sub(a: Uint256, b: Uint256) -> (r: Uint256)
    ensures
        r.as_int() == (a.as_int() - b.as_int()) % p256(),
{
    a.wrapping_sub(b)
}

/// 256-bit wraparound multiplication on the limb type.
pub fn custom256_mul(a: Uint256, b: Uint256) -> (r: Uint256)
    ensures
        r.as_int() == (a.as_int() * b.as_int()) % p256(),
{
    a.wrapping_mul(b)
}

/// 256-bit division by a single limb.
pub fn custom256_div_u64(a: Uint256, d: u64) -> (r: Uint256)
    requires
        d != 0,
    ensures
        r.as_int() == a.as_int() / (d as int),
{
    a.div_by_u64(d)
}

/// Full 256-bit division on the limb type.
pub fn custom256_div(a: Uint256, b: Uint256) -> (r: Uint256)
    requires
        b.as_int() != 0,
    ensures
        r.as_int() == a.as_int() / b.as_int(),
{
    a.div(b)
}

/// Wrapping addition on the native double word, the reference behaviour
/// the limb types reproduce.
pub fn native_add(a: u128, b: u128) -> (r: u128)
    ensures
        r == (a + b) % p128(),
{
    let r = a.wrapping_add(b);
    proof {
        lemma_fundamental_div_mod_converse_mod(
            a + b,
            p128(),
            if a + b > u128::MAX {
                1int
            } else {
                0int
            },
            r as int,
        );
    }
    r
}

/// Wrapping subtraction on the native double word.
pub fn native_sub(a: u128, b: u128) -> (r: u128)
    ensures
        r == (a - b) % p128(),
{
    let r = a.wrapping_sub(b);
    proof {
        lemma_fundamental_div_mod_converse_mod(
            a - b,
            p128(),
            if a >= b {
                0int
            } else {
                -1int
            },
            r as int,
        );
    }
    r
}

/// Wrapping multiplication on the native double word.
pub fn native_mul(a: u128, b: u128) -> (r: u128)
    ensures
        r == (a * b) % p128(),
{
    a.wrapping_mul(b)
}

/// Native double-word division.
pub fn native_div(a: u128, b: u128) -> (r: u128)
    requires
        b != 0,
    ensures
        r == a as int / b as int,
{
    a / b
}

/// Native double-word remainder.
pub fn native_rem(a: u128, b: u128) -> (r: u128)
    requires
        b != 0,
    ensures
        r == a as int % b as int,
{
    a % b
}

/// Native double-word equality.
pub fn native_eq(a: u128, b: u128) -> (r: bool)
    ensures
        r == (a == b),
{
    a == b
}

/// Native double-word `<`.
pub fn native_lt(a: u128, b: u128) -> (r: bool)
    ensures
        r == (a < b),
{
    a < b
}

/// Native double-word `<=`.
pub fn native_le(a: u128, b: u128) -> (r: bool)
    ensures
        r == (a <= b),
{
    a <= b
}

/// Native double-word `>`.
pub fn native_gt(a: u128, b: u128) -> (r: bool)
    ensures
        r == (a > b),
{
    a > b
}

/// Native double-word `>=`.
pub fn native_ge(a: u128, b: u128) -> (r: bool)
    ensures
        r == (a >= b),
{
    a >= b
}

/// Wrapping 64-bit subtraction on native words.
pub fn native_u64_sub(a: u64, b: u64) -> (r: u64)
    ensures
        r == (a - b) % 0x1_0000_0000_0000_0000,
{
    a.wrapping_sub(b)
}

} // verus!
