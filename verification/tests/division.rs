use ethnum::U256;
use limbint::int256::Int256;
use limbint::int64::Int64;
use limbint::int128::Int128;
use limbint::uint256::Uint256;
use limbint::uint64::Uint64;
use limbint::uint128::Uint128;

fn u256(l0: u64, l1: u64, l2: u64, l3: u64) -> Uint256 {
    Uint256 { l0, l1, l2, l3 }
}

fn to_ref(x: Uint256) -> U256 {
    U256::from_words(
        ((x.l3 as u128) << 64) | (x.l2 as u128),
        ((x.l1 as u128) << 64) | (x.l0 as u128),
    )
}

fn from_ref(x: U256) -> Uint256 {
    let (hi, lo) = x.into_words();
    Uint256 { l0: lo as u64, l1: (lo >> 64) as u64, l2: hi as u64, l3: (hi >> 64) as u64 }
}

fn check_div_against_reference(a: Uint256, b: Uint256) {
    let ours = a.div(b);
    let theirs = from_ref(to_ref(a) / to_ref(b));
    assert_eq!(ours, theirs);
}

#[test]
fn division_by_single_limb() {
    let a = u256(0xFFFF_FFFF_FFFF_FFF1, 0x1234_5678_9ABC_DEF0, 0xAAAA_BBBB_CCCC_DDDD, 0x0123_4567_89AB_CDEF);
    check_div_against_reference(a, u256(1, 0, 0, 0));
    check_div_against_reference(a, u256(3, 0, 0, 0));
    check_div_against_reference(a, u256(u64::MAX, 0, 0, 0));
    assert_eq!(a.div_by_u64(1), a);
    assert_eq!(limbint::custom256_div_u64(a, 7), from_ref(to_ref(a) / U256::new(7)));
}

#[test]
fn division_by_two_limbs() {
    let a = u256(0xFFFF_FFFF_FFFF_FFF1, 0x1234_5678_9ABC_DEF0, 0xAAAA_BBBB_CCCC_DDDD, 0x0123_4567_89AB_CDEF);
    check_div_against_reference(a, u256(0, 1, 0, 0));
    check_div_against_reference(a, u256(5, 0x8000_0000_0000_0000, 0, 0));
    check_div_against_reference(a, u256(u64::MAX, u64::MAX, 0, 0));
    check_div_against_reference(u256(0, 0, 0, u64::MAX), u256(1, 1, 0, 0));
}

#[test]
fn division_knuth_third_limb_divisor() {
    // divisor occupies exactly the third limb: the two-digit Knuth path
    let a = u256(0xDEAD_BEEF_0000_0001, 0xFFFF_0000_FFFF_0000, 0x1234_5678_9ABC_DEF0, 0xFEDC_BA98_7654_3210);
    let divisors = [
        u256(0, 0, 1, 0),
        u256(0xFFFF_FFFF_FFFF_FFFF, 0x1234_5678_0000_0000, 0x8000_0000_0000_0001, 0),
        u256(1, 2, 3, 0),
        u256(0, 0, u64::MAX, 0),
    ];
    for d in divisors {
        assert!(d.l2 != 0 && d.l3 == 0);
        check_div_against_reference(a, d);
    }
}

#[test]
fn division_knuth_top_limb_divisor() {
    let a = u256(11, 22, 33, 0xFFFF_FFFF_0000_0044);
    let divisors = [
        u256(0, 0, 0, 1),
        u256(5, 6, 7, 0x8000_0000_0000_0000),
        u256(u64::MAX, u64::MAX, u64::MAX, u64::MAX),
        u256(0, 0, 0xFFFF_FFFF_FFFF_FFFF, 3),
    ];
    for d in divisors {
        check_div_against_reference(a, d);
    }
    // dividend below the divisor short-circuits to zero
    assert_eq!(u256(9, 9, 9, 1).div(u256(0, 0, 0, 2)), Uint256::zero());
}

#[test]
fn division_identity_unsigned() {
    let a = u256(0x0123, 0x4567, 0x89AB, 0xCDEF);
    let ds = [u256(97, 0, 0, 0), u256(0, 0x10, 0, 0), u256(1, 2, 3, 4)];
    for d in ds {
        let q = a.div(d);
        // a == q * d + r with 0 <= r < d, recomputed by wraparound ops
        let r = a.wrapping_sub(q.wrapping_mul(d));
        assert!(r.lt(&d));
        assert_eq!(q.wrapping_mul(d).wrapping_add(r), a);
    }
}

#[test]
fn division_identity_signed() {
    let samples: [i128; 6] = [-100, -7, -1, 1, 7, 100];
    for a in samples {
        for b in samples {
            let x = Int256::from_i128(a);
            let y = Int256::from_i128(b);
            let q = x.div(y);
            let r = x.rem(y);
            assert_eq!(q.to_i128(), a / b);
            assert_eq!(r.to_i128(), a % b);
            assert_eq!(q.wrapping_mul(y).wrapping_add(r), x);
        }
    }
}

#[test]
fn min_divided_by_minus_one_wraps() {
    assert_eq!(Int256::min_value().div(Int256::neg_one()), Int256::min_value());
    assert_eq!(Int256::min_value().rem(Int256::neg_one()), Int256::zero());
    assert_eq!(Int64::from_i64(i64::MIN).div(Int64::from_i64(-1)).to_i64(), i64::MIN);
    assert_eq!(Int64::from_i64(i64::MIN).rem(Int64::from_i64(-1)).to_i64(), 0);
    assert_eq!(Int128::from_i128(i128::MIN).div(Int128::from_i128(-1)).to_i128(), i128::MIN);
    assert_eq!(Int128::from_i128(i128::MIN).rem(Int128::from_i128(-1)).to_i128(), 0);
}

#[test]
fn signed_division_signs() {
    let cases: [(i64, i64, i64, i64); 4] = [
        (7, 2, 3, 1),
        (-7, 2, -3, -1),
        (7, -2, -3, 1),
        (-7, -2, 3, -1),
    ];
    for (a, b, q, r) in cases {
        assert_eq!(Int64::from_i64(a).div(Int64::from_i64(b)).to_i64(), q);
        assert_eq!(Int64::from_i64(a).rem(Int64::from_i64(b)).to_i64(), r);
        let x = Int256::from_i128(a as i128);
        let y = Int256::from_i128(b as i128);
        assert_eq!(x.div(y).to_i128(), q as i128);
        assert_eq!(x.rem(y).to_i128(), r as i128);
    }
}

#[test]
fn small_width_division() {
    let a = Uint64::from_u64(1_000_003);
    let b = Uint64::from_u64(97);
    assert_eq!(a.div(b).to_u64(), 1_000_003 / 97);
    assert_eq!(a.rem(b).to_u64(), 1_000_003 % 97);
    assert_eq!(a.div_by_u32(97).to_u64(), 1_000_003 / 97);
    let (q, r) = a.divrem_by_u32(97);
    assert_eq!(q.to_u64(), 1_000_003 / 97);
    assert_eq!(r, (1_000_003 % 97) as u32);
    let c = Uint128::from_u128(u128::MAX - 5);
    let d = Uint128::from_u128(1 << 77);
    assert_eq!(c.div(d).to_u128(), (u128::MAX - 5) / (1 << 77));
    assert_eq!(c.rem(d).to_u128(), (u128::MAX - 5) % (1 << 77));
    assert_eq!(Int64::from_i64(-100).div(Int64::from_i64(7)).to_i64(), -100 / 7);
    assert_eq!(Int128::from_i128(-100).rem(Int128::from_i128(7)).to_i128(), -100 % 7);
}

#[test]
fn full_division_matches_reference_sweep() {
    let values = [
        u256(1, 0, 0, 0),
        u256(u64::MAX, u64::MAX, 0, 0),
        u256(0, 0, 1, 0),
        u256(0x8000_0000_0000_0000, 1, u64::MAX, 0x7FFF_FFFF_FFFF_FFFF),
        u256(u64::MAX, u64::MAX, u64::MAX, u64::MAX),
        u256(12345, 0, 0, 0x8000_0000_0000_0000),
    ];
    for a in values {
        for b in values {
            check_div_against_reference(a, b);
        }
    }
}

#[test]
fn custom256_division_entry_points() {
    let a = u256(0x1111_2222_3333_4444, 0x5555_6666_7777_8888, 0x9999_AAAA_BBBB_CCCC, 0xDDDD_EEEE_FF00_0011);
    let b = u256(0xFFFF_FFFF, 0, 0x8000_0000_0000_0000, 0);
    assert_eq!(limbint::custom256_div(a, b), from_ref(to_ref(a) / to_ref(b)));
    let d128 = u256(7, 0x9000_0000_0000_0000, 0, 0);
    assert_eq!(limbint::custom256_div(a, d128), from_ref(to_ref(a) / to_ref(d128)));
    assert_eq!(
        limbint::custom256_mul(a, b),
        from_ref(to_ref(a).wrapping_mul(to_ref(b)))
    );
}
