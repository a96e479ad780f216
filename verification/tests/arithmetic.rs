use limbint::int128::Int128;
use limbint::int256::Int256;
use limbint::int64::Int64;
use limbint::uint128::Uint128;
use limbint::uint256::Uint256;
use limbint::uint64::Uint64;

fn u256(l0: u64, l1: u64, l2: u64, l3: u64) -> Uint256 {
    Uint256 { l0, l1, l2, l3 }
}

fn i256(l0: u64, l1: u64, l2: u64, l3: u64) -> Int256 {
    Int256 { l0, l1, l2, l3 }
}

#[test]
fn uint64_round_trip() {
    for v in [0u64, 1, 0xFFFF_FFFF, 0x1_0000_0000, u64::MAX, 0xDEAD_BEEF_CAFE_F00D] {
        assert_eq!(Uint64::from_u64(v).to_u64(), v);
    }
}

#[test]
fn int64_round_trip() {
    for v in [0i64, 1, -1, i64::MIN, i64::MAX, -123_456_789_012_345] {
        assert_eq!(Int64::from_i64(v).to_i64(), v);
    }
}

#[test]
fn int128_round_trip() {
    for v in [0i128, 1, -1, i128::MIN, i128::MAX, -0x1234_5678_9ABC_DEF0_1234] {
        assert_eq!(Int128::from_i128(v).to_i128(), v);
    }
}

#[test]
fn int256_round_trip() {
    for v in [0i128, 1, -1, i128::MIN, i128::MAX, -42] {
        assert_eq!(Int256::from_i128(v).to_i128(), v);
    }
}

#[test]
fn uint64_wraparound_matches_native() {
    let pairs = [
        (0u64, 0u64),
        (1, u64::MAX),
        (u64::MAX, u64::MAX),
        (0x8000_0000_0000_0000, 0x8000_0000_0000_0000),
        (0xDEAD_BEEF, 0xCAFE_F00D_1234_5678),
    ];
    for (a, b) in pairs {
        let x = Uint64::from_u64(a);
        let y = Uint64::from_u64(b);
        assert_eq!(x.wrapping_add(y).to_u64(), a.wrapping_add(b));
        assert_eq!(x.wrapping_sub(y).to_u64(), a.wrapping_sub(b));
        assert_eq!(x.wrapping_mul(y).to_u64(), a.wrapping_mul(b));
    }
}

#[test]
fn int64_wraparound_matches_native() {
    let pairs = [(0i64, -1i64), (i64::MAX, 1), (i64::MIN, -1), (-7, 9), (i64::MIN, i64::MIN)];
    for (a, b) in pairs {
        let x = Int64::from_i64(a);
        let y = Int64::from_i64(b);
        assert_eq!(x.wrapping_add(y).to_i64(), a.wrapping_add(b));
        assert_eq!(x.wrapping_sub(y).to_i64(), a.wrapping_sub(b));
        assert_eq!(x.wrapping_mul(y).to_i64(), a.wrapping_mul(b));
    }
}

#[test]
fn int128_wraparound_matches_native() {
    let pairs = [(0i128, -1i128), (i128::MAX, 1), (i128::MIN, -1), (-7, 9), (i128::MIN, i128::MIN)];
    for (a, b) in pairs {
        let x = Int128::from_i128(a);
        let y = Int128::from_i128(b);
        assert_eq!(x.wrapping_add(y).to_i128(), a.wrapping_add(b));
        assert_eq!(x.wrapping_sub(y).to_i128(), a.wrapping_sub(b));
        assert_eq!(x.wrapping_mul(y).to_i128(), a.wrapping_mul(b));
    }
}

#[test]
fn uint128_wraparound_matches_native() {
    let pairs: [(u128, u128); 4] = [
        (0, u128::MAX),
        (u128::MAX, u128::MAX),
        (1 << 127, 1 << 127),
        (0xDEAD_BEEF_0000_0001, 0xFFFF_FFFF_FFFF_FFFF_FFFF),
    ];
    for (a, b) in pairs {
        let x = Uint128::from_u128(a);
        let y = Uint128::from_u128(b);
        assert_eq!(x.wrapping_add(y).to_u128(), a.wrapping_add(b));
        assert_eq!(x.wrapping_sub(y).to_u128(), a.wrapping_sub(b));
        assert_eq!(x.wrapping_mul(y).to_u128(), a.wrapping_mul(b));
    }
}

#[test]
fn uint256_max_times_two_truncates() {
    let max = Uint256::max_value();
    let two = u256(2, 0, 0, 0);
    let expect = u256(u64::MAX - 1, u64::MAX, u64::MAX, u64::MAX);
    assert_eq!(max.wrapping_mul(two), expect);
    assert_eq!(limbint::custom256_mul(max, two), expect);
}

#[test]
fn uint256_algebraic_identities() {
    let a = u256(0x0123_4567_89AB_CDEF, 0xFEDC_BA98_7654_3210, 0x0F0F_F0F0_AAAA_5555, 0x8000_1111_2222_3333);
    let b = u256(u64::MAX, 0, u64::MAX, 1);
    let one = u256(1, 0, 0, 0);
    let zero = Uint256::zero();
    assert_eq!(a.wrapping_add(b), b.wrapping_add(a));
    assert_eq!(a.wrapping_mul(b), b.wrapping_mul(a));
    assert_eq!(a.wrapping_add(b).wrapping_sub(b), a);
    assert_eq!(a.wrapping_sub(a), zero);
    assert_eq!(a.wrapping_mul(one), a);
    assert_eq!(a.wrapping_mul(zero), zero);
}

#[test]
fn int256_negation_and_bitwise_identities() {
    let a = i256(0x1111, 0x2222, 0x3333, 0x8444_0000_0000_0000);
    assert_eq!(a.neg().neg(), a);
    assert_eq!(Int256::min_value().neg(), Int256::min_value());
    assert_eq!(a.not().not(), a);
    assert_eq!(a.bitand(a), a);
    assert_eq!(a.bitor(a), a);
    assert_eq!(a.bitxor(a), Int256::zero());
}

#[test]
fn int256_signs_and_abs() {
    let neg = Int256::from_i128(-5);
    let pos = Int256::from_i128(5);
    assert!(neg.is_negative());
    assert!(!neg.is_positive());
    assert!(pos.is_positive());
    assert!(Int256::zero().is_zero());
    assert_eq!(neg.signum(), Int256::neg_one());
    assert_eq!(pos.signum(), Int256::one());
    assert_eq!(Int256::zero().signum(), Int256::zero());
    assert_eq!(neg.abs(), pos);
    assert_eq!(neg.wrapping_abs(), pos);
    assert_eq!(neg.checked_abs(), Some(pos));
    assert_eq!(Int256::min_value().checked_abs(), None);
    assert_eq!(Int256::min_value().wrapping_abs(), Int256::min_value());
}

#[test]
fn small_widths_signs_and_abs() {
    assert_eq!(Int64::from_i64(-9).abs().to_i64(), 9);
    assert_eq!(Int64::from_i64(i64::MIN).checked_abs(), None);
    assert_eq!(Int64::from_i64(i64::MIN).wrapping_abs().to_i64(), i64::MIN);
    assert_eq!(Int64::from_i64(-3).signum().to_i64(), -1);
    assert!(Int64::from_i64(-3).is_negative());
    assert!(Int64::from_i64(3).is_positive());
    assert!(Int64::zero().is_zero());
    assert_eq!(Int128::from_i128(-9).abs().to_i128(), 9);
    assert_eq!(Int128::from_i128(i128::MIN).checked_abs(), None);
    assert_eq!(Int128::from_i128(i128::MIN).wrapping_abs().to_i128(), i128::MIN);
    assert_eq!(Int128::from_i128(7).signum().to_i128(), 1);
}

#[test]
fn comparisons_match_native() {
    let vals64: [i64; 5] = [i64::MIN, -1, 0, 1, i64::MAX];
    for a in vals64 {
        for b in vals64 {
            let x = Int64::from_i64(a);
            let y = Int64::from_i64(b);
            assert_eq!(x.lt(&y), a < b);
            assert_eq!(x.le(&y), a <= b);
            assert_eq!(x.le(&x), true);
        }
    }
    let vals: [i128; 5] = [i128::MIN, -1, 0, 1, i128::MAX];
    for a in vals {
        for b in vals {
            let x = Int256::from_i128(a);
            let y = Int256::from_i128(b);
            assert_eq!(x.lt(&y), a < b);
            assert_eq!(x.le(&y), a <= b);
        }
    }
    let u: [u128; 4] = [0, 1, 1 << 127, u128::MAX];
    for a in u {
        for b in u {
            let x = Uint128::from_u128(a);
            let y = Uint128::from_u128(b);
            assert_eq!(x.lt(&y), a < b);
            assert_eq!(x.le(&y), a <= b);
        }
    }
}

#[test]
fn shifts_at_and_past_the_width() {
    let x = Int128 { l: 0xDEAD_BEEF, h: 0x8000_0000_0000_0001 };
    assert_eq!(x.shl(128), Int128::zero());
    assert_eq!(Int64::from_i64(-77).shl(64), Int64::zero());
    let big = u256(1, 2, 3, 4);
    assert_eq!(big.shl_u32(256), Uint256::zero());
    // arithmetic shift of a negative value by width - 1 leaves all ones
    assert_eq!(Int256::from_i128(-2).shr(255), Int256::neg_one());
    assert_eq!(Int64::from_i64(i64::MIN).shr(63).to_i64(), -1);
    assert_eq!(Int128::from_i128(-1).shr(127).to_i128(), -1);
}

#[test]
fn shifts_move_bits() {
    let a = u256(0x8000_0000_0000_0000, 0, 0, 0);
    assert_eq!(a.shl_u32(1), u256(0, 1, 0, 0));
    assert_eq!(a.shl_u32(65), u256(0, 0, 1, 0));
    let b = u256(0, 0, 0, 1);
    assert_eq!(b.shr_u32(192), u256(1, 0, 0, 0));
    assert_eq!(b.shr_u32(1), u256(0, 0, 0x8000_0000_0000_0000, 0));
    assert_eq!(Int64::from_i64(5).shl(3).to_i64(), 40);
    assert_eq!(Int64::from_i64(-40).shr(3).to_i64(), -5);
    assert_eq!(Int128::from_i128(-4).shr(1).to_i128(), -2);
    assert_eq!(Int128::from_i128(3).shl(100).to_i128(), 3 << 100);
    assert_eq!(Int256::from_i128(-1).shl(1).to_i128(), -2);
}

#[test]
fn leading_zero_counts() {
    assert_eq!(Uint64::from_u64(0).leading_zeros(), 64);
    assert_eq!(Uint64::from_u64(1).leading_zeros(), 63);
    assert_eq!(Uint64::from_u64(u64::MAX).leading_zeros(), 0);
    assert_eq!(u256(0, 0, 0, 0).leading_zeros(), 256);
    assert_eq!(u256(1, 0, 0, 0).leading_zeros(), 255);
    assert_eq!(u256(0, 0, 1, 0).leading_zeros(), 127);
    assert_eq!(u256(0, 0, 0, 0x8000_0000_0000_0000).leading_zeros(), 0);
    assert_eq!(i256(0, 0, 0x10, 0).leading_zeros(), 123);
}

#[test]
fn widening_mul_is_exact() {
    let a = Uint64::from_u64(u64::MAX);
    let (hi, lo) = {
        let r = a.widening_mul(a);
        (r.0.to_u64(), r.1.to_u64())
    };
    let full = (u64::MAX as u128) * (u64::MAX as u128);
    assert_eq!(hi, (full >> 64) as u64);
    assert_eq!(lo, full as u64);
    let b = Uint64::new(0xCAFE_F00D, 0x1234_5678);
    let c = Uint64::new(0x9ABC_DEF0, 0x0FED_CBA9);
    let r = b.widening_mul(c);
    let full2 = (b.to_u64() as u128) * (c.to_u64() as u128);
    assert_eq!(r.0.to_u64(), (full2 >> 64) as u64);
    assert_eq!(r.1.to_u64(), full2 as u64);
}

#[test]
fn native_helpers_match_std() {
    assert_eq!(limbint::native_add(u128::MAX, 2), 1);
    assert_eq!(limbint::native_sub(0, 1), u128::MAX);
    assert_eq!(limbint::native_mul(1 << 127, 2), 0);
    assert_eq!(limbint::native_div(100, 7), 14);
    assert_eq!(limbint::native_rem(100, 7), 2);
    assert!(limbint::native_eq(5, 5));
    assert!(limbint::native_lt(4, 5));
    assert!(limbint::native_le(5, 5));
    assert!(limbint::native_gt(6, 5));
    assert!(limbint::native_ge(6, 6));
    assert_eq!(limbint::native_u64_sub(0, 1), u64::MAX);
    assert_eq!(
        limbint::custom256_add(Uint256::max_value(), Uint256 { l0: 1, l1: 0, l2: 0, l3: 0 }),
        Uint256::zero()
    );
    assert_eq!(
        limbint::custom256_sub(Uint256::zero(), Uint256 { l0: 1, l1: 0, l2: 0, l3: 0 }),
        Uint256::max_value()
    );
}

#[test]
fn small_width_bitwise_operations() {
    let a = Int64::new(0xF0F0_F0F0, 0x1234_5678);
    assert_eq!(a.not().not(), a);
    assert_eq!(a.bitand(a), a);
    assert_eq!(a.bitor(a), a);
    assert_eq!(a.bitxor(a), Int64::zero());
    let b = Int128::new(0xAAAA, 0x5555);
    assert_eq!(b.not().not(), b);
    assert_eq!(b.bitxor(b), Int128::zero());
    let c = Int64::new(0xFF00, 0);
    let d = Int64::new(0x0FF0, 0);
    assert_eq!(c.bitand(d).to_i64(), 0x0F00);
    assert_eq!(c.bitor(d).to_i64(), 0xFFF0);
    assert_eq!(c.bitxor(d).to_i64(), 0xF0F0);
}

#[test]
fn signed_unsigned_conversions() {
    let x = Int256::from_i128(-1);
    let u = x.to_uint256();
    assert_eq!(u, Uint256::max_value());
    assert_eq!(Int256::from_uint256(u), x);
    let y = Int256::new(1, 2, 3, 4);
    assert_eq!(y, i256(1, 2, 3, 4));
    assert_eq!(Int256::from_uint256(y.to_uint256()), y);
    assert_eq!(Int64::new(7, 0).to_i64(), 7);
    assert_eq!(Int128::new(9, 0).to_i128(), 9);
    assert_eq!(Uint64::new(3, 1).to_u64(), 3 + (1u64 << 32));
}

#[test]
fn constants_have_expected_values() {
    assert_eq!(Int256::min_value().to_i128(), 0);
    assert!(Int256::min_value().is_negative());
    assert_eq!(Int256::max_value().lt(&Int256::min_value()), false);
    assert!(Int256::min_value().lt(&Int256::neg_one()));
    assert!(Int256::neg_one().lt(&Int256::zero()));
    assert!(Int256::zero().lt(&Int256::one()));
    assert!(Int256::one().lt(&Int256::max_value()));
    assert_eq!(Int64::min_value().to_i64(), i64::MIN);
    assert_eq!(Int64::max_value().to_i64(), i64::MAX);
    assert_eq!(Int128::min_value().to_i128(), i128::MIN);
    assert_eq!(Int128::max_value().to_i128(), i128::MAX);
}
