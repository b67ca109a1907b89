use cidr_aggregator::utils::{checked_log2_u128, floor_log2, u128_trailing_zeros, MathLog2};
use cidr_aggregator::{checked_into_cidr_pair, EitherIpRange, IpRange, Ipv4Range, Ipv6Range};

#[test]
fn from_cidr_pair_gives_inclusive_bounds() {
    let r = Ipv4Range::from_cidr_pair((0x0A000000, 24));
    assert_eq!(r, Ipv4Range(0x0A000000, 0x0A0000FF));
    let host = Ipv4Range::from_cidr_pair((0x0A000001, 32));
    assert_eq!(host, Ipv4Range(0x0A000001, 0x0A000001));
    let all = Ipv4Range::from_cidr_pair((0, 0));
    assert_eq!(all, Ipv4Range(0, u32::MAX));
}

#[test]
fn into_cidr_pair_round_trips() {
    for (base, prefix) in [(0u128, 0u8), (0x0A000000, 8), (0xC0A80000, 16), (0xFFFFFFFF, 32)] {
        let r = Ipv4Range::from_cidr_pair((base, prefix));
        assert_eq!(r.into_cidr_pair(), (base, prefix));
    }
}

#[test]
fn cidr_pair_decimal_accessors() {
    let r = Ipv4Range::from_cidr_pair_decimal((5, 9));
    assert_eq!(r.into_cidr_pair_decimal(), (5, 9));
    assert_eq!(r.first_address_as_decimal(), 5);
    assert_eq!(r.last_address_as_decimal(), 9);
    assert_eq!(r.length(), 5);
}

#[test]
fn length_wraps_to_zero_on_full_range() {
    assert_eq!(Ipv4Range::full().length(), 0);
    assert_eq!(Ipv6Range::full().length(), 0);
    assert_eq!(Ipv6Range(0, 0).length(), 1);
}

#[test]
fn ipv6_from_cidr_pair() {
    let r = Ipv6Range::from_cidr_pair((0x20010DB8 << 96, 32));
    assert_eq!(
        r,
        Ipv6Range(
            0x20010DB8_00000000_00000000_00000000,
            0x20010DB8_FFFFFFFF_FFFFFFFF_FFFFFFFF
        )
    );
    assert_eq!(r.into_cidr_pair(), (0x20010DB8 << 96, 32));
}

#[test]
fn either_range_accessors() {
    let four = EitherIpRange::V4(Ipv4Range(1, 2));
    let six = EitherIpRange::V6(Ipv6Range(3, 4));
    assert!(four.is_v4());
    assert!(!four.is_v6());
    assert!(six.is_v6());
    assert!(!six.is_v4());
    assert_eq!(four.into_v4(), Some(Ipv4Range(1, 2)));
    assert_eq!(four.into_v6(), None);
    assert_eq!(six.into_v6(), Some(Ipv6Range(3, 4)));
    assert_eq!(six.into_v4(), None);
}

#[test]
fn math_log2_on_u32() {
    assert_eq!(1u32.log2(), 0);
    assert_eq!(2u32.log2(), 1);
    assert_eq!(255u32.log2(), 7);
    assert_eq!(256u32.log2(), 8);
    assert_eq!(u32::MAX.log2(), 31);
    assert_eq!(256u32.checked_log2(), Some(8));
    assert_eq!(255u32.checked_log2(), None);
    assert_eq!(0u32.checked_log2(), None);
    assert_eq!(1u32.checked_log2(), Some(0));
}

#[test]
fn math_log2_on_u128() {
    assert_eq!((1u128 << 100).log2(), 100);
    assert_eq!(u128::MAX.log2(), 127);
    assert_eq!((1u128 << 127).checked_log2(), Some(127));
    assert_eq!(u128::MAX.checked_log2(), None);
}

#[test]
fn bit_helpers() {
    assert_eq!(floor_log2(10), 3);
    assert_eq!(u128_trailing_zeros(0x0A000000), 25);
    assert_eq!(u128_trailing_zeros(1), 0);
    assert_eq!(checked_log2_u128(1 << 64), Some(64));
    assert_eq!(checked_log2_u128((1 << 64) + 2), None);
}

#[test]
fn width_and_bounds() {
    assert_eq!(Ipv4Range::width(), 32);
    assert_eq!(Ipv6Range::width(), 128);
    assert_eq!(Ipv4Range::max_value(), u32::MAX as u128);
    assert_eq!(Ipv6Range::max_value(), u128::MAX);
    assert_eq!(Ipv4Range::full(), Ipv4Range(0, u32::MAX));
    assert_eq!(Ipv6Range::full(), Ipv6Range(0, u128::MAX));
}

#[test]
fn checked_into_cidr_pair_accepts_aligned_blocks() {
    let r = Ipv4Range::from_cidr_pair((0x0A000000, 24));
    assert_eq!(checked_into_cidr_pair(r), Some((0x0A000000, 24)));
    assert_eq!(checked_into_cidr_pair(Ipv4Range::full()), Some((0, 0)));
    assert_eq!(checked_into_cidr_pair(Ipv6Range::full()), Some((0, 0)));
    assert_eq!(checked_into_cidr_pair(Ipv6Range(4, 7)), Some((4, 126)));
}

#[test]
fn checked_into_cidr_pair_rejects_non_blocks() {
    // length three: not a power of two
    assert_eq!(checked_into_cidr_pair(Ipv4Range(0, 2)), None);
    // power-of-two length but misaligned first address
    assert_eq!(checked_into_cidr_pair(Ipv4Range(1, 2)), None);
}
