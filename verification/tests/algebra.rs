use cidr_aggregator::aggregator::Aggregator;
use cidr_aggregator::{IpRange, Ipv4Range, Ipv6Range};

fn v4(base: u128, prefix: u8) -> Ipv4Range {
    Ipv4Range::from_cidr_pair((base, prefix))
}

#[test]
fn aggregate_merges_adjacent_siblings() {
    // 10.0.0.0/24 and 10.0.1.0/24 merge into 10.0.0.0/23
    let input = vec![v4(0x0A000000, 24), v4(0x0A000100, 24)];
    let out = input.aggregated();
    assert_eq!(out, vec![v4(0x0A000000, 23)]);
}

#[test]
fn aggregate_keeps_non_adjacent_ranges_apart() {
    // 10.0.0.0/30 covers .0-.3 and 10.0.0.5/32 covers .5: a gap at .4
    let input = vec![v4(0x0A000005, 32), v4(0x0A000000, 30)];
    let out = input.aggregated();
    assert_eq!(out, vec![v4(0x0A000000, 30), v4(0x0A000005, 32)]);
}

#[test]
fn aggregate_of_empty_is_empty() {
    let input: Vec<Ipv4Range> = Vec::new();
    assert_eq!(input.aggregated(), Vec::new());
}

#[test]
fn aggregate_is_idempotent_on_samples() {
    let input = vec![
        v4(0x0A000000, 24),
        v4(0x0A000080, 25),
        v4(0xC0A80000, 16),
        v4(0x0A000100, 24),
    ];
    let once = input.aggregated();
    let twice = once.clone().aggregated();
    assert_eq!(once, twice);
}

#[test]
fn aggregate_absorbs_duplicates_and_overlaps() {
    let input = vec![v4(0x0A000000, 8), v4(0x0A000000, 8), v4(0x0A330000, 16)];
    let out = input.aggregated();
    assert_eq!(out, vec![v4(0x0A000000, 8)]);
}

#[test]
fn aggregate_handles_top_of_address_space() {
    // 255.255.255.255/32 is adjacent to 240.0.0.0/4 minus its last address
    let input = vec![
        Ipv4Range(0xFFFFFFFF, 0xFFFFFFFF),
        Ipv4Range(0xF0000000, 0xFFFFFFFE),
    ];
    let out = input.aggregated();
    assert_eq!(out, vec![Ipv4Range(0xF0000000, 0xFFFFFFFF)]);
}

#[test]
fn aggregate_whole_space_from_two_halves() {
    let input = vec![v4(0x80000000, 1), v4(0, 1)];
    let out = input.aggregated();
    assert_eq!(out, vec![Ipv4Range(0, u32::MAX)]);
}

#[test]
fn complement_of_empty_is_full_space() {
    let input: Vec<Ipv4Range> = Vec::new();
    let out = input.reversed();
    assert_eq!(out, vec![v4(0, 0)]);
    assert_eq!(out, vec![Ipv4Range::full()]);
}

#[test]
fn complement_of_full_space_is_empty() {
    let input = vec![Ipv4Range::full()];
    assert_eq!(input.reversed(), Vec::new());
}

#[test]
fn complement_emits_leading_and_trailing_gaps() {
    let input = vec![v4(0x0A000000, 8)];
    let out = input.reversed();
    assert_eq!(
        out,
        vec![
            Ipv4Range(0, 0x09FFFFFF),
            Ipv4Range(0x0B000000, 0xFFFFFFFF),
        ]
    );
}

#[test]
fn complement_suppresses_trailing_gap_at_top() {
    let input = vec![Ipv4Range(0x80000000, 0xFFFFFFFF)];
    assert_eq!(input.reversed(), vec![Ipv4Range(0, 0x7FFFFFFF)]);
}

#[test]
fn complement_twice_gives_back_the_aggregation() {
    let input = vec![v4(0x0A000000, 8), v4(0xC0A80000, 16)];
    let agg = input.aggregated();
    let back = agg.clone().reversed().reversed();
    assert_eq!(back, agg);
}

#[test]
fn complement_and_input_cover_whole_space() {
    let agg = vec![v4(0x0A000000, 8), v4(0xC0A80000, 16)].aggregated();
    let comp = agg.clone().reversed();
    let mut all = agg;
    all.extend(comp);
    let total = all.aggregated();
    assert_eq!(total, vec![Ipv4Range::full()]);
}

#[test]
fn normalize_splits_length_three_range() {
    // 10.0.0.0-10.0.0.2 becomes 10.0.0.0/31 and 10.0.0.2/32
    let input = vec![Ipv4Range::from_cidr_pair_decimal((0x0A000000, 0x0A000002))];
    let out = input.normalized();
    assert_eq!(out, vec![v4(0x0A000000, 31), v4(0x0A000002, 32)]);
}

#[test]
fn normalize_keeps_aligned_block_whole() {
    let input = vec![v4(0x0A000000, 24)];
    assert_eq!(input.clone().normalized(), input);
}

#[test]
fn normalize_emits_full_space_as_one_block() {
    let input = vec![Ipv4Range::full()];
    assert_eq!(input.normalized(), vec![Ipv4Range::full()]);
}

#[test]
fn normalize_respects_alignment_of_first_address() {
    // 10.0.0.2-10.0.0.5 -> .2/31, .4/31
    let input = vec![Ipv4Range::from_cidr_pair_decimal((0x0A000002, 0x0A000005))];
    let out = input.normalized();
    assert_eq!(out, vec![v4(0x0A000002, 31), v4(0x0A000004, 31)]);
}

#[test]
fn normalize_output_is_cidr_renderable() {
    let input = vec![Ipv4Range::from_cidr_pair_decimal((3, 0x0000EF17))];
    for r in input.normalized() {
        let (base, prefix) = r.into_cidr_pair();
        assert_eq!(v4(base, prefix), r);
    }
}

#[test]
fn difference_carves_a_block_out_of_the_full_space() {
    let a = vec![v4(0, 0)];
    let b = vec![v4(0x0A000000, 8)];
    let out = a.differenced(&b);
    assert_eq!(
        out,
        vec![
            Ipv4Range(0, 0x09FFFFFF),
            Ipv4Range(0x0B000000, 0xFFFFFFFF),
        ]
    );
    let blocks = out.normalized();
    assert_eq!(
        blocks,
        vec![
            v4(0x00000000, 5),
            v4(0x08000000, 7),
            v4(0x0B000000, 8),
            v4(0x0C000000, 6),
            v4(0x10000000, 4),
            v4(0x20000000, 3),
            v4(0x40000000, 2),
            v4(0x80000000, 1),
        ]
    );
}

#[test]
fn difference_with_empty_subtrahend_is_identity() {
    let a = vec![v4(0x0A000000, 8), v4(0xC0A80000, 16)];
    let out = a.clone().differenced(&Vec::new());
    assert_eq!(out, a);
}

#[test]
fn difference_of_empty_minuend_is_empty() {
    let a: Vec<Ipv4Range> = Vec::new();
    let b = vec![v4(0x0A000000, 8)];
    assert_eq!(a.differenced(&b), Vec::new());
}

#[test]
fn difference_removes_contained_ranges_entirely() {
    let a = vec![v4(0x0A000000, 24)];
    let b = vec![v4(0x0A000000, 8)];
    assert_eq!(a.differenced(&b), Vec::new());
}

#[test]
fn difference_splits_around_an_inner_hole() {
    // [0..255] minus [16..31] -> [0..15], [32..255]
    let a = vec![Ipv4Range(0, 255)];
    let b = vec![Ipv4Range(16, 31)];
    assert_eq!(
        a.differenced(&b),
        vec![Ipv4Range(0, 15), Ipv4Range(32, 255)]
    );
}

#[test]
fn difference_subtrahend_ending_at_top_of_space() {
    let a = vec![Ipv4Range(0x0A000000, 0xFFFFFFFF)];
    let b = vec![Ipv4Range(0x80000000, 0xFFFFFFFF)];
    assert_eq!(a.differenced(&b), vec![Ipv4Range(0x0A000000, 0x7FFFFFFF)]);
}

#[test]
fn in_place_variants_match_value_variants() {
    let input = vec![v4(0x0A000000, 24), v4(0x0A000100, 24), v4(0xE0000000, 4)];
    let mut m = input.clone();
    m.aggregate();
    assert_eq!(m, input.clone().aggregated());
    let mut c = m.clone();
    c.reverse();
    assert_eq!(c, m.clone().reversed());
    let hole = vec![v4(0x0A000000, 25)];
    let mut d = m.clone();
    d.difference(&hole);
    assert_eq!(d, m.clone().differenced(&hole));
    let mut n = d.clone();
    n.normalize();
    assert_eq!(n, d.normalized());
}

#[test]
fn count_address_sums_inclusive_lengths() {
    let v = vec![v4(0x0A000000, 24), v4(0xC0A80000, 16)];
    assert_eq!(v.count_address(), 256 + 65536);
}

#[test]
fn count_address_wraps_to_zero_on_full_space() {
    let v = vec![Ipv4Range::full()];
    assert_eq!(v.count_address(), 0);
    let halves = vec![v4(0, 1), v4(0x80000000, 1)];
    assert_eq!(halves.count_address(), 0);
}

#[test]
fn ipv6_aggregate_and_complement() {
    let input = vec![
        Ipv6Range(0, 0),
        Ipv6Range(1, 1),
    ];
    let agg = input.aggregated();
    assert_eq!(agg, vec![Ipv6Range(0, 1)]);
    let comp = agg.reversed();
    assert_eq!(comp, vec![Ipv6Range(2, u128::MAX)]);
}

#[test]
fn ipv6_normalize_full_space() {
    let input: Vec<Ipv6Range> = Vec::new();
    let out = input.reversed().normalized();
    assert_eq!(out, vec![Ipv6Range::full()]);
    assert_eq!(out[0].into_cidr_pair(), (0, 0));
}

#[test]
fn ipv6_count_address_wraps_to_zero_on_full_space() {
    let v = vec![Ipv6Range::full()];
    assert_eq!(v.count_address(), 0);
}

#[test]
fn ipv6_aggregate_at_top_of_address_space() {
    let input = vec![
        Ipv6Range(u128::MAX, u128::MAX),
        Ipv6Range(u128::MAX - 9, u128::MAX - 1),
    ];
    assert_eq!(
        input.aggregated(),
        vec![Ipv6Range(u128::MAX - 9, u128::MAX)]
    );
}

#[test]
fn ipv6_difference_touching_top_of_address_space() {
    let a = vec![Ipv6Range(0, u128::MAX)];
    let b = vec![Ipv6Range(10, u128::MAX)];
    assert_eq!(a.differenced(&b), vec![Ipv6Range(0, 9)]);
}

#[test]
fn range_starting_at_zero_keeps_leading_block() {
    // [0..2] -> 0.0.0.0/31 and 0.0.0.2/32
    let input = vec![Ipv4Range(0, 2)];
    assert_eq!(
        input.normalized(),
        vec![Ipv4Range(0, 1), Ipv4Range(2, 2)]
    );
}

#[test]
fn aggregate_preserves_covered_addresses() {
    // overlapping input: [0..10], [5..20], [20..30] cover exactly [0..30]
    let input = vec![Ipv4Range(5, 20), Ipv4Range(0, 10), Ipv4Range(20, 30)];
    let out = input.aggregated();
    assert_eq!(out, vec![Ipv4Range(0, 30)]);
    assert_eq!(out.count_address(), 31);
}
