use cidr_aggregator::aggregator::Aggregator;
use cidr_aggregator::{IpRange, Ipv4Range, Ipv6Range};

#[test]
fn ipv4_reserved_table_contents() {
    let t = Ipv4Range::reserved();
    assert_eq!(t.len(), 14);
    // 0.0.0.0/8 stands first, the merged 224.0.0.0/3 block last
    assert_eq!(t[0], Ipv4Range(0, 0x00FFFFFF));
    assert_eq!(t[13], Ipv4Range(0xE0000000, 0xFFFFFFFF));
    // 10.0.0.0/8 is in the table
    assert!(t.contains(&Ipv4Range(0x0A000000, 0x0AFFFFFF)));
}

#[test]
fn ipv6_reserved_table_contents() {
    let t = Ipv6Range::reserved();
    assert_eq!(t.len(), 12);
    // ::/128 and ::1/128 merged into one leading pair
    assert_eq!(t[0], Ipv6Range(0, 1));
    // ff00::/8 stands last
    assert_eq!(
        t[11],
        Ipv6Range(0xFF000000_00000000_00000000_00000000, u128::MAX)
    );
}

#[test]
fn reserved_tables_are_already_aggregated() {
    let t4 = Ipv4Range::reserved();
    assert_eq!(t4.clone().aggregated(), t4);
    let t6 = Ipv6Range::reserved();
    assert_eq!(t6.clone().aggregated(), t6);
}

#[test]
fn difference_against_reserved_removes_private_block() {
    let a = vec![Ipv4Range(0x0A000000, 0x0A0000FF)];
    let out = a.differenced(&Ipv4Range::reserved());
    assert_eq!(out, Vec::new());
}

#[test]
fn difference_against_reserved_keeps_public_addresses() {
    // 8.8.8.0/24 is not reserved
    let a = vec![Ipv4Range(0x08080800, 0x080808FF)];
    let out = a.clone().differenced(&Ipv4Range::reserved());
    assert_eq!(out, a);
}
