use fire_scope::aggregate::aggregate;
use fire_scope::cidr_text::parse_cidr;
use fire_scope::overlap::{find_overlaps, largest_ipv6_block_in_overlap};
use fire_scope::prefix::Prefix;

fn ipnet(s: &str) -> Prefix {
    match parse_cidr(s) {
        Some(p) => p,
        None => panic!("failed to parse {s}"),
    }
}

#[test]
fn find_overlaps_ipv4_and_ipv6_basic() {
    let country = vec![ipnet("10.0.0.0/24"), ipnet("10.0.1.0/24"), ipnet("2001:db8::/32")];
    let aslist = vec![ipnet("10.0.0.128/25"), ipnet("2001:db8:8000::/33")];

    let overlaps = find_overlaps(&country, &aslist);
    let got: Vec<String> = overlaps.into_iter().map(|n| n.to_cidr_string()).collect();

    assert!(got.contains(&"10.0.0.128/25".to_string()));
    assert!(got.contains(&"2001:db8:8000::/33".to_string()));
}

#[test]
fn overlap_exact_scenario() {
    // {10.0.0.0/24, 10.0.1.0/24} with {10.0.0.128/25} meet exactly in the /25
    let a = vec![ipnet("10.0.0.0/24"), ipnet("10.0.1.0/24")];
    let b = vec![ipnet("10.0.0.128/25")];
    let got: Vec<String> =
        find_overlaps(&a, &b).into_iter().map(|n| n.to_cidr_string()).collect();
    assert_eq!(got, vec!["10.0.0.128/25"]);
}

#[test]
fn overlap_is_symmetric() {
    let a = vec![ipnet("10.0.0.0/23"), ipnet("192.0.2.0/26"), ipnet("2001:db8::/48")];
    let b = vec![ipnet("10.0.1.128/25"), ipnet("192.0.2.32/27"), ipnet("2001:db8::/64")];
    assert_eq!(find_overlaps(&a, &b), find_overlaps(&b, &a));
}

#[test]
fn overlap_with_self_is_aggregation() {
    let a = vec![ipnet("10.0.0.0/25"), ipnet("10.0.0.128/25"), ipnet("2001:db8::/33")];
    assert_eq!(find_overlaps(&a, &a), aggregate(&a));
}

#[test]
fn overlap_of_disjoint_sets_is_empty() {
    let a = vec![ipnet("10.0.0.0/24"), ipnet("2001:db8::/32")];
    let b = vec![ipnet("10.0.1.0/24"), ipnet("2001:db9::/32")];
    assert!(find_overlaps(&a, &b).is_empty());

    // adjacent but non-overlapping ranges do not overlap
    let c = vec![ipnet("10.0.0.0/25")];
    let d = vec![ipnet("10.0.0.128/25")];
    assert!(find_overlaps(&c, &d).is_empty());

    // equal family boundaries, different family: never an overlap
    let e = vec![ipnet("10.0.0.0/24")];
    let f = vec![ipnet("::a00:0/120")];
    assert!(find_overlaps(&e, &f).is_empty());
}

#[test]
fn largest_ipv6_block_edges() {
    // the whole space is one /0
    assert_eq!(largest_ipv6_block_in_overlap(0, u128::MAX), 0);
    // a single address is a /128
    assert_eq!(largest_ipv6_block_in_overlap(5, 5), 128);
}
