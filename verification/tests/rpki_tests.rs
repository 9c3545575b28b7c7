use fire_scope::cidr_text::parse_cidr;
use fire_scope::prefix::Prefix;
use fire_scope::rpki::{filter_valid_by_rpki, is_valid, VrpEntry, VrpTable};

fn ipnet(s: &str) -> Prefix {
    match parse_cidr(s) {
        Some(p) => p,
        None => panic!("failed to parse {s}"),
    }
}

fn sample_table() -> VrpTable {
    let roa = VrpEntry { asn: 64500, prefix: ipnet("198.51.100.0/24"), max_length: 24 };
    let wide = VrpEntry { asn: 64501, prefix: ipnet("10.0.0.0/16"), max_length: 24 };
    // max-length shorter than the prefix length: an invalid ROA, discarded
    let invalid = VrpEntry { asn: 64502, prefix: ipnet("192.0.2.0/24"), max_length: 20 };
    VrpTable::build(vec![roa, wide, invalid])
}

#[test]
fn exact_match_validates() {
    let t = sample_table();
    // candidate equal to the VRP prefix with max_length == prefix length
    assert!(is_valid(64500, &ipnet("198.51.100.0/24"), &t));
}

#[test]
fn longer_than_max_length_fails() {
    let t = sample_table();
    // one bit longer than max-length
    assert!(!is_valid(64500, &ipnet("198.51.100.0/25"), &t));
}

#[test]
fn unknown_asn_fails_closed() {
    let t = sample_table();
    assert!(!is_valid(64999, &ipnet("198.51.100.0/24"), &t));
}

#[test]
fn max_length_range_and_containment() {
    let t = sample_table();
    // sub-prefixes up to the max-length validate
    assert!(is_valid(64501, &ipnet("10.0.1.0/24"), &t));
    assert!(is_valid(64501, &ipnet("10.0.0.0/16"), &t));
    // too long, outside, shorter than the VRP, or the wrong family: no
    assert!(!is_valid(64501, &ipnet("10.0.1.0/25"), &t));
    assert!(!is_valid(64501, &ipnet("10.1.0.0/24"), &t));
    assert!(!is_valid(64501, &ipnet("10.0.0.0/8"), &t));
    assert!(!is_valid(64501, &ipnet("::/24"), &t));
}

#[test]
fn invalid_roas_are_discarded_at_load() {
    let t = sample_table();
    assert_eq!(t.len(), 2);
    // the discarded ROA validates nothing, even its own prefix
    assert!(!is_valid(64502, &ipnet("192.0.2.0/24"), &t));
}

#[test]
fn filters_candidates_by_validity() {
    let t = sample_table();
    let nets = vec![ipnet("10.0.1.0/24"), ipnet("10.0.1.0/25"), ipnet("10.0.2.0/24")];
    let got: Vec<String> =
        filter_valid_by_rpki(64501, &nets, &t).iter().map(|n| n.to_cidr_string()).collect();
    assert_eq!(got, vec!["10.0.1.0/24", "10.0.2.0/24"]);
}
