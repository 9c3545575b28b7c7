use fire_scope::process::parse_and_collect_ips;

#[test]
fn parse_and_collect_ips_aggregates_and_filters() {
    let rir1 = "apnic|JP|ipv4|10.0.0.0|128|20200101|allocated\n"; // /25
    let rir2 = "apnic|JP|ipv4|10.0.0.128|128|20200101|allocated\n"; // /25
    let rir3 = "apnic|JP|ipv6|2001:db8::|32|20200101|assigned\n"; // v6
    let rir4 = "apnic|JP|ipv4|10.0.1.0|256|20200101|available\n"; // skip
    let texts =
        vec![rir1.to_string(), rir2.to_string(), rir3.to_string(), rir4.to_string()];

    let (v4, v6) = parse_and_collect_ips("JP", &texts).unwrap();
    let v4s: Vec<String> = v4.iter().map(|n| n.to_cidr_string()).collect();
    let v6s: Vec<String> = v6.iter().map(|n| n.to_cidr_string()).collect();

    assert!(v4s.contains(&"10.0.0.0/24".to_string()));
    assert!(!v4s.contains(&"10.0.0.0/25".to_string()));
    assert!(!v4s.contains(&"10.0.0.128/25".to_string()));
    assert!(v6s.contains(&"2001:db8::/32".to_string()));
}

#[test]
fn country_match_is_case_insensitive() {
    let rir = "apnic|jp|ipv4|203.0.113.0|256|20200101|allocated\n";
    let texts = vec![rir.to_string()];
    let (v4, _) = parse_and_collect_ips("JP", &texts).unwrap();
    let v4s: Vec<String> = v4.iter().map(|n| n.to_cidr_string()).collect();
    assert_eq!(v4s, vec!["203.0.113.0/24".to_string()]);
}
