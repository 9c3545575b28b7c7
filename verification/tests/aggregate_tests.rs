use fire_scope::aggregate::aggregate;
use fire_scope::cidr_text::parse_cidr;
use fire_scope::prefix::Prefix;

fn ipnet(s: &str) -> Prefix {
    match parse_cidr(s) {
        Some(p) => p,
        None => panic!("failed to parse {s}"),
    }
}

#[test]
fn merges_siblings_and_drops_contained() {
    // sibling /25 halves merge into the /24; a contained /26 disappears
    let input = vec![ipnet("10.0.0.0/25"), ipnet("10.0.0.128/25"), ipnet("10.0.0.64/26")];
    let got: Vec<String> = aggregate(&input).iter().map(|n| n.to_cidr_string()).collect();
    assert_eq!(got, vec!["10.0.0.0/24"]);
}

#[test]
fn aggregate_is_idempotent() {
    let input = vec![
        ipnet("10.0.0.0/25"),
        ipnet("10.0.0.128/25"),
        ipnet("192.0.2.64/26"),
        ipnet("2001:db8::/33"),
        ipnet("2001:db8:8000::/33"),
    ];
    let once = aggregate(&input);
    let twice = aggregate(&once);
    assert_eq!(once, twice);
}

#[test]
fn aggregation_coverage_is_associative() {
    // aggregate(A) with aggregate(B), re-aggregated, equals aggregate(A plus B)
    let a = vec![ipnet("10.0.0.0/25"), ipnet("192.0.2.0/25")];
    let b = vec![ipnet("10.0.0.128/25"), ipnet("192.0.2.128/25")];

    let mut ab = a.clone();
    ab.extend(b.iter().cloned());
    let direct = aggregate(&ab);

    let mut parts = aggregate(&a);
    parts.extend(aggregate(&b));
    let indirect = aggregate(&parts);

    assert_eq!(direct, indirect);
    let got: Vec<String> = direct.iter().map(|n| n.to_cidr_string()).collect();
    assert_eq!(got, vec!["10.0.0.0/24", "192.0.2.0/24"]);
}

#[test]
fn orders_families_and_sorts() {
    let input = vec![ipnet("2001:db8::/32"), ipnet("192.0.2.0/24"), ipnet("10.0.0.0/8")];
    let got: Vec<String> = aggregate(&input).iter().map(|n| n.to_cidr_string()).collect();
    assert_eq!(got, vec!["10.0.0.0/8", "192.0.2.0/24", "2001:db8::/32"]);
}

#[test]
fn normalizes_host_bits_on_parse() {
    // stray host bits are cleared before aggregation ever sees them
    let p = ipnet("10.0.0.5/24");
    assert_eq!(p.to_cidr_string(), "10.0.0.0/24");
    assert!(parse_cidr("not a cidr").is_none());
    assert!(parse_cidr("10.0.0.0/33").is_none());
    assert!(parse_cidr("2001:db8::/129").is_none());
}
