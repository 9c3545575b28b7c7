use fire_scope::cidr_text::parse_cidr;
use fire_scope::{IpFamily, OutputFormat};

#[test]
fn family_labels() {
    assert_eq!(IpFamily::V4.route_key(), "route:");
    assert_eq!(IpFamily::V6.route_key(), "route6:");
    assert_eq!(IpFamily::V4.as_str(), "IPv4");
    assert_eq!(IpFamily::V6.as_str(), "IPv6");
    assert_eq!(IpFamily::V4.width(), 32);
    assert_eq!(IpFamily::V6.width(), 128);
    assert_eq!(OutputFormat::Txt, OutputFormat::Txt);
}

#[test]
fn cidr_text_round_trips() {
    for s in [
        "0.0.0.0/0",
        "10.0.0.0/8",
        "255.255.255.255/32",
        "::/0",
        "2001:db8::/32",
        "2001:db8::1/128",
        "2001:db8:8000::/33",
    ] {
        let p = parse_cidr(s).unwrap_or_else(|| panic!("failed to parse {s}"));
        assert_eq!(p.to_cidr_string(), s);
    }
    // the parsed address really is interpreted, not handed back
    let p = parse_cidr("0.0.1.0/24").unwrap();
    assert_eq!(p.addr, 256);
    let p6 = parse_cidr("::100/120").unwrap();
    assert_eq!(p6.addr, 256);
}

#[test]
fn parses_family_and_format_names() {
    assert_eq!(IpFamily::from_str("IPv4"), Ok(IpFamily::V4));
    assert_eq!(IpFamily::from_str("IPv6"), Ok(IpFamily::V6));
    assert!(IpFamily::from_str("ipv4").is_err());

    assert_eq!(OutputFormat::from_str("nft"), Ok(OutputFormat::Nft));
    assert_eq!(OutputFormat::from_str("NFT"), Ok(OutputFormat::Nft));
    assert_eq!(OutputFormat::from_str("txt"), Ok(OutputFormat::Txt));
    assert_eq!(OutputFormat::from_str(""), Ok(OutputFormat::Txt));
    assert!(OutputFormat::from_str("yaml").is_err());
}
