use fire_scope::cidr_text::parse_cidr;
use fire_scope::output_common::{make_header, render_list_nft, render_list_txt, sanitize_identifier};
use fire_scope::prefix::Prefix;

fn ipnet(s: &str) -> Prefix {
    match parse_cidr(s) {
        Some(p) => p,
        None => panic!("failed to parse {s}"),
    }
}

#[test]
fn sanitize_identifier_examples() {
    assert_eq!(sanitize_identifier(" asn-123 "), "asn_123");
    assert_eq!(sanitize_identifier("日本語混在!"), "UNKNOWN");
    assert_eq!(sanitize_identifier("a".repeat(100).as_str()).len(), 64);
}

#[test]
fn renders_txt_and_nft_contents() {
    let set = vec![ipnet("192.0.2.0/24"), ipnet("2001:db8::/32")];
    let header = make_header("2025-01-01 00:00:00", "JP", "AS1234");
    assert!(header.contains("# Generated at: 2025-01-01 00:00:00"));
    assert!(header.contains("# Country Code: JP"));
    assert!(header.contains("# AS Number: AS1234"));

    let txt = render_list_txt(&set, &header);
    assert!(txt.contains("# Country Code: JP"));
    assert!(txt.contains("192.0.2.0/24"));
    assert!(txt.contains("2001:db8::/32"));
    assert_eq!(txt, format!("{header}192.0.2.0/24\n2001:db8::/32\n"));

    let define_name = sanitize_identifier("Te$st-List 01");
    assert_eq!(define_name, "Te_st_List_01");
    let nft = render_list_nft(&set, &header, &define_name);
    assert!(nft.contains("# AS Number: AS1234"));
    assert!(nft.contains("192.0.2.0/24"));
    assert!(nft.contains("2001:db8::/32"));
    assert!(nft.contains("define Te_st_List_01"));
    assert_eq!(
        nft,
        format!("{header}define Te_st_List_01 = {{\n    192.0.2.0/24,\n    2001:db8::/32,\n}}\n")
    );
}

#[test]
fn renders_empty_list() {
    let set: Vec<Prefix> = Vec::new();
    let header = make_header("2025-01-01 00:00:00", "ZZ", "N/A");
    let txt = render_list_txt(&set, &header);
    assert_eq!(txt, format!("{header}\n"));
}
