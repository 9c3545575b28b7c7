use fire_scope::error::AppError;
use fire_scope::ipv4_utils::{ipv4_summarize_range, largest_ipv4_block, parse_ipv4_range_to_cidrs};
use fire_scope::IpFamily;

#[test]
fn largest_block_basic_cases() {
    // 0.0.0.0..=0.0.0.255 -> /24
    let p = largest_ipv4_block(0, 255);
    assert_eq!(p, 24);

    // 0.0.0.0..=0.0.1.255 -> /23
    let p = largest_ipv4_block(0, 511);
    assert_eq!(p, 23);

    // a single address -> /32
    let p = largest_ipv4_block(1, 1);
    assert_eq!(p, 32);
}

#[test]
fn summarizes_ipv4_range_minimal_sets() {
    // 0..=255 -> 0.0.0.0/24
    let cidrs = ipv4_summarize_range(0, 255);
    assert_eq!(cidrs.len(), 1);
    match cidrs[0].family {
        IpFamily::V4 => {
            assert_eq!(cidrs[0].addr, 0);
            assert_eq!(cidrs[0].len, 24);
        }
        _ => panic!("unexpected v6"),
    }

    // 1..=3 -> 0.0.0.1/32, 0.0.0.2/31
    let cidrs = ipv4_summarize_range(1, 3);
    assert_eq!(cidrs.len(), 2);
    let got: Vec<String> = cidrs.iter().map(|n| n.to_cidr_string()).collect();
    assert_eq!(got, vec!["0.0.0.1/32", "0.0.0.2/31"]);
}

#[test]
fn parses_ipv4_range_to_cidrs() -> Result<(), AppError> {
    // width 1 -> /32
    let v = parse_ipv4_range_to_cidrs("1.2.3.4", "1")?;
    assert_eq!(v.len(), 1);
    assert_eq!(v[0].to_cidr_string(), "1.2.3.4/32");

    // width 256 aligned -> /24
    let v = parse_ipv4_range_to_cidrs("1.2.3.0", "256")?;
    assert_eq!(v.len(), 1);
    assert_eq!(v[0].to_cidr_string(), "1.2.3.0/24");

    // width 0 -> error
    let e = parse_ipv4_range_to_cidrs("1.2.3.4", "0");
    assert!(e.is_err());

    // past the 32-bit boundary -> error
    let e = parse_ipv4_range_to_cidrs("255.255.255.255", "2");
    assert!(e.is_err());
    Ok(())
}

#[test]
fn summarizes_whole_and_unaligned_ranges() {
    // the whole IPv4 space is one /0
    let v = ipv4_summarize_range(0, u32::MAX as u64);
    let got: Vec<String> = v.iter().map(|n| n.to_cidr_string()).collect();
    assert_eq!(got, vec!["0.0.0.0/0"]);

    // an inverted range yields nothing
    assert!(ipv4_summarize_range(10, 3).is_empty());

    // a start beyond the 32-bit space yields nothing
    assert!(ipv4_summarize_range(0x1_0000_0000, 0x1_0000_0010).is_empty());

    // 255..=257 crosses an octet boundary
    let v = ipv4_summarize_range(255, 257);
    let got: Vec<String> = v.iter().map(|n| n.to_cidr_string()).collect();
    assert_eq!(got, vec!["0.0.0.255/32", "0.0.1.0/31"]);
}
