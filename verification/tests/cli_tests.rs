use fire_scope::cli::{parse_country_code, validate_args, Cli};
use fire_scope::error::AppError;

fn base_cli() -> Cli {
    Cli {
        country_codes: Some(vec!["JP".to_string()]),
        as_numbers: Some(vec![65000]),
        overlap: true,
        output_format: "txt".to_string(),
        max_retries: 6,
        max_backoff_sec: 16,
        http_timeout_secs: 20,
        connect_timeout_secs: 10,
        concurrency: 5,
        continue_on_partial: false,
        debug: false,
    }
}

#[test]
fn country_codes_normalize_to_upper() {
    assert_eq!(parse_country_code("jp"), Ok("JP".to_string()));
    assert_eq!(parse_country_code("Usa"), Ok("USA".to_string()));
    assert_eq!(
        parse_country_code("j1"),
        Err("Country code must be alphabetic (A-Z)".to_string())
    );
    assert_eq!(
        parse_country_code("abcd"),
        Err("Country code length must be 2 or 3".to_string())
    );
    assert_eq!(
        parse_country_code(""),
        Err("Country code length must be 2 or 3".to_string())
    );
}

#[test]
fn overlap_requires_both_sides() {
    let args = base_cli();
    let (cc, asns) = validate_args(&args).unwrap();
    assert_eq!(cc, vec!["JP".to_string()]);
    assert_eq!(asns, vec![65000]);

    let mut no_cc = base_cli();
    no_cc.country_codes = None;
    match validate_args(&no_cc) {
        Err(AppError::InvalidInput(m)) => assert!(m.contains("--country")),
        _ => panic!("expected invalid input"),
    }

    let mut no_as = base_cli();
    no_as.as_numbers = None;
    match validate_args(&no_as) {
        Err(AppError::InvalidInput(m)) => assert!(m.contains("--as-number")),
        _ => panic!("expected invalid input"),
    }
}
