use lib::international::{parse_ca, CaParseError};

#[test]
fn international_parses_simple_address() {
    let addr = parse_ca("123 Main St\nToronto, ON M5V 2T6").unwrap();
    assert_eq!(addr.street_lines, vec!["123 Main St"]);
    assert_eq!(addr.city, "Toronto");
    assert_eq!(addr.province, "ON");
    assert_eq!(addr.postal_code, "M5V 2T6");
}

#[test]
fn normalizes_postal_code_without_space() {
    let addr = parse_ca("123 Main St\nToronto, ON M5V2T6").unwrap();
    assert_eq!(addr.postal_code, "M5V 2T6");
}

#[test]
fn normalizes_postal_code_case() {
    let addr = parse_ca("123 Main St\nToronto, on m5v 2t6").unwrap();
    assert_eq!(addr.province, "ON");
    assert_eq!(addr.postal_code, "M5V 2T6");
}

#[test]
fn keeps_multiple_street_lines() {
    let addr = parse_ca("123 Main St\nUnit 4\nToronto, ON M5V 2T6").unwrap();
    assert_eq!(addr.street_lines, vec!["123 Main St", "Unit 4"]);
}

#[test]
fn rejects_unknown_province() {
    let err = parse_ca("123 Main St\nToronto, XX M5V 2T6").unwrap_err();
    assert_eq!(err, CaParseError::UnknownProvince("XX".to_string()));
}

#[test]
fn rejects_malformed_postal_code() {
    let err = parse_ca("123 Main St\nToronto, ON 12345").unwrap_err();
    assert_eq!(err, CaParseError::InvalidPostalCode("12345".to_string()));
}

#[test]
fn rejects_missing_comma() {
    let err = parse_ca("123 Main St\nToronto ON M5V 2T6").unwrap_err();
    assert_eq!(
        err,
        CaParseError::MalformedCityProvincePostal("Toronto ON M5V 2T6".to_string())
    );
}

#[test]
fn international_rejects_missing_city_line() {
    let err = parse_ca("123 Main St").unwrap_err();
    assert_eq!(err, CaParseError::MissingCityProvincePostal);
}

#[test]
fn rejects_empty_input() {
    let err = parse_ca("").unwrap_err();
    assert_eq!(err, CaParseError::Empty);
}

#[test]
fn to_pretty_matches_input_shape() {
    let addr = parse_ca("123 Main St\nToronto, ON M5V 2T6").unwrap();
    assert_eq!(addr.to_pretty(), "123 Main St\nToronto, ON M5V 2T6");
}

#[test]
fn to_json_renders_fields() {
    let addr = parse_ca("123 Main St\nToronto, ON M5V 2T6").unwrap();
    assert_eq!(
        addr.to_json(),
        "{\"street_lines\":[\"123 Main St\"],\"city\":\"Toronto\",\"province\":\"ON\",\"postal_code\":\"M5V 2T6\"}"
    );
}
