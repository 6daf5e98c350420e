use lib::address::{
    json_string, parse, parse_all, parse_all_with_mode, parse_with_mode, Address, ParseError,
    ValidationMode,
};
use lib::report::truncate_zips_to_five;
use lib::international::{parse_ca, CaParseError};

fn addr(lines: &[&str], city: &str, state: &str, zip: &str) -> Address {
    Address {
        street_lines: lines.iter().map(|s| s.to_string()).collect(),
        city: city.to_string(),
        state: state.to_string(),
        zip: zip.to_string(),
    }
}

// ----- laws on concrete values -----

#[test]
fn strict_success_is_lenient_success() {
    let input = "500 Elm Boulevard\nApt 4B\nSpringfield, IL 62704-1234";
    let strict = parse_with_mode(input, ValidationMode::Strict);
    assert!(strict.is_ok());
    assert_eq!(parse_with_mode(input, ValidationMode::Lenient), strict);
}

#[test]
fn lenient_failure_is_strict_failure() {
    let input = "1 Main St\nSpringfield ZZ 62704";
    assert!(parse_with_mode(input, ValidationMode::Lenient).is_err());
    assert!(parse_with_mode(input, ValidationMode::Strict).is_err());
}

#[test]
fn single_block_with_crlf_matches_parse() {
    let input = "  123 Main Street \r\nSpringfield, IL 62704\r\n";
    let results = parse_all(input);
    assert_eq!(results.len(), 1);
    assert_eq!(results[0], parse(input));
    assert_eq!(
        results[0],
        Ok(addr(&["123 Main St"], "Springfield", "IL", "62704"))
    );
}

#[test]
fn pretty_text_parses_back_to_the_same_address() {
    let a = parse_with_mode(
        "  42 Wallaby avenue,  \n  Suite 4 \nSalt Lake City UT 2101-0001",
        ValidationMode::Lenient,
    )
    .unwrap();
    assert_eq!(a.to_pretty(), "42 Wallaby Ave,\nSuite 4\nSalt Lake City, UT 02101-0001");
    assert_eq!(parse(&a.to_pretty()), Ok(a));
}

#[test]
fn pretty_text_keeps_commas_in_city() {
    let a = parse("1 Main St\nWinston, Salem, NC 27101").unwrap();
    assert_eq!(a.city, "Winston, Salem");
    assert_eq!(parse(&a.to_pretty()), Ok(a));
}

#[test]
fn canadian_pretty_text_parses_back_to_the_same_address() {
    let a = parse_ca(" 123 Main St\n\nUnit 4\nToronto, on m5v\t2t6 ").unwrap();
    assert_eq!(a.to_pretty(), "123 Main St\nUnit 4\nToronto, ON M5V 2T6");
    assert_eq!(parse_ca(&a.to_pretty()), Ok(a));
}

#[test]
fn blank_input_has_no_blocks() {
    assert_eq!(parse_all(" \t\n\u{3000}\n\r\n").len(), 0);
}

#[test]
fn truncating_twice_is_truncating_once() {
    let mut a = parse("1 Infinite Loop\nCupertino, CA 95014-2083").unwrap();
    a.truncate_zip_to_five();
    a.truncate_zip_to_five();
    assert_eq!(a.zip, "95014");
    assert_eq!(a.city, "Cupertino");
    assert_eq!(a.street_lines, vec!["1 Infinite Loop"]);
}

#[test]
fn default_mode_is_strict() {
    assert_eq!(ValidationMode::default(), ValidationMode::Strict);
}

// ----- errors -----

#[test]
fn empty_and_blank_inputs_are_empty() {
    assert_eq!(parse(""), Err(ParseError::Empty));
    assert_eq!(parse("  \n\t\n"), Err(ParseError::Empty));
}

#[test]
fn comma_with_extra_token_is_malformed() {
    assert_eq!(
        parse("1 Main St\nSpringfield, IL 62704 USA"),
        Err(ParseError::MalformedCityStateZip("Springfield, IL 62704 USA".to_string()))
    );
}

#[test]
fn comma_with_missing_zip_is_malformed() {
    assert_eq!(
        parse("1 Main St\nSpringfield, IL"),
        Err(ParseError::MalformedCityStateZip("Springfield, IL".to_string()))
    );
}

#[test]
fn empty_city_is_malformed() {
    assert_eq!(
        parse("1 Main St\n , IL 62704"),
        Err(ParseError::MalformedCityStateZip(", IL 62704".to_string()))
    );
}

#[test]
fn lenient_needs_city_state_and_zip() {
    assert_eq!(
        parse_with_mode("1 Main St\nIL 62704", ValidationMode::Lenient),
        Err(ParseError::MalformedCityStateZip("IL 62704".to_string()))
    );
}

#[test]
fn lenient_rejects_bad_extension_and_long_zip() {
    assert_eq!(
        parse_with_mode("1 Main St\nBoston, MA 2101-01", ValidationMode::Lenient),
        Err(ParseError::InvalidZip("2101-01".to_string()))
    );
    assert_eq!(
        parse_with_mode("1 Main St\nBoston, MA 123456", ValidationMode::Lenient),
        Err(ParseError::InvalidZip("123456".to_string()))
    );
}

#[test]
fn lenient_pads_two_digit_base() {
    let a = parse_with_mode("1 Main St\nBoston, MA 21-0001", ValidationMode::Lenient).unwrap();
    assert_eq!(a.zip, "00021-0001");
}

#[test]
fn state_is_uppercased() {
    let a = parse("1 Main St\nSpringfield, il 62704").unwrap();
    assert_eq!(a.state, "IL");
}

#[test]
fn state_uses_unicode_uppercase() {
    // U+0131 (dotless i) uppercases to 'I', the ligature U+FB02 to "FL".
    let a = parse("1 Main St\nSpringfield, \u{131}l 62704").unwrap();
    assert_eq!(a.state, "IL");
    let b = parse("1 Main St\nMiami, \u{fb02} 33101").unwrap();
    assert_eq!(b.state, "FL");
    assert_eq!(
        parse("1 Main St\nSpringfield, \u{df} 62704"),
        Err(ParseError::UnknownState("\u{df}".to_string()))
    );
}

#[test]
fn suffix_uses_unicode_lowercase() {
    // U+212A (Kelvin sign) lowercases to 'k'.
    let a = parse("9 Ocean P\u{212a}WY.\nMiami, FL 33101").unwrap();
    assert_eq!(a.street_lines, vec!["9 Ocean Pkwy."]);
}

#[test]
fn suffix_normalization_keeps_spacing_and_punctuation() {
    let a = parse("7  Oak  street.,  Apt 2\nDover, DE 19901").unwrap();
    assert_eq!(a.street_lines, vec!["7  Oak  St.,  Apt 2"]);
}

#[test]
fn unicode_whitespace_is_trimmed() {
    let a = parse("\u{3000}123 Main St\u{a0}\nSpringfield, IL\u{2003}62704").unwrap();
    assert_eq!(a.street_lines, vec!["123 Main St"]);
    assert_eq!(a.zip, "62704");
}

#[test]
fn lenient_split_on_non_ascii_whitespace() {
    let a = parse_with_mode("1 Main St\nSpringfield\u{a0}IL 62704", ValidationMode::Lenient)
        .unwrap();
    assert_eq!(a, addr(&["1 Main St"], "Springfield", "IL", "62704"));
    let b = parse_with_mode("1 Main St\nSpringfield IL\u{3000}62704", ValidationMode::Lenient)
        .unwrap();
    assert_eq!(b, addr(&["1 Main St"], "Springfield", "IL", "62704"));
    assert_eq!(
        parse_with_mode("1 Main St\nSpringfield\u{a0}IL 62704", ValidationMode::Strict),
        Err(ParseError::MalformedCityStateZip("Springfield\u{a0}IL 62704".to_string()))
    );
    let batch = "1 Main St\nSpringfield IL 62704\n\n2 Main St\nDover\u{a0}DE 19901";
    let results = parse_all_with_mode(batch, ValidationMode::Lenient);
    assert_eq!(results.len(), 2);
    assert_eq!(results[1], Ok(addr(&["2 Main St"], "Dover", "DE", "19901")));
}

#[test]
fn batch_zips_are_truncated_to_five() {
    let input = "1 Main St\nSpringfield, IL 62704-1234\n\nnope\n\n2 Oak Ave\nDover, DE 19901";
    let mut results = parse_all(input);
    assert_eq!(results.len(), 3);
    truncate_zips_to_five(&mut results);
    assert_eq!(results.len(), 3);
    assert_eq!(results[0], Ok(addr(&["1 Main St"], "Springfield", "IL", "62704")));
    assert_eq!(results[1], Err(ParseError::MissingCityStateZip));
    assert_eq!(results[2], Ok(addr(&["2 Oak Ave"], "Dover", "DE", "19901")));
}

#[test]
fn parse_all_keeps_input_order_and_mode() {
    let input = "1 Main St\nBoston, MA 2101\n\n2 Main St\nDover, DE 19901";
    let strict = parse_all_with_mode(input, ValidationMode::Strict);
    assert_eq!(strict[0], Err(ParseError::InvalidZip("2101".to_string())));
    assert_eq!(strict[1].as_ref().unwrap().city, "Dover");
    let lenient = parse_all_with_mode(input, ValidationMode::Lenient);
    assert_eq!(lenient[0].as_ref().unwrap().zip, "02101");
}

// ----- rendering -----

#[test]
fn json_string_escapes() {
    assert_eq!(json_string("a\"b\\c"), "\"a\\\"b\\\\c\"");
    assert_eq!(json_string("\n\r\t"), "\"\\n\\r\\t\"");
    assert_eq!(json_string("\u{1}\u{1f}x"), "\"\\u0001\\u001fx\"");
    assert_eq!(json_string("caf\u{e9}"), "\"caf\u{e9}\"");
}

#[test]
fn address_to_json_renders_fields() {
    let a = parse("1 Infinite Loop\nSuite \"A\"\nCupertino, CA 95014").unwrap();
    assert_eq!(
        a.to_json(),
        "{\"street_lines\":[\"1 Infinite Loop\",\"Suite \\\"A\\\"\"],\"city\":\"Cupertino\",\"state\":\"CA\",\"zip\":\"95014\"}"
    );
}

#[test]
fn address_to_pretty_renders_lines() {
    let a = parse("500 Elm Boulevard\nApt 4B\nSpringfield, IL 62704").unwrap();
    assert_eq!(a.to_pretty(), "500 Elm Blvd\nApt 4B\nSpringfield, IL 62704");
}

#[test]
fn error_messages_and_json() {
    assert_eq!(ParseError::Empty.message(), "input is empty");
    assert_eq!(ParseError::MissingStreet.message(), "missing street line");
    assert_eq!(ParseError::MissingCityStateZip.message(), "missing city/state/zip line");
    assert_eq!(
        ParseError::MalformedCityStateZip("a\"b\tc".to_string()).message(),
        "could not parse city/state/zip line: \"a\\\"b\\tc\""
    );
    assert_eq!(
        ParseError::InvalidZip("6270".to_string()).message(),
        "invalid zip code: \"6270\""
    );
    assert_eq!(
        ParseError::UnknownState("ZZ".to_string()).to_json(),
        "{\"error\":\"unrecognized state code: \\\"ZZ\\\"\"}"
    );
}

// ----- Canadian addresses -----

#[test]
fn canadian_errors() {
    assert_eq!(parse_ca(" \n "), Err(CaParseError::Empty));
    assert_eq!(
        parse_ca("1 Main St\nToronto, ON"),
        Err(CaParseError::MalformedCityProvincePostal("Toronto, ON".to_string()))
    );
    assert_eq!(
        parse_ca("1 Main St\n, ON M5V 2T6"),
        Err(CaParseError::MalformedCityProvincePostal(", ON M5V 2T6".to_string()))
    );
    assert_eq!(
        parse_ca("1 Main St\nToronto, ON M5V 2T"),
        Err(CaParseError::InvalidPostalCode("M5V 2T".to_string()))
    );
    assert_eq!(
        parse_ca("1 Main St\nToronto, ON 5MV 2T6"),
        Err(CaParseError::InvalidPostalCode("5MV 2T6".to_string()))
    );
}

#[test]
fn canadian_street_lines_are_kept_as_written() {
    let a = parse_ca("1 Main Street\nToronto, ON M5V 2T6").unwrap();
    assert_eq!(a.street_lines, vec!["1 Main Street"]);
}

#[test]
fn canadian_messages_and_json() {
    assert_eq!(
        CaParseError::MissingCityProvincePostal.message(),
        "missing city/province/postal code line"
    );
    assert_eq!(
        CaParseError::UnknownProvince("XX".to_string()).message(),
        "unrecognized province code: \"XX\""
    );
    assert_eq!(
        CaParseError::InvalidPostalCode("12345".to_string()).to_json(),
        "{\"error\":\"invalid postal code: \\\"12345\\\"\"}"
    );
}

// ----- after review -----

#[test]
fn to_pretty_uppercases_state() {
    let a = addr(&["1 Main St"], "Springfield", "il", "62704");
    assert_eq!(a.to_pretty(), "1 Main St\nSpringfield, IL 62704");
}

#[test]
fn debug_quoting_of_ascii_controls() {
    assert_eq!(
        ParseError::InvalidZip("a\u{1}\0\u{7f}'\\".to_string()).message(),
        "invalid zip code: \"a\\u{1}\\0\\u{7f}'\\\\\""
    );
    assert_eq!(
        ParseError::InvalidZip("\u{1b}x".to_string()).message(),
        "invalid zip code: \"\\u{1b}x\""
    );
}

#[test]
fn batch_error_report_counts_from_one() {
    let input = "1 Main St\nSpringfield, ZZ 62704\n\n2 Main St\nDover, DE 19901\n\n3 Main St";
    let results = parse_all(input);
    let (errors, all_ok) = lib::report::render_batch_errors(&results);
    assert!(!all_ok);
    assert_eq!(
        errors,
        "address 1: unrecognized state code: \"ZZ\"\naddress 3: missing city/state/zip line\n"
    );
    let (json, ok) = lib::report::render_batch_json(&parse_all("2 Main St\nDover, DE 19901"));
    assert!(ok);
    assert_eq!(
        json,
        "[{\"street_lines\":[\"2 Main St\"],\"city\":\"Dover\",\"state\":\"DE\",\"zip\":\"19901\"}]"
    );
    assert_eq!(
        lib::report::render_batch_text(&results),
        "2 Main St\nDover, DE 19901\n"
    );
}

#[test]
fn blank_line_separates_batches() {
    let a = "1 Main St\r\nSpringfield IL 62704\r";
    let b = "2 Main St\nDover, DE 19901\n\n\n3 Main St\nBoston, MA 2101";
    for mode in [ValidationMode::Strict, ValidationMode::Lenient] {
        let joined = parse_all_with_mode(&format!("{a}\n\n{b}"), mode);
        let mut separate = parse_all_with_mode(a, mode);
        separate.extend(parse_all_with_mode(b, mode));
        assert_eq!(joined, separate);
    }
}

#[test]
fn blocks_hold_no_blank_lines() {
    let results = parse_all("a\n \n\n b\nc\n");
    assert_eq!(results.len(), 2);
    assert_eq!(results[0], Err(ParseError::MissingCityStateZip));
    assert_eq!(
        results[1],
        Err(ParseError::MalformedCityStateZip("c".to_string()))
    );
}
