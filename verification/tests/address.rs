use lib::address::{parse, parse_all, parse_all_with_mode, parse_with_mode, ParseError, ValidationMode};

#[test]
fn address_parses_simple_address() {
    let addr = parse("123 Main St\nSpringfield, IL 62704").unwrap();
    assert_eq!(addr.street_lines, vec!["123 Main St"]);
    assert_eq!(addr.city, "Springfield");
    assert_eq!(addr.state, "IL");
    assert_eq!(addr.zip, "62704");
}

#[test]
fn parses_zip_plus_four() {
    let addr = parse("1 Infinite Loop\nCupertino, CA 95014-2083").unwrap();
    assert_eq!(addr.zip, "95014-2083");
}

#[test]
fn rejects_unknown_state() {
    let err = parse("1 Main St\nSpringfield, ZZ 62704").unwrap_err();
    assert_eq!(err, ParseError::UnknownState("ZZ".to_string()));
}

#[test]
fn rejects_bad_zip() {
    let err = parse("1 Main St\nSpringfield, IL 6270").unwrap_err();
    assert_eq!(err, ParseError::InvalidZip("6270".to_string()));
}

#[test]
fn address_rejects_missing_city_line() {
    let err = parse("123 Main St").unwrap_err();
    assert_eq!(err, ParseError::MissingCityStateZip);
}

#[test]
fn normalizes_full_suffix_to_abbreviation() {
    let addr = parse("123 Main Street\nSpringfield, IL 62704").unwrap();
    assert_eq!(addr.street_lines, vec!["123 Main St"]);
}

#[test]
fn normalizes_suffix_mid_line() {
    let addr = parse("100 Main Street Suite 4\nSpringfield, IL 62704").unwrap();
    assert_eq!(addr.street_lines, vec!["100 Main St Suite 4"]);
}

#[test]
fn leaves_already_abbreviated_suffix_alone() {
    let addr = parse("1 Infinite Loop\nCupertino, CA 95014").unwrap();
    assert_eq!(addr.street_lines, vec!["1 Infinite Loop"]);
}

#[test]
fn normalizes_suffix_case_insensitively_and_keeps_trailing_comma() {
    let addr = parse("42 Wallaby avenue,\nSydney, NY 10001").unwrap();
    assert_eq!(addr.street_lines, vec!["42 Wallaby Ave,"]);
}

#[test]
fn does_not_touch_unrelated_words() {
    let addr = parse("500 Elm Boulevard\nApt 4B\nSpringfield, IL 62704").unwrap();
    assert_eq!(addr.street_lines, vec!["500 Elm Blvd", "Apt 4B"]);
}

#[test]
fn strict_rejects_missing_comma() {
    let err = parse_with_mode("1 Main St\nSpringfield IL 62704", ValidationMode::Strict)
        .unwrap_err();
    assert_eq!(
        err,
        ParseError::MalformedCityStateZip("Springfield IL 62704".to_string())
    );
}

#[test]
fn lenient_recovers_missing_comma() {
    let addr = parse_with_mode("1 Main St\nSpringfield IL 62704", ValidationMode::Lenient)
        .unwrap();
    assert_eq!(addr.city, "Springfield");
    assert_eq!(addr.state, "IL");
    assert_eq!(addr.zip, "62704");
}

#[test]
fn lenient_recovers_missing_comma_with_multi_word_city() {
    let addr =
        parse_with_mode("1 Main St\nSalt Lake City UT 84101", ValidationMode::Lenient)
            .unwrap();
    assert_eq!(addr.city, "Salt Lake City");
    assert_eq!(addr.state, "UT");
    assert_eq!(addr.zip, "84101");
}

#[test]
fn strict_rejects_short_zip() {
    let err = parse_with_mode("1 Main St\nBoston, MA 2101", ValidationMode::Strict)
        .unwrap_err();
    assert_eq!(err, ParseError::InvalidZip("2101".to_string()));
}

#[test]
fn lenient_pads_short_zip_with_leading_zero() {
    let addr = parse_with_mode("1 Main St\nBoston, MA 2101", ValidationMode::Lenient)
        .unwrap();
    assert_eq!(addr.zip, "02101");
}

#[test]
fn lenient_pads_short_zip_plus_four() {
    let addr = parse_with_mode("1 Main St\nBoston, MA 2101-0001", ValidationMode::Lenient)
        .unwrap();
    assert_eq!(addr.zip, "02101-0001");
}

#[test]
fn lenient_still_rejects_unknown_state() {
    let err = parse_with_mode("1 Main St\nSpringfield ZZ 62704", ValidationMode::Lenient)
        .unwrap_err();
    assert_eq!(err, ParseError::UnknownState("ZZ".to_string()));
}

#[test]
fn lenient_still_rejects_garbage_zip() {
    let err = parse_with_mode("1 Main St\nBoston, MA abcde", ValidationMode::Lenient)
        .unwrap_err();
    assert_eq!(err, ParseError::InvalidZip("abcde".to_string()));
}

#[test]
fn parse_all_splits_on_blank_lines() {
    let input = "123 Main St\nSpringfield, IL 62704\n\n1 Infinite Loop\nCupertino, CA 95014";
    let results = parse_all(input);
    assert_eq!(results.len(), 2);
    assert_eq!(results[0].as_ref().unwrap().city, "Springfield");
    assert_eq!(results[1].as_ref().unwrap().city, "Cupertino");
}

#[test]
fn parse_all_treats_multiple_blank_lines_as_one_separator() {
    let input = "123 Main St\nSpringfield, IL 62704\n\n\n\n1 Infinite Loop\nCupertino, CA 95014";
    let results = parse_all(input);
    assert_eq!(results.len(), 2);
}

#[test]
fn parse_all_single_address_matches_parse() {
    let input = "123 Main St\nSpringfield, IL 62704";
    let results = parse_all(input);
    assert_eq!(results.len(), 1);
    assert_eq!(results[0], parse(input));
}

#[test]
fn parse_all_empty_input_yields_no_blocks() {
    assert_eq!(parse_all("").len(), 0);
    assert_eq!(parse_all("\n\n\n").len(), 0);
}

#[test]
fn parse_all_reports_error_without_aborting_the_batch() {
    let input = "123 Main St\nSpringfield, ZZ 62704\n\n1 Infinite Loop\nCupertino, CA 95014";
    let results = parse_all(input);
    assert_eq!(results.len(), 2);
    assert_eq!(
        results[0],
        Err(ParseError::UnknownState("ZZ".to_string()))
    );
    assert_eq!(results[1].as_ref().unwrap().city, "Cupertino");
}

#[test]
fn truncate_zip_to_five_drops_extension() {
    let mut addr = parse("1 Infinite Loop\nCupertino, CA 95014-2083").unwrap();
    addr.truncate_zip_to_five();
    assert_eq!(addr.zip, "95014");
}

#[test]
fn truncate_zip_to_five_is_a_no_op_on_plain_zip() {
    let mut addr = parse("123 Main St\nSpringfield, IL 62704").unwrap();
    addr.truncate_zip_to_five();
    assert_eq!(addr.zip, "62704");
}

#[test]
fn parse_all_with_mode_applies_mode_to_every_block() {
    let input = "1 Main St\nSpringfield IL 62704\n\n1 Infinite Loop\nCupertino CA 95014";
    let results = parse_all_with_mode(input, ValidationMode::Lenient);
    assert_eq!(results.len(), 2);
    assert_eq!(results[0].as_ref().unwrap().city, "Springfield");
    assert_eq!(results[1].as_ref().unwrap().city, "Cupertino");
}
