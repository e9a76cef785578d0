use trivium_core::cloze_parser::ClozeParseError;
use trivium_core::cloze_parser::ClozeParser;

#[test]
fn test_parse_simple_cloze() {
    let text = "The capital of France is {{c1::Paris}}.";
    let result = ClozeParser::parse(text).unwrap();

    assert_eq!(result.segments.len(), 1);
    assert_eq!(result.segments[0].cloze_number, 1);
    assert_eq!(result.segments[0].text, "Paris");
    assert_eq!(result.segments[0].hint, None);
}

#[test]
fn test_parse_cloze_with_hint() {
    let text = "The capital of France is {{c1::Paris::city}}.";
    let result = ClozeParser::parse(text).unwrap();

    assert_eq!(result.segments.len(), 1);
    assert_eq!(result.segments[0].cloze_number, 1);
    assert_eq!(result.segments[0].text, "Paris");
    assert_eq!(result.segments[0].hint, Some("city".to_string()));
}

#[test]
fn test_parse_multiple_clozes() {
    let text = "{{c1::Paris}} is the capital of {{c2::France}}.";
    let result = ClozeParser::parse(text).unwrap();

    assert_eq!(result.segments.len(), 2);
    assert_eq!(result.segments[0].cloze_number, 1);
    assert_eq!(result.segments[0].text, "Paris");
    assert_eq!(result.segments[1].cloze_number, 2);
    assert_eq!(result.segments[1].text, "France");
}

#[test]
fn test_parse_same_cloze_number() {
    let text = "{{c1::Paris}} and {{c1::Lyon}} are cities in France.";
    let result = ClozeParser::parse(text).unwrap();

    assert_eq!(result.segments.len(), 2);
    assert_eq!(result.segments[0].cloze_number, 1);
    assert_eq!(result.segments[1].cloze_number, 1);
}

#[test]
fn test_empty_cloze() {
    let text = "The capital is {{c1::}}.";
    let result = ClozeParser::parse(text);

    assert!(result.is_err());
}

#[test]
fn test_invalid_cloze_number() {
    let text = "The capital is {{c0::Paris}}.";
    let result = ClozeParser::parse(text);

    assert!(result.is_err());
}

#[test]
fn test_unmatched_braces() {
    let text = "The capital is {{c1::Paris}.";
    let result = ClozeParser::parse(text);

    assert!(result.is_err());
}

#[test]
fn test_nested_clozes() {
    let text = "{{c1::The {{c2::nested}} text}}";
    let result = ClozeParser::parse(text);

    assert!(result.is_err());
}

#[test]
fn test_extract_cloze_numbers() {
    let text = "{{c1::Paris}} is the capital of {{c2::France}} in {{c1::Europe}}.";
    let numbers = ClozeParser::extract_cloze_numbers(text).unwrap();

    assert_eq!(numbers, vec![1, 2]);
}

#[test]
fn test_has_cloze_deletions() {
    assert!(ClozeParser::has_cloze_deletions("{{c1::text}}"));
    assert!(!ClozeParser::has_cloze_deletions("plain text"));
}

#[test]
fn test_count_cloze_deletions() {
    let text = "{{c1::Paris}} is in {{c2::France}} and {{c1::Europe}}.";
    assert_eq!(ClozeParser::count_cloze_deletions(text), 2);
}

#[test]
fn test_parse_positions_cover_whole_form() {
    let text = "ab {{c3::xy}} cd";
    let result = ClozeParser::parse(text).unwrap();
    assert_eq!(result.original_text, text);
    assert_eq!(result.segments[0].start_position, 3);
    assert_eq!(result.segments[0].end_position, 13);
}

#[test]
fn test_parse_error_variants() {
    assert!(matches!(
        ClozeParser::parse("oops }} here"),
        Err(ClozeParseError::UnmatchedBraces)
    ));
    assert!(matches!(
        ClozeParser::parse("{{c1::a {{c2::b}} }}"),
        Err(ClozeParseError::NestedClozes)
    ));
    assert!(matches!(
        ClozeParser::parse("{{c1::   }}"),
        Err(ClozeParseError::EmptyCloze)
    ));
    match ClozeParser::parse("{{c99999999999::big}}") {
        Err(ClozeParseError::InvalidClozeNumber(ds)) => assert_eq!(ds, "99999999999"),
        other => panic!("expected an invalid-number error, got {:?}", other),
    }
}

#[test]
fn test_parse_hint_split_at_first_separator() {
    let result = ClozeParser::parse("{{c1::a::b::c}}").unwrap();
    assert_eq!(result.segments[0].text, "a");
    assert_eq!(result.segments[0].hint, Some("b::c".to_string()));
}

#[test]
fn test_parse_trailing_separator_is_text() {
    let result = ClozeParser::parse("{{c1::Paris::}}").unwrap();
    assert_eq!(result.segments[0].text, "Paris::");
    assert_eq!(result.segments[0].hint, None);
}

#[test]
fn test_count_zero_on_malformed_text() {
    assert_eq!(ClozeParser::count_cloze_deletions("{{c1::a}"), 0);
}
