use trivium_core::offsets::calculate_excluded_character_count;
use trivium_core::offsets::calculate_header_character_count;
use trivium_core::offsets::detect_header_ranges;
use trivium_core::offsets::get_countable_length;
use trivium_core::paragraphs::detect_paragraphs;
use trivium_core::text_units::utf16_length;

#[test]
fn test_detect_header_ranges_h2() {
    let content = "Some text\n\n== Header 2 ==\n\nMore text";
    let headers = detect_header_ranges(content);
    assert_eq!(headers.len(), 1);
    assert!(headers[0].end_position > headers[0].start_position);
}

#[test]
fn test_detect_header_ranges_h3() {
    let content = "Text\n\n=== Header 3 ===\n\nContent";
    let headers = detect_header_ranges(content);
    assert_eq!(headers.len(), 1);
}

#[test]
fn test_detect_header_ranges_h4() {
    let content = "Text\n\n==== Header 4 ====\n\nContent";
    let headers = detect_header_ranges(content);
    assert_eq!(headers.len(), 1);
}

#[test]
fn test_detect_header_ranges_multiple() {
    let content = r#"
== Header 2 ==

Content

=== Header 3 ===

More content

==== Header 4 ====

Final content
"#;
    let headers = detect_header_ranges(content);
    assert_eq!(headers.len(), 3);
}

#[test]
fn test_detect_header_ranges_mismatched_equals() {
    let content = "Text\n\n=== Not A Header ==\n\nContent";
    let headers = detect_header_ranges(content);
    assert_eq!(headers.len(), 0);
}

#[test]
fn test_detect_header_ranges_no_panic() {
    let content = "== Valid Header ==\n=== Also Valid ===\n==== Another ====";
    let headers = detect_header_ranges(content);
    assert_eq!(headers.len(), 3);
}

#[test]
fn test_calculate_header_character_count() {
    let content = "Text\n\n== Header ==\n\nContent";
    let count = calculate_header_character_count(content);
    assert!(count > 0);
}

#[test]
fn test_excluded_character_count_with_emoji() {
    let content = "Hello [[exclude]]👋 world[[/exclude]] Test";
    let excluded = calculate_excluded_character_count(content);
    // "👋 world" = 8 UTF-16 code units (👋 is 2 units + 1 space + 5 chars)
    assert_eq!(excluded, 8);
}

#[test]
fn test_excluded_character_count_with_chinese() {
    let content = "Hello [[exclude]]世界 测试[[/exclude]] World";
    let excluded = calculate_excluded_character_count(content);
    // "世界 测试" = 5 UTF-16 code units (each CJK char is 1 unit)
    assert_eq!(excluded, 5);
}

#[test]
fn test_excluded_character_count_mixed_unicode() {
    let content = "Test [[exclude]]👋 世界 测试[[/exclude]] End";
    let excluded = calculate_excluded_character_count(content);
    // "👋 世界 测试" = 8 UTF-16 code units (👋=2, space=1, 世=1, 界=1, space=1, 测=1, 试=1)
    assert_eq!(excluded, 8);
}

#[test]
fn test_header_character_count_with_emoji() {
    let content = "== Test 👋 World ==\nContent";
    let header_count = calculate_header_character_count(content);
    // "== Test 👋 World ==" = 19 UTF-16 code units (👋 is 2 units)
    assert_eq!(header_count, 19);
}

#[test]
fn test_header_character_count_with_chinese() {
    let content = "== Test 世界 ==\nContent";
    let header_count = calculate_header_character_count(content);
    // "== Test 世界 ==" = 13 UTF-16 code units
    assert_eq!(header_count, 13);
}

#[test]
fn test_paragraph_detection_with_emoji() {
    let content = "First 👋\n\nSecond 世界";
    let paragraphs = detect_paragraphs(content);

    assert_eq!(paragraphs.len(), 2);

    // First paragraph: "First 👋" = 8 UTF-16 code units (👋 is 2 units)
    assert_eq!(paragraphs[0].start_position, 0);
    assert_eq!(paragraphs[0].end_position, 8);
    assert_eq!(paragraphs[0].character_count, 8);

    // Second paragraph: "Second 世界" = 9 UTF-16 code units
    assert_eq!(paragraphs[1].start_position, 10); // 8 + 2 for "\n\n"
    assert_eq!(paragraphs[1].end_position, 19);
    assert_eq!(paragraphs[1].character_count, 9);
}

#[test]
fn test_paragraph_detection_multiple_emoji() {
    let content = "Hi 👋 Test 😀 World";
    let paragraphs = detect_paragraphs(content);

    assert_eq!(paragraphs.len(), 1);

    // "Hi 👋 Test 😀 World" = 19 UTF-16 code units
    assert_eq!(paragraphs[0].character_count, 19);
}

#[test]
fn test_utf16_consistency_with_javascript() {
    // The engine's unit count must match JavaScript's string length.
    let test_cases = vec![
        ("Hello World", 11),
        ("Hello 👋 World", 14), // 👋 is a surrogate pair (2 UTF-16 units)
        ("世界", 2),
        ("Hi 👋 Test 😀 World", 19),
        ("👋😀🎉", 6), // Each emoji is 2 UTF-16 units
    ];

    for (text, expected_length) in test_cases {
        let utf16_len = utf16_length(text);
        assert_eq!(
            utf16_len, expected_length,
            "Failed for text: '{}'. Expected {}, got {}",
            text, expected_length, utf16_len
        );
    }
}

#[test]
fn test_ascii_only_unchanged() {
    // Verify ASCII text behavior is unchanged
    let content = "Hello [[exclude]]test[[/exclude]] World";
    let excluded = calculate_excluded_character_count(content);
    assert_eq!(excluded, 4); // "test" = 4 UTF-16 units (same as chars)
}

#[test]
fn test_fallback_paragraph_with_emoji() {
    // Test single paragraph fallback with emoji
    let content = "Single paragraph with 👋 emoji";
    let paragraphs = detect_paragraphs(content);

    assert_eq!(paragraphs.len(), 1);
    // "Single paragraph with 👋 emoji" = 30 UTF-16 code units (👋 = 2)
    assert_eq!(paragraphs[0].character_count, 30);
}

#[test]
fn test_excluded_span_does_not_cross_lines() {
    let content = "[[exclude]]ab\ncd[[/exclude]]";
    assert_eq!(calculate_excluded_character_count(content), 0);
}

#[test]
fn test_header_exact_span() {
    let content = "== Header ==\nbody";
    let headers = detect_header_ranges(content);
    assert_eq!(headers.len(), 1);
    assert_eq!(headers[0].start_position, 0);
    assert_eq!(headers[0].end_position, 12);
}

#[test]
fn test_countable_length_formula() {
    let content = "== T ==\nab [[exclude]]xyz[[/exclude]] cd";
    let total = utf16_length(content);
    // header "== T ==" = 7 units, excluded "xyz" = 3 units
    assert_eq!(get_countable_length(content, total), total - 7 - 3);
}

#[test]
fn test_paragraph_crlf_blank_line() {
    let content = "one\r\n\r\ntwo";
    let paragraphs = detect_paragraphs(content);
    assert_eq!(paragraphs.len(), 2);
    assert_eq!(paragraphs[0].start_position, 0);
    assert_eq!(paragraphs[0].end_position, 3);
    assert_eq!(paragraphs[1].start_position, 7);
    assert_eq!(paragraphs[1].end_position, 10);
}

#[test]
fn test_utf16_units_match_host_encoding() {
    for text in ["", "plain", "mixed 👋 世界 🎉 text", "\u{10000}\u{10FFFF}a"] {
        let expected: Vec<u16> = text.encode_utf16().collect();
        assert_eq!(trivium_core::text_units::utf16_units(text), expected);
    }
}
