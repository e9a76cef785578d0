use trivium_core::article_text::clean_empty_sections;
use trivium_core::article_text::is_image_url;
use trivium_core::article_text::strip_reference_indicators;

#[test]
fn test_clean_empty_sections_removes_empty() {
    let text = "Introduction text\n\n== Empty Section ==\n\n== Section With Content ==\nSome content here\n\n== Another Empty ==\n\n";
    let cleaned = clean_empty_sections(text);
    assert!(cleaned.contains("== Section With Content =="));
    assert!(!cleaned.contains("== Empty Section =="));
    assert!(!cleaned.contains("== Another Empty =="));
}

#[test]
fn test_clean_empty_sections_preserves_content() {
    let text = "Intro\n\n== Section 1 ==\nContent 1\n\n== Section 2 ==\nContent 2\n";
    let cleaned = clean_empty_sections(text);
    assert!(cleaned.contains("== Section 1 =="));
    assert!(cleaned.contains("Content 1"));
    assert!(cleaned.contains("== Section 2 =="));
    assert!(cleaned.contains("Content 2"));
}

#[test]
fn test_clean_empty_sections_reduces_blank_lines() {
    let text = "Text\n\n\n\n\nMore text";
    let cleaned = clean_empty_sections(text);
    assert!(!cleaned.contains("\n\n\n"));
}

#[test]
fn test_strip_reference_indicators_single_digit() {
    let text = "This is a sentence with a reference[1] here.";
    let stripped = strip_reference_indicators(text);
    assert_eq!(stripped, "This is a sentence with a reference here.");
}

#[test]
fn test_strip_reference_indicators_multiple_digits() {
    let text = "Reference[123] and another[4567] reference.";
    let stripped = strip_reference_indicators(text);
    assert_eq!(stripped, "Reference and another reference.");
}

#[test]
fn test_strip_reference_indicators_multiple_refs() {
    let text = "First[1] second[2] third[3] text.";
    let stripped = strip_reference_indicators(text);
    assert_eq!(stripped, "First second third text.");
}

#[test]
fn test_strip_reference_indicators_preserves_non_numeric() {
    let text = "This [note] and [abc] should be preserved.";
    let stripped = strip_reference_indicators(text);
    assert_eq!(stripped, "This [note] and [abc] should be preserved.");
}

#[test]
fn test_strip_reference_indicators_preserves_section_headers() {
    let text = "== Section Header ==\nContent with reference[1] here.";
    let stripped = strip_reference_indicators(text);
    assert_eq!(stripped, "== Section Header ==\nContent with reference here.");
}

#[test]
fn test_strip_reference_indicators_no_refs() {
    let text = "This text has no references.";
    let stripped = strip_reference_indicators(text);
    assert_eq!(stripped, "This text has no references.");
}

#[test]
fn test_is_image_url_detects_common_formats() {
    assert!(is_image_url("https://example.com/image.jpg"));
    assert!(is_image_url("https://example.com/image.jpeg"));
    assert!(is_image_url("https://example.com/image.png"));
    assert!(is_image_url("https://example.com/image.gif"));
    assert!(is_image_url("https://example.com/image.svg"));
    assert!(is_image_url("https://example.com/image.webp"));
    assert!(is_image_url("/wiki/File:Example.PNG"));
    assert!(!is_image_url("https://example.com/article"));
    assert!(!is_image_url("https://en.wikipedia.org/wiki/Article"));
}

#[test]
fn test_clean_empty_sections_drops_skip_list_sections() {
    let text = "Body text\n\n== See also ==\nA link\n\n== References ==\n[1] something\n\n== Kept ==\nreal content";
    let cleaned = clean_empty_sections(text);
    assert!(!cleaned.contains("See also"));
    assert!(!cleaned.contains("References"));
    assert!(cleaned.contains("== Kept =="));
    assert!(cleaned.contains("real content"));
}

#[test]
fn test_clean_empty_sections_trims_result() {
    let text = "\n\n  hello  \n\n";
    assert_eq!(clean_empty_sections(text), "hello");
}
