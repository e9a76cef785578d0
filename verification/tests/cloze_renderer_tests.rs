use trivium_core::cloze_renderer::ClozeRenderer;

#[test]
fn test_render_single_cloze() {
    let text = "The capital of France is {{c1::Paris}}.";
    let result = ClozeRenderer::render(text, 1).unwrap();

    assert!(result.html.contains("<span class=\"cloze-hidden\">[...]</span>"));
    assert!(!result.html.contains("Paris"));
    assert!(result.html.contains("The capital of France is"));
}

#[test]
fn test_render_with_hint() {
    let text = "The capital of France is {{c1::Paris::city}}.";
    let result = ClozeRenderer::render(text, 1).unwrap();

    assert!(result.html.contains("data-hint=\"city\""));
    assert!(result.html.contains("<span class=\"cloze-hidden\""));
}

#[test]
fn test_render_multiple_clozes_hide_first() {
    let text = "{{c1::Paris}} is the capital of {{c2::France}}.";
    let result = ClozeRenderer::render(text, 1).unwrap();

    assert!(result.html.contains("<span class=\"cloze-hidden\">[...]</span>"));
    assert!(result.html.contains("<span class=\"cloze-visible\">France</span>"));
    assert!(!result.html.contains("Paris"));
}

#[test]
fn test_render_multiple_clozes_hide_second() {
    let text = "{{c1::Paris}} is the capital of {{c2::France}}.";
    let result = ClozeRenderer::render(text, 2).unwrap();

    assert!(result.html.contains("<span class=\"cloze-visible\">Paris</span>"));
    assert!(result.html.contains("<span class=\"cloze-hidden\">[...]</span>"));
    assert!(!result.html.contains("France"));
}

#[test]
fn test_render_same_cloze_number() {
    let text = "{{c1::Paris}} and {{c1::Lyon}} are cities.";
    let result = ClozeRenderer::render(text, 1).unwrap();

    let hidden_count = result.html.matches("<span class=\"cloze-hidden\"").count();
    assert_eq!(hidden_count, 2);
    assert!(!result.html.contains("Paris"));
    assert!(!result.html.contains("Lyon"));
}

#[test]
fn test_render_all() {
    let text = "{{c1::Paris}} is in {{c2::France}} and {{c3::Europe}}.";
    let results = ClozeRenderer::render_all(text).unwrap();

    assert_eq!(results.len(), 3);
    assert_eq!(results[0].cloze_number, 1);
    assert_eq!(results[1].cloze_number, 2);
    assert_eq!(results[2].cloze_number, 3);
}

#[test]
fn test_render_with_all_visible() {
    let text = "{{c1::Paris}} is the capital of {{c2::France}}.";
    let result = ClozeRenderer::render_with_all_visible(text).unwrap();

    assert_eq!(result, "Paris is the capital of France.");
    assert!(!result.contains("{{"));
    assert!(!result.contains("}}"));
}

#[test]
fn test_strip_cloze_syntax() {
    let text = "The answer is {{c1::42::number}}.";
    let result = ClozeRenderer::strip_cloze_syntax(text);

    assert_eq!(result, "The answer is 42.");
}

#[test]
fn test_html_escape() {
    let text = "The code is {{c1::<div>test</div>}}.";
    let result = ClozeRenderer::render(text, 1).unwrap();

    assert!(!result.html.contains("<div>"));
    assert!(result.html.contains("&lt;div&gt;") || result.html.contains("[...]"));
}

#[test]
fn test_render_inactive_cloze() {
    let text = "The capital is {{c1::Paris}}.";
    let result = ClozeRenderer::render(text, 2).unwrap();

    assert!(result.html.contains("<span class=\"cloze-visible\">Paris</span>"));
    assert!(!result.html.contains("cloze-hidden"));
}

#[test]
fn test_render_exact_html() {
    let text = "A {{c1::b}} c";
    let result = ClozeRenderer::render(text, 1).unwrap();
    assert_eq!(result.html, "A <span class=\"cloze-hidden\">[...]</span> c");
    let visible = ClozeRenderer::render(text, 2).unwrap();
    assert_eq!(visible.html, "A <span class=\"cloze-visible\">b</span> c");
}

#[test]
fn test_render_escapes_visible_text() {
    let text = "{{c1::a&b}} and {{c2::\"x\"}}";
    let result = ClozeRenderer::render(text, 2).unwrap();
    assert!(result.html.contains("<span class=\"cloze-visible\">a&amp;b</span>"));
    let stripped = ClozeRenderer::strip_cloze_syntax(text);
    assert_eq!(stripped, "a&amp;b and &quot;x&quot;");
}

#[test]
fn test_strip_returns_malformed_text_unchanged() {
    let text = "broken {{c1::oops}";
    assert_eq!(ClozeRenderer::strip_cloze_syntax(text), text);
}
