use card_template::filters::{
    apply_filter, filter_furigana, filter_hint, filter_kana, filter_kanji, filter_text,
    filter_type,
};

// text filter tests
#[test]
fn test_text_filter_strips_html() {
    assert_eq!(filter_text("<b>Bold</b> text"), "Bold text");
}

#[test]
fn test_text_filter_handles_br() {
    assert_eq!(filter_text("Line1<br>Line2"), "Line1\nLine2");
    assert_eq!(filter_text("Line1<br/>Line2"), "Line1\nLine2");
    assert_eq!(filter_text("Line1<br />Line2"), "Line1\nLine2");
}

#[test]
fn test_text_filter_complex_html() {
    assert_eq!(
        filter_text("<div class=\"foo\"><span>Hello</span> <em>World</em></div>"),
        "Hello World"
    );
}

#[test]
fn test_text_filter_preserves_plain_text() {
    assert_eq!(filter_text("Just plain text"), "Just plain text");
}

// hint filter tests
#[test]
fn test_hint_filter_creates_clickable() {
    let result = filter_hint("The answer");
    assert!(result.contains("Show Hint"));
    assert!(result.contains("The answer"));
    assert!(result.contains("onclick"));
    assert!(result.contains("style=\"display:none\""));
}

#[test]
fn test_hint_filter_empty_content() {
    assert_eq!(filter_hint(""), "");
}

// type filter tests
#[test]
fn test_type_filter_creates_input() {
    let result = filter_type("answer");
    assert!(result.contains("<input"));
    assert!(result.contains("type=\"text\""));
    assert!(result.contains("data-expected=\"answer\""));
}

#[test]
fn test_type_filter_escapes_html() {
    let result = filter_type("<script>alert(1)</script>");
    assert!(result.contains("&lt;script&gt;"));
    assert!(!result.contains("<script>"));
}

#[test]
fn test_type_filter_escapes_edge_cases() {
    // Test all special characters that need escaping in attributes
    let result = filter_type("a & b < c > d \"quoted\" 'apostrophe'");
    assert!(result.contains("&amp;"), "ampersand should be escaped");
    assert!(result.contains("&lt;"), "less-than should be escaped");
    assert!(result.contains("&gt;"), "greater-than should be escaped");
    assert!(result.contains("&quot;"), "double quote should be escaped");
    // Note: htmlescape may use &#x27; or &#39; for single quotes
    assert!(
        result.contains("&#x27;") || result.contains("&#39;"),
        "single quote should be escaped"
    );
    // Ensure raw characters are not present
    assert!(!result.contains("data-expected=\"a & b"));
}

// furigana filter tests
#[test]
fn test_furigana_bracket_to_ruby() {
    let result = filter_furigana("漢字[かんじ]");
    assert_eq!(result, "<ruby>漢字<rt>かんじ</rt></ruby>");
}

#[test]
fn test_furigana_preserves_existing_ruby() {
    let input = "<ruby>漢字<rt>かんじ</rt></ruby>";
    assert_eq!(filter_furigana(input), input);
}

#[test]
fn test_furigana_mixed_content() {
    let result = filter_furigana("私は日本語[にほんご]を勉強[べんきょう]しています");
    assert!(result.contains("<ruby>日本語<rt>にほんご</rt></ruby>"));
    assert!(result.contains("<ruby>勉強<rt>べんきょう</rt></ruby>"));
}

// kanji filter tests
#[test]
fn test_kanji_extracts_base() {
    assert_eq!(filter_kanji("漢字[かんじ]"), "漢字");
}

#[test]
fn test_kanji_from_ruby_html() {
    assert_eq!(filter_kanji("<ruby>漢字<rt>かんじ</rt></ruby>"), "漢字");
}

// kana filter tests
#[test]
fn test_kana_extracts_reading() {
    assert_eq!(filter_kana("漢字[かんじ]"), "かんじ");
}

#[test]
fn test_kana_from_ruby_html() {
    assert_eq!(filter_kana("<ruby>漢字<rt>かんじ</rt></ruby>"), "かんじ");
}

// unknown filter tests
#[test]
fn filters_test_unknown_filter_passes_through() {
    assert_eq!(apply_filter("unknown_filter", "content"), "content");
}

#[test]
fn test_apply_filter_text() {
    assert_eq!(apply_filter("text", "<b>Bold</b>"), "Bold");
}

// the hint identifier comes from the content's digest: computing it
// independently pins the exact output of the hint filter
#[test]
fn test_hint_filter_exact_output() {
    let content = "The answer";
    let digest = blake3::hash(content.as_bytes());
    let b = digest.as_bytes();
    let id = u64::from_le_bytes([b[0], b[1], b[2], b[3], b[4], b[5], b[6], b[7]]);
    let expected = format!(
        "<a class=\"hint\" href=\"#\" onclick=\"this.style.display='none';document.getElementById('hint{}').style.display='block';return false;\">Show Hint</a><div id=\"hint{}\" class=\"hint\" style=\"display:none\">{}</div>",
        id, id, content
    );
    assert_eq!(filter_hint(content), expected);
}

#[test]
fn test_hint_filter_same_content_same_id() {
    assert_eq!(filter_hint("abc"), filter_hint("abc"));
    assert_ne!(filter_hint("abc"), filter_hint("abd"));
}

#[test]
fn test_type_filter_exact_output() {
    assert_eq!(
        filter_type("ok"),
        "<input type=\"text\" id=\"typeans\" class=\"type-answer\" data-expected=\"ok\"/>"
    );
}

#[test]
fn test_type_filter_matches_attribute_encoder() {
    let content = "a & b < c";
    let expected = format!(
        "<input type=\"text\" id=\"typeans\" class=\"type-answer\" data-expected=\"{}\"/>",
        htmlescape::encode_attribute(content)
    );
    assert_eq!(filter_type(content), expected);
}

#[test]
fn test_text_filter_keeps_lone_angle_pair() {
    // `<>` holds no tag character between the braces, so it stays
    assert_eq!(filter_text("a<>b"), "a<>b");
}

#[test]
fn test_text_filter_unclosed_tag_stays() {
    assert_eq!(filter_text("a<b"), "a<b");
}

#[test]
fn test_kana_bracket_requires_reading() {
    // empty brackets are not ruby syntax
    assert_eq!(filter_kana("漢字[]"), "漢字[]");
}

#[test]
fn test_furigana_iteration_mark_in_base() {
    // the iteration mark and compatibility ideographs are Han-script
    // characters and belong to a bracket-ruby base
    assert_eq!(
        filter_furigana("\u{4F50}\u{3005}\u{6728}[ささき]"),
        "<ruby>\u{4F50}\u{3005}\u{6728}<rt>ささき</rt></ruby>"
    );
}

#[test]
fn test_furigana_compatibility_supplement_base() {
    assert_eq!(
        filter_furigana("\u{2F800}[reading]"),
        "<ruby>\u{2F800}<rt>reading</rt></ruby>"
    );
}

#[test]
fn test_kanji_kana_compatibility_supplement() {
    assert_eq!(filter_kanji("\u{2F800}[r]"), "\u{2F800}");
    assert_eq!(filter_kana("\u{2F800}[r]"), "r");
}
