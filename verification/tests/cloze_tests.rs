use card_template::cloze::{count_cloze_ordinals, render_cloze};

#[test]
fn test_cloze_question_basic() {
    let field = "{{c1::Paris}} is the capital of {{c2::France}}";
    let result = render_cloze(field, 1, true);
    assert_eq!(
        result,
        "<span class=\"cloze\">[...]</span> is the capital of France"
    );
}

#[test]
fn test_cloze_question_second_card() {
    let field = "{{c1::Paris}} is the capital of {{c2::France}}";
    let result = render_cloze(field, 2, true);
    assert_eq!(
        result,
        "Paris is the capital of <span class=\"cloze\">[...]</span>"
    );
}

#[test]
fn test_cloze_answer() {
    let field = "{{c1::Paris}} is the capital of {{c2::France}}";
    let result = render_cloze(field, 1, false);
    assert_eq!(
        result,
        "<span class=\"cloze\">Paris</span> is the capital of France"
    );
}

#[test]
fn test_cloze_hint() {
    let field = "{{c1::Paris::capital city}} is in France";
    let result = render_cloze(field, 1, true);
    assert_eq!(
        result,
        "<span class=\"cloze\">[capital city]</span> is in France"
    );
}

#[test]
fn test_cloze_hint_answer() {
    let field = "{{c1::Paris::capital city}} is in France";
    let result = render_cloze(field, 1, false);
    // Answer side shows text, not hint
    assert_eq!(
        result,
        "<span class=\"cloze\">Paris</span> is in France"
    );
}

#[test]
fn test_count_cloze_ordinals() {
    let field = "{{c1::a}} {{c2::b}} {{c3::c}} {{c1::d}}";
    assert_eq!(count_cloze_ordinals(field), 3);
}

#[test]
fn test_no_cloze() {
    let field = "Just plain text";
    let result = render_cloze(field, 1, true);
    assert_eq!(result, "Just plain text");
}

#[test]
fn test_multiple_same_cloze() {
    let field = "{{c1::word1}} and {{c1::word2}}";
    let result = render_cloze(field, 1, true);
    assert_eq!(
        result,
        "<span class=\"cloze\">[...]</span> and <span class=\"cloze\">[...]</span>"
    );
}

#[test]
fn test_count_no_markers() {
    assert_eq!(count_cloze_ordinals("no markers here"), 0);
}

#[test]
fn test_count_empty_field() {
    assert_eq!(count_cloze_ordinals(""), 0);
}

#[test]
fn test_cloze_empty_hint_shows_brackets() {
    let result = render_cloze("{{c1::word::}}", 1, true);
    assert_eq!(result, "<span class=\"cloze\">[]</span>");
}

#[test]
fn test_cloze_hint_with_colons() {
    // the body splits at its first `::`; later colons belong to the hint
    let result = render_cloze("{{c1::a::b::c}}", 1, true);
    assert_eq!(result, "<span class=\"cloze\">[b::c]</span>");
}

#[test]
fn test_cloze_unterminated_marker_stays() {
    let field = "{{c1::never closed";
    assert_eq!(render_cloze(field, 1, true), field);
    assert_eq!(count_cloze_ordinals(field), 0);
}

#[test]
fn test_cloze_huge_ordinal_never_active() {
    // an ordinal too large for a 32-bit integer acts as ordinal 0
    let field = "{{c99999999999::x}}";
    assert_eq!(render_cloze(field, 1, true), "x");
    assert_eq!(count_cloze_ordinals(field), 0);
}

#[test]
fn test_cloze_single_colon_is_text() {
    let result = render_cloze("{{c1::a:b}}", 1, false);
    assert_eq!(result, "<span class=\"cloze\">a:b</span>");
}
