use card_template::template::{
    parse_template, render, render_nodes, render_with_cloze, ClozeContext, Fields, TemplateNode,
};

fn fields_of(pairs: &[(&str, &str)]) -> Fields {
    let mut fields = Fields::new();
    for (name, value) in pairs {
        fields.insert(name.to_string(), value.to_string());
    }
    fields
}

#[test]
fn test_simple_field() {
    let fields = fields_of(&[("Name", "World")]);
    let result = render("Hello {{Name}}!", &fields).unwrap();
    assert_eq!(result, "Hello World!");
}

#[test]
fn test_multiple_fields() {
    let fields = fields_of(&[("Front", "Question"), ("Back", "Answer")]);
    let result = render("{{Front}} -> {{Back}}", &fields).unwrap();
    assert_eq!(result, "Question -> Answer");
}

#[test]
fn test_conditional_positive() {
    let fields = fields_of(&[("Extra", "yes")]);
    let result = render("{{#Extra}}Has extra{{/Extra}}", &fields).unwrap();
    assert_eq!(result, "Has extra");
}

#[test]
fn test_conditional_positive_empty() {
    let fields = Fields::new();
    let result = render("{{#Extra}}Has extra{{/Extra}}", &fields).unwrap();
    assert_eq!(result, "");
}

#[test]
fn test_conditional_negative() {
    let fields = Fields::new();
    let result = render("{{^Extra}}No extra{{/Extra}}", &fields).unwrap();
    assert_eq!(result, "No extra");
}

#[test]
fn test_conditional_negative_with_value() {
    let fields = fields_of(&[("Extra", "exists")]);
    let result = render("{{^Extra}}No extra{{/Extra}}", &fields).unwrap();
    assert_eq!(result, "");
}

#[test]
fn test_conditional_with_field() {
    let fields = fields_of(&[("Extra", "bonus content")]);
    let result = render("{{#Extra}}Extra: {{Extra}}{{/Extra}}", &fields).unwrap();
    assert_eq!(result, "Extra: bonus content");
}

#[test]
fn test_missing_field() {
    let fields = Fields::new();
    let result = render("Hello {{Name}}!", &fields).unwrap();
    assert_eq!(result, "Hello !");
}

#[test]
fn test_plain_text_only() {
    let fields = Fields::new();
    let result = render("Just plain text", &fields).unwrap();
    assert_eq!(result, "Just plain text");
}

#[test]
fn test_filter_syntax_parsing() {
    let nodes = parse_template("{{text:Field}}").unwrap();
    assert_eq!(nodes.len(), 1);
    match &nodes[0] {
        TemplateNode::Field { name, filters } => {
            assert_eq!(name, "Field");
            assert_eq!(filters, &vec!["text".to_string()]);
        }
        _ => panic!("Expected Field node"),
    }
}

#[test]
fn test_special_fields() {
    let fields = fields_of(&[
        ("FrontSide", "<div>Front content</div>"),
        ("Tags", "tag1 tag2"),
        ("Deck", "MyDeck"),
        ("Card", "Card 1"),
    ]);
    assert_eq!(render("{{FrontSide}}", &fields).unwrap(), "<div>Front content</div>");
    assert_eq!(render("{{Tags}}", &fields).unwrap(), "tag1 tag2");
    assert_eq!(render("{{Deck}}", &fields).unwrap(), "MyDeck");
    assert_eq!(render("{{Card}}", &fields).unwrap(), "Card 1");
}

// Filter integration tests
#[test]
fn test_text_filter_via_template() {
    let fields = fields_of(&[("Field", "<b>Bold</b> text")]);
    let result = render("{{text:Field}}", &fields).unwrap();
    assert_eq!(result, "Bold text");
}

#[test]
fn test_hint_filter_via_template() {
    let fields = fields_of(&[("Definition", "The answer")]);
    let result = render("{{hint:Definition}}", &fields).unwrap();
    assert!(result.contains("Show Hint"));
    assert!(result.contains("The answer"));
}

#[test]
fn test_type_filter_via_template() {
    let fields = fields_of(&[("Answer", "correct")]);
    let result = render("{{type:Answer}}", &fields).unwrap();
    assert!(result.contains("<input"));
    assert!(result.contains("data-expected=\"correct\""));
}

#[test]
fn test_furigana_filter_via_template() {
    let fields = fields_of(&[("Japanese", "日本語[にほんご]")]);
    let result = render("{{furigana:Japanese}}", &fields).unwrap();
    assert!(result.contains("<ruby>日本語<rt>にほんご</rt></ruby>"));
}

#[test]
fn test_kanji_filter_via_template() {
    let fields = fields_of(&[("Japanese", "日本語[にほんご]")]);
    let result = render("{{kanji:Japanese}}", &fields).unwrap();
    assert_eq!(result, "日本語");
}

#[test]
fn test_kana_filter_via_template() {
    let fields = fields_of(&[("Japanese", "日本語[にほんご]")]);
    let result = render("{{kana:Japanese}}", &fields).unwrap();
    assert_eq!(result, "にほんご");
}

#[test]
fn test_chained_filters() {
    let fields = fields_of(&[("Field", "<b>Hidden</b>")]);
    // {{text:hint:Field}} means: apply hint first, then text
    let result = render("{{text:hint:Field}}", &fields).unwrap();
    // hint generates HTML with "Show Hint" etc, then text strips tags
    assert!(result.contains("Show Hint"));
    assert!(!result.contains("<a")); // text filter stripped the anchor tag
}

#[test]
fn test_chained_filters_practical() {
    // More practical: text first (innermost), then hint
    let fields = fields_of(&[("Field", "<b>Bold hint</b>")]);
    // {{hint:text:Field}} applies text first (strips HTML), then hint (wraps result)
    let result = render("{{hint:text:Field}}", &fields).unwrap();
    assert!(result.contains("Show Hint"));
    assert!(result.contains("Bold hint")); // HTML stripped, text preserved
    assert!(!result.contains("<b>")); // Original bold tag stripped
}

#[test]
fn template_test_unknown_filter_passes_through() {
    let fields = fields_of(&[("Field", "content")]);
    let result = render("{{unknown_filter:Field}}", &fields).unwrap();
    assert_eq!(result, "content");
}

#[test]
fn test_multiple_filters_parsing() {
    let nodes = parse_template("{{text:hint:Field}}").unwrap();
    assert_eq!(nodes.len(), 1);
    match &nodes[0] {
        TemplateNode::Field { name, filters } => {
            assert_eq!(name, "Field");
            assert_eq!(filters, &vec!["text".to_string(), "hint".to_string()]);
        }
        _ => panic!("Expected Field node"),
    }
}

#[test]
fn test_cloze_question_via_template() {
    let fields = fields_of(&[("Text", "{{c1::Paris}} is the capital of {{c2::France}}")]);
    let result = render_with_cloze("{{cloze:Text}}", &fields, 1, true).unwrap();
    assert_eq!(
        result,
        "<span class=\"cloze\">[...]</span> is the capital of France"
    );
}

#[test]
fn test_cloze_answer_via_template() {
    let fields = fields_of(&[("Text", "{{c1::Paris}} is the capital of {{c2::France}}")]);
    let result = render_with_cloze("{{cloze:Text}}", &fields, 1, false).unwrap();
    assert_eq!(
        result,
        "<span class=\"cloze\">Paris</span> is the capital of France"
    );
}

#[test]
fn test_cloze_hint_via_template() {
    let fields = fields_of(&[("Text", "{{c1::Paris::capital city}} is in France")]);
    let result = render_with_cloze("{{cloze:Text}}", &fields, 1, true).unwrap();
    assert_eq!(
        result,
        "<span class=\"cloze\">[capital city]</span> is in France"
    );
}

#[test]
fn test_cloze_filter_without_context_passes_through() {
    let fields = fields_of(&[("Text", "{{c1::Paris}} stays")]);
    let result = render("{{cloze:Text}}", &fields).unwrap();
    assert_eq!(result, "{{c1::Paris}} stays");
}

#[test]
fn test_empty_template() {
    let fields = Fields::new();
    assert_eq!(render("", &fields).unwrap(), "");
}

#[test]
fn test_unterminated_marker_is_error() {
    let fields = Fields::new();
    let err = render("before {{Name", &fields).unwrap_err();
    assert_eq!(err, "Failed to parse remaining: {{Name");
}

#[test]
fn test_missing_conditional_close_is_error() {
    let fields = fields_of(&[("A", "x")]);
    let err = render("{{#A}}body without close", &fields).unwrap_err();
    assert_eq!(err, "Failed to parse remaining: {{#A}}body without close");
}

#[test]
fn test_stray_close_marker_is_error() {
    let fields = Fields::new();
    let err = render("text {{/A}}", &fields).unwrap_err();
    assert_eq!(err, "Failed to parse remaining: {{/A}}");
}

#[test]
fn test_nested_conditionals() {
    let fields = fields_of(&[("A", "1"), ("B", "2")]);
    let result = render("{{#A}}a{{#B}}b{{/B}}c{{/A}}", &fields).unwrap();
    assert_eq!(result, "abc");
}

#[test]
fn test_same_name_conditional_closes_at_first_marker() {
    // the close-marker search is a first-occurrence scan, not nesting-aware:
    // an inner block with the same name closes the outer one early
    let fields = fields_of(&[("A", "x")]);
    let err = render("{{#A}}1{{#A}}2{{/A}}3{{/A}}", &fields).unwrap_err();
    assert_eq!(err, "Failed to parse remaining: {{/A}}");
}

#[test]
fn test_insert_overrides_earlier_value() {
    let mut fields = Fields::new();
    fields.insert("K".to_string(), "first".to_string());
    fields.insert("K".to_string(), "second".to_string());
    assert_eq!(render("{{K}}", &fields).unwrap(), "second");
}

#[test]
fn test_rerender_same_tree_different_fields() {
    // one parsed tree, rendered twice with different mappings: the second
    // render is unaffected by the first, and repeating the first render
    // gives the first answer again
    let nodes = parse_template("{{#Extra}}[{{Extra}}]{{/Extra}}{{Name}}").unwrap();
    let first = fields_of(&[("Name", "one"), ("Extra", "x")]);
    let second = fields_of(&[("Name", "two")]);
    let out1 = render_nodes(&nodes, &first, None);
    let out2 = render_nodes(&nodes, &second, None);
    let out1_again = render_nodes(&nodes, &first, None);
    assert_eq!(out1, "[x]one");
    assert_eq!(out2, "two");
    assert_eq!(out1, out1_again);
}

#[test]
fn test_render_nodes_with_context_matches_render_with_cloze() {
    let nodes = parse_template("{{cloze:Text}}").unwrap();
    let fields = fields_of(&[("Text", "{{c2::deux}}")]);
    let ctx = ClozeContext { card_ord: 2, is_question: false };
    let via_nodes = render_nodes(&nodes, &fields, Some(&ctx));
    let direct = render_with_cloze("{{cloze:Text}}", &fields, 2, false).unwrap();
    assert_eq!(via_nodes, direct);
    assert_eq!(direct, "<span class=\"cloze\">deux</span>");
}

#[test]
fn test_field_name_with_spaces_is_trimmed() {
    let fields = fields_of(&[("My Field", "v")]);
    assert_eq!(render("{{ My Field }}", &fields).unwrap(), "v");
}

#[test]
fn test_conditional_all_four_combinations() {
    let present = fields_of(&[("F", "v")]);
    let empty_value = fields_of(&[("F", "")]);
    let absent = Fields::new();
    // positive block: children iff present and non-empty
    assert_eq!(render("{{#F}}yes{{/F}}", &present).unwrap(), "yes");
    assert_eq!(render("{{#F}}yes{{/F}}", &empty_value).unwrap(), "");
    assert_eq!(render("{{#F}}yes{{/F}}", &absent).unwrap(), "");
    // negative block: children iff absent or empty
    assert_eq!(render("{{^F}}no{{/F}}", &present).unwrap(), "");
    assert_eq!(render("{{^F}}no{{/F}}", &empty_value).unwrap(), "no");
    assert_eq!(render("{{^F}}no{{/F}}", &absent).unwrap(), "no");
}

#[test]
fn test_plain_text_identity_on_braces_free_text() {
    let fields = fields_of(&[("Name", "ignored")]);
    let text = "no markers at all, just { single } braces & text";
    assert_eq!(render(text, &fields).unwrap(), text);
}

#[test]
fn test_absent_field_renders_empty_everywhere() {
    let fields = Fields::new();
    assert_eq!(render("a{{Gone}}b{{Gone}}c", &fields).unwrap(), "abc");
}

#[test]
fn test_filter_chain_order_concrete() {
    // {{hint:text:Field}} applies text before hint: the bold tag is gone,
    // its words stay, and the toggle text appears
    let fields = fields_of(&[("Field", "<b>Bold hint</b>")]);
    let result = render("{{hint:text:Field}}", &fields).unwrap();
    assert!(result.contains("Show Hint"));
    assert!(result.contains("Bold hint"));
    assert!(!result.contains("<b>"));
}

#[test]
fn test_cloned_tree_renders_the_same() {
    let nodes = parse_template("{{#A}}x{{B}}{{/A}}tail").unwrap();
    let copy = nodes.clone();
    assert_eq!(copy, nodes);
    let fields = fields_of(&[("A", "on"), ("B", "bee")]);
    assert_eq!(
        render_nodes(&copy, &fields, None),
        render_nodes(&nodes, &fields, None)
    );
}
