use logseq_core::ast::{EmbedTarget, Inline};
use logseq_core::tokenize::tokenize_inline;

fn text(s: &str) -> Inline {
    Inline::Text { value: s.to_string() }
}

fn page(title: &str, original: &str) -> Inline {
    Inline::PageRef { title: title.to_string(), original: original.to_string() }
}

fn tag(title: &str, original: &str) -> Inline {
    Inline::Tag { title: title.to_string(), original: original.to_string() }
}

#[test]
fn empty_input_gives_no_nodes() {
    assert_eq!(tokenize_inline(""), vec![]);
}

#[test]
fn plain_text_is_one_text_node() {
    assert_eq!(tokenize_inline("just words, nothing else"), vec![text("just words, nothing else")]);
}

#[test]
fn page_ref_and_tag() {
    assert_eq!(
        tokenize_inline("Hello [[World]] #tag"),
        vec![text("Hello "), page("World", "World"), text(" "), tag("tag", "tag")]
    );
}

#[test]
fn page_title_is_trimmed_but_original_kept() {
    assert_eq!(tokenize_inline("[[ Page ]]"), vec![page("Page", " Page ")]);
}

#[test]
fn unclosed_page_ref_is_text() {
    assert_eq!(tokenize_inline("[[abc"), vec![text("[[abc")]);
}

#[test]
fn block_ref_is_trimmed() {
    assert_eq!(tokenize_inline("(( abc ))"), vec![Inline::BlockRef { uuid: "abc".to_string() }]);
}

#[test]
fn multi_word_tag() {
    assert_eq!(tokenize_inline("#[[Multi Word]]"), vec![tag("Multi Word", "Multi Word")]);
}

#[test]
fn tag_stops_at_punctuation() {
    assert_eq!(tokenize_inline("#tag, next"), vec![tag("tag", "tag"), text(", next")]);
}

#[test]
fn hash_followed_by_space_is_text() {
    assert_eq!(tokenize_inline("# heading"), vec![text("# heading")]);
}

#[test]
fn unclosed_multi_word_tag_is_text() {
    assert_eq!(tokenize_inline("#[[open"), vec![text("#[[open")]);
}

#[test]
fn code_span() {
    assert_eq!(
        tokenize_inline("`a [[b]]` x"),
        vec![Inline::CodeSpan { code: "a [[b]]".to_string() }, text(" x")]
    );
}

#[test]
fn embed_page_and_block() {
    assert_eq!(
        tokenize_inline("{{embed [[Page]]}}"),
        vec![Inline::Embed {
            target: EmbedTarget::PageRef { title: "Page".to_string(), original: "Page".to_string() }
        }]
    );
    assert_eq!(
        tokenize_inline("{{embed ((uuid-1))}}"),
        vec![Inline::Embed { target: EmbedTarget::BlockRef { uuid: "uuid-1".to_string() } }]
    );
}

#[test]
fn embed_of_something_else_is_text() {
    assert_eq!(tokenize_inline("{{embed x}}"), vec![text("{{embed x}}")]);
}

#[test]
fn labeled_page_ref() {
    assert_eq!(
        tokenize_inline("[label]([[Page]])"),
        vec![Inline::Link { label: vec![text("label")], url: "[[Page]]".to_string() }]
    );
}

#[test]
fn labeled_block_ref() {
    assert_eq!(
        tokenize_inline("[x](((abc)))"),
        vec![Inline::Link { label: vec![text("x")], url: "((abc))".to_string() }]
    );
}

#[test]
fn markdown_link_with_nested_label() {
    assert_eq!(
        tokenize_inline("see [the [[Site]]](https://example.com/a_(b)) now"),
        vec![
            text("see [the "),
            page("Site", "Site"),
            text("](https://example.com/a_(b)) now"),
        ]
    );
    assert_eq!(
        tokenize_inline("[site](https://example.com/a_(b)) now"),
        vec![
            Inline::Link { label: vec![text("site")], url: "https://example.com/a_(b)".to_string() },
            text(" now"),
        ]
    );
}

#[test]
fn link_label_is_tokenized() {
    assert_eq!(
        tokenize_inline("[go #here](./x.md)"),
        vec![Inline::Link { label: vec![text("go "), tag("here", "here")], url: "./x.md".to_string() }]
    );
}

#[test]
fn non_url_target_is_text() {
    assert_eq!(tokenize_inline("[a](b)"), vec![text("[a](b)")]);
}

#[test]
fn unicode_text_is_kept() {
    assert_eq!(
        tokenize_inline("héllo [[wörld]] #日本"),
        vec![text("héllo "), page("wörld", "wörld"), text(" "), tag("日本", "日本")]
    );
}
