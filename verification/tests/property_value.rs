use logseq_core::ast::Inline;
use logseq_core::property_value::parse_property_value;

fn text(s: &str) -> Inline {
    Inline::Text { value: s.to_string() }
}

fn url_link(u: &str) -> Inline {
    Inline::Link { label: vec![text(u)], url: u.to_string() }
}

#[test]
fn bare_url_becomes_link() {
    assert_eq!(parse_property_value("https://example.com"), vec![url_link("https://example.com")]);
}

#[test]
fn urls_inside_text() {
    assert_eq!(
        parse_property_value("see https://a.com and http://b.org"),
        vec![text("see "), url_link("https://a.com"), text(" and "), url_link("http://b.org")]
    );
}

#[test]
fn tags_in_property_values() {
    assert_eq!(
        parse_property_value("#[[Project]] #mvp"),
        vec![
            Inline::Tag { title: "Project".to_string(), original: "Project".to_string() },
            text(" "),
            Inline::Tag { title: "mvp".to_string(), original: "mvp".to_string() },
        ]
    );
}

#[test]
fn empty_value() {
    assert_eq!(parse_property_value(""), vec![]);
}

#[test]
fn non_http_scheme_stays_text() {
    assert_eq!(parse_property_value("ftp://x.org y"), vec![text("ftp://x.org y")]);
}

fn unlink_and_merge(ns: Vec<Inline>) -> Vec<Inline> {
    let mut out: Vec<Inline> = Vec::new();
    for n in ns {
        let n = match n {
            Inline::Link { url, .. } => Inline::Text { value: url },
            other => other,
        };
        match (out.last_mut(), n) {
            (_, Inline::Text { value }) if value.is_empty() => {}
            (Some(Inline::Text { value: prev }), Inline::Text { value }) => prev.push_str(&value),
            (_, n) => out.push(n),
        }
    }
    out
}

#[test]
fn links_read_back_give_the_inline_text() {
    for v in ["see https://a.com and [[P]] then http://b.org/x #t", "https://x.y", "plain", ""] {
        assert_eq!(unlink_and_merge(parse_property_value(v)), logseq_core::tokenize::tokenize_inline(v));
    }
}

#[test]
fn url_pieces_read_back_give_the_text() {
    let v = "a https://x.y\tb  http://z ";
    let joined: String = parse_property_value(v)
        .into_iter()
        .map(|n| match n {
            Inline::Text { value } => value,
            Inline::Link { url, .. } => url,
            _ => String::new(),
        })
        .collect();
    assert_eq!(joined, v);
}
