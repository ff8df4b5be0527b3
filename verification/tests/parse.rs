use logseq_core::ast::{Block, Document, Inline, Marker, Node, Property};
use logseq_core::parse::{parse, ParseError};
use logseq_core::property_value::parse_property_value;

fn text(s: &str) -> Inline {
    Inline::Text { value: s.to_string() }
}

fn block(content: Vec<Inline>, children: Vec<Block>, line: usize) -> Block {
    Block { id: None, marker: None, properties: vec![], content, children, line }
}

fn prop(key: &str, value: &str, line: usize) -> Property {
    Property { key: key.to_string(), value: value.to_string(), inlines: parse_property_value(value), line }
}

/// The top-level blocks of a page, without its blank lines.
fn blocks_of(doc: &Document) -> Vec<Block> {
    doc.items
        .iter()
        .filter_map(|n| match n {
            Node::Block(b) => Some(b.clone()),
            Node::BlankLine { .. } => None,
        })
        .collect()
}

#[test]
fn empty_input_is_an_error() {
    assert_eq!(parse("").unwrap_err(), ParseError::Empty);
    assert_eq!(parse("  \n\t\n ").unwrap_err(), ParseError::Empty);
}

#[test]
fn single_bullet() {
    let doc = parse("- Hello [[World]] #tag\n").unwrap();
    assert_eq!(
        doc,
        Document {
            version: 1,
            items: vec![Node::Block(block(
                vec![
                    text("Hello "),
                    Inline::PageRef { title: "World".to_string(), original: "World".to_string() },
                    text(" "),
                    Inline::Tag { title: "tag".to_string(), original: "tag".to_string() },
                ],
                vec![],
                1,
            ))],
        }
    );
}

#[test]
fn nesting_follows_indentation() {
    let doc = parse("- a\n  - b\n    - c\n  - d\n- e").unwrap();
    let expected = vec![
        block(
            vec![text("a")],
            vec![block(vec![text("b")], vec![block(vec![text("c")], vec![], 3)], 2), block(vec![text("d")], vec![], 4)],
            1,
        ),
        block(vec![text("e")], vec![], 5),
    ];
    assert_eq!(blocks_of(&doc), expected);
}

#[test]
fn dedent_to_intermediate_level_attaches_to_nearest_shallower() {
    // levels 0, 2, 1: the last block is a child of the first
    let doc = parse("- a\n    - b\n  - c").unwrap();
    let expected = vec![block(
        vec![text("a")],
        vec![block(vec![text("b")], vec![], 2), block(vec![text("c")], vec![], 3)],
        1,
    )];
    assert_eq!(blocks_of(&doc), expected);
}

#[test]
fn blank_lines_become_items() {
    let doc = parse("- a\n\n   \n- b\n").unwrap();
    assert_eq!(
        doc.items,
        vec![
            Node::Block(block(vec![text("a")], vec![], 1)),
            Node::BlankLine { line: 2 },
            Node::BlankLine { line: 3 },
            Node::Block(block(vec![text("b")], vec![], 4)),
        ]
    );
}

#[test]
fn blank_line_between_blocks() {
    let doc = parse("- a\n\n- b\n").unwrap();
    assert_eq!(
        doc.items,
        vec![
            Node::Block(block(vec![text("a")], vec![], 1)),
            Node::BlankLine { line: 2 },
            Node::Block(block(vec![text("b")], vec![], 3)),
        ]
    );
}

#[test]
fn blank_line_inside_a_subtree_follows_its_top_block() {
    let doc = parse("\n- a\n  - b\n\n  - c\n- d").unwrap();
    assert_eq!(
        doc.items,
        vec![
            Node::BlankLine { line: 1 },
            Node::Block(block(
                vec![text("a")],
                vec![block(vec![text("b")], vec![], 3), block(vec![text("c")], vec![], 5)],
                2,
            )),
            Node::BlankLine { line: 4 },
            Node::Block(block(vec![text("d")], vec![], 6)),
        ]
    );
}

#[test]
fn blank_lines_inside_code_are_code() {
    let doc = parse("```\na\n\nb\n```").unwrap();
    assert_eq!(doc.items.len(), 1);
    assert_eq!(
        blocks_of(&doc)[0].content,
        vec![Inline::CodeBlock { info: None, text: "a\n\nb".to_string() }]
    );
}

#[test]
fn property_values_are_parsed() {
    let doc = parse("- a\nlink:: https://example.com\n").unwrap();
    let b = &blocks_of(&doc)[0];
    assert_eq!(b.properties.len(), 1);
    assert_eq!(b.properties[0].key, "link");
    assert_eq!(b.properties[0].value, "https://example.com");
    assert_eq!(b.properties[0].line, 2);
    assert_eq!(
        b.properties[0].inlines,
        vec![Inline::Link { label: vec![text("https://example.com")], url: "https://example.com".to_string() }]
    );
}

#[test]
fn properties_attach_to_latest_block_and_capture_id() {
    let doc = parse("- task\n  id:: 123\n  tags:: x\n  id:: 456").unwrap();
    let mut b = block(vec![text("task")], vec![], 1);
    b.id = Some("123".to_string());
    b.properties = vec![prop("id", "123", 2), prop("tags", "x", 3), prop("id", "456", 4)];
    assert_eq!(blocks_of(&doc), vec![b]);
}

#[test]
fn leading_property_opens_an_implicit_block() {
    let doc = parse("title:: My Page\n- a").unwrap();
    let mut implicit = block(vec![], vec![], 1);
    implicit.properties = vec![prop("title", "My Page", 1)];
    assert_eq!(blocks_of(&doc), vec![implicit, block(vec![text("a")], vec![], 2)]);
}

#[test]
fn leading_id_property_sets_the_id() {
    let doc = parse("id:: abc").unwrap();
    assert_eq!(blocks_of(&doc)[0].id, Some("abc".to_string()));
}

#[test]
fn bulleted_property_is_block_text() {
    let doc = parse("- key:: value").unwrap();
    assert_eq!(blocks_of(&doc), vec![block(vec![text("key:: value")], vec![], 1)]);
}

#[test]
fn property_value_keeps_later_separators() {
    let doc = parse("- a\nkey:: value:: more").unwrap();
    assert_eq!(blocks_of(&doc)[0].properties, vec![prop("key", "value:: more", 2)]);
}

#[test]
fn markers() {
    let doc = parse("- TODO write\n- DOING x\n- DONE y\n- LATER z\n- NOW w\n- TODOS no").unwrap();
    let markers: Vec<Option<Marker>> = blocks_of(&doc).iter().map(|b| b.marker).collect();
    assert_eq!(
        markers,
        vec![Some(Marker::Todo), Some(Marker::Doing), Some(Marker::Done), Some(Marker::Later), Some(Marker::Now), None]
    );
    assert_eq!(blocks_of(&doc)[0].content, vec![text("write")]);
    assert_eq!(blocks_of(&doc)[5].content, vec![text("TODOS no")]);
}

#[test]
fn star_bullet_and_plain_line() {
    let doc = parse("* starred\nplain").unwrap();
    assert_eq!(blocks_of(&doc), vec![block(vec![text("starred")], vec![], 1), block(vec![text("plain")], vec![], 2)]);
}

#[test]
fn code_fence_becomes_a_block() {
    let doc = parse("- a\n```rust\nfn main() {}\n\nlet x = 1;\n```\n- b").unwrap();
    let code = block(
        vec![Inline::CodeBlock { info: Some("rust".to_string()), text: "fn main() {}\n\nlet x = 1;".to_string() }],
        vec![],
        2,
    );
    assert_eq!(blocks_of(&doc), vec![block(vec![text("a")], vec![], 1), code, block(vec![text("b")], vec![], 7)]);
}

#[test]
fn indented_fence_is_a_child_and_keeps_raw_lines() {
    let doc = parse("- a\n  ```\n  x\n  ```").unwrap();
    let code = block(vec![Inline::CodeBlock { info: None, text: "  x".to_string() }], vec![], 2);
    assert_eq!(blocks_of(&doc), vec![block(vec![text("a")], vec![code], 1)]);
}

#[test]
fn unclosed_fence_is_an_error() {
    assert_eq!(parse("- a\n```\ncode").unwrap_err(), ParseError::UnclosedCodeFence { line: 2 });
}

#[test]
fn crlf_line_endings() {
    let doc = parse("- a\r\n- b\r\n").unwrap();
    assert_eq!(blocks_of(&doc), vec![block(vec![text("a")], vec![], 1), block(vec![text("b")], vec![], 2)]);
}

#[test]
fn tab_indentation_counts_two_columns() {
    let doc = parse("- a\n\t- b").unwrap();
    assert_eq!(blocks_of(&doc), vec![block(vec![text("a")], vec![block(vec![text("b")], vec![], 2)], 1)]);
}

#[test]
fn tab_keeps_the_text_after_it() {
    let doc = parse("- a\n\tb c\n").unwrap();
    assert_eq!(blocks_of(&doc), vec![block(vec![text("a")], vec![block(vec![text("b c")], vec![], 2)], 1)]);
}

#[test]
fn tab_before_a_wide_character() {
    let doc = parse("\té").unwrap();
    assert_eq!(blocks_of(&doc), vec![block(vec![text("é")], vec![], 1)]);
    let doc = parse("- a\n\té").unwrap();
    assert_eq!(blocks_of(&doc)[0].children, vec![block(vec![text("é")], vec![], 2)]);
}

#[test]
fn version_is_one() {
    assert_eq!(parse("x").unwrap().version, 1);
}

fn check_placed(bs: &[Block], lo: usize, n: usize) {
    for w in bs.windows(2) {
        assert!(w[0].line < w[1].line);
    }
    for b in bs {
        assert!(lo < b.line && b.line <= n);
        let first_id = b.properties.iter().find(|p| p.key == "id").map(|p| p.value.clone());
        assert_eq!(b.id, first_id);
        check_placed(&b.children, b.line, n);
    }
}

#[test]
fn blocks_follow_the_page() {
    let input = "- a\n  id:: one\n  id:: two\n  - b\n    - c\n  - d\n\n- e\n```\nx\n```\n  tags:: t\n";
    let doc = parse(input).unwrap();
    check_placed(&blocks_of(&doc), 0, input.lines().count());
    let mut pre: Vec<usize> = Vec::new();
    fn walk(bs: &[Block], pre: &mut Vec<usize>) {
        for b in bs {
            pre.push(b.line);
            walk(&b.children, pre);
        }
    }
    walk(&blocks_of(&doc), &mut pre);
    assert!(pre.windows(2).all(|w| w[0] < w[1]));
    let lines: Vec<&str> = input.lines().collect();
    assert!(pre.iter().all(|l| !lines[l - 1].trim().is_empty()));
    assert_eq!(blocks_of(&doc).len(), 3);
    assert_eq!(blocks_of(&doc)[0].id, Some("one".to_string()));
    assert_eq!(blocks_of(&doc)[0].children.len(), 2);
    assert_eq!(blocks_of(&doc)[0].children[0].children[0].line, 5);
    assert_eq!(blocks_of(&doc)[2].line, 9);
    assert_eq!(blocks_of(&doc)[2].properties, vec![prop("tags", "t", 12)]);
}

#[test]
fn parsed_document_clones_equal() {
    let doc = parse("- a [[P]] [x](http://y)\n  id:: 1\n  - {{embed ((u))}}\n```sh\nls\n```").unwrap();
    let copy = doc.clone();
    assert_eq!(copy, doc);
    assert_eq!(blocks_of(&doc)[0].clone(), blocks_of(&doc)[0]);
}

#[test]
fn items_follow_the_page() {
    let input = "\n- a\n  - b\n\n```\nx\n\n```\n  \n- c\n";
    let doc = parse(input).unwrap();
    let lines: Vec<&str> = input.lines().collect();
    let item_lines: Vec<usize> = doc
        .items
        .iter()
        .map(|n| match n {
            Node::Block(b) => b.line,
            Node::BlankLine { line } => *line,
        })
        .collect();
    assert_eq!(item_lines, vec![1, 2, 4, 5, 9, 10]);
    for n in &doc.items {
        match n {
            Node::Block(b) => assert!(!lines[b.line - 1].trim().is_empty()),
            Node::BlankLine { line } => assert!(lines[line - 1].trim().is_empty()),
        }
    }
}
