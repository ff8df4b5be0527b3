use logseq_core::ast::{Block, Document, Inline, Node};
use logseq_core::blog::{nesting_within, render_blog_markdown};

fn text(s: &str) -> Inline {
    Inline::Text { value: s.to_string() }
}

fn block(content: Vec<Inline>, children: Vec<Block>) -> Block {
    Block { id: None, marker: None, properties: vec![], content, children, line: 1 }
}

fn doc(blocks: Vec<Block>) -> Document {
    Document { version: 1, items: blocks.into_iter().map(Node::Block).collect() }
}

#[test]
fn single_paragraph_gets_a_full_stop() {
    assert_eq!(render_blog_markdown(&doc(vec![block(vec![text("Hello World")], vec![])])), "Hello World.\n");
}

#[test]
fn children_become_sentences() {
    let d = doc(vec![block(
        vec![text("Hello")],
        vec![block(vec![text("World")], vec![block(vec![text("Again!")], vec![])])],
    )]);
    assert_eq!(render_blog_markdown(&d), "Hello. World. Again!\n");
}

#[test]
fn colon_keeps_a_nested_list() {
    let d = doc(vec![block(
        vec![text("Items:")],
        vec![block(vec![text("a")], vec![]), block(vec![text("b")], vec![block(vec![text("c?")], vec![])])],
    )]);
    assert_eq!(render_blog_markdown(&d), "Items:\n- a.\n- b.\n  - c?\n");
}

#[test]
fn paragraphs_are_separated_by_a_blank_line() {
    let d = doc(vec![block(vec![text("A")], vec![]), block(vec![text("B")], vec![])]);
    assert_eq!(render_blog_markdown(&d), "A.\n\nB.\n");
}

#[test]
fn refs_tags_and_embeds() {
    let d = doc(vec![block(
        vec![
            text("See "),
            Inline::PageRef { title: "Page".to_string(), original: " Page ".to_string() },
            text(" "),
            Inline::Tag { title: "x".to_string(), original: "x".to_string() },
            Inline::BlockRef { uuid: "u".to_string() },
            Inline::Link { label: vec![text(" the "), Inline::CodeSpan { code: "c".to_string() }], url: "http://a".to_string() },
        ],
        vec![],
    )]);
    assert_eq!(render_blog_markdown(&d), "See Page [the `c`](http://a).\n");
}

#[test]
fn empty_child_keeps_its_descendants() {
    let d = doc(vec![block(
        vec![text("Top")],
        vec![block(vec![], vec![block(vec![text("kept")], vec![])]), block(vec![text("shown")], vec![])],
    )]);
    assert_eq!(render_blog_markdown(&d), "Top. kept. shown.\n");
    let d = doc(vec![block(
        vec![text("Parent")],
        vec![block(vec![Inline::Tag { title: "x".to_string(), original: "x".to_string() }], vec![block(vec![text("kept")], vec![])])],
    )]);
    assert_eq!(render_blog_markdown(&d), "Parent. kept.\n");
}

#[test]
fn code_block_is_fenced() {
    let d = doc(vec![block(
        vec![text("Run:"), Inline::CodeBlock { info: Some("sh".to_string()), text: "ls".to_string() }],
        vec![],
    )]);
    assert_eq!(render_blog_markdown(&d), "Run:\n```sh\nls\n```\n");
    let d = doc(vec![block(vec![Inline::CodeBlock { info: Some("rust".to_string()), text: "let x = 1;".to_string() }], vec![])]);
    assert_eq!(render_blog_markdown(&d), "```rust\nlet x = 1;\n```\n");
}

#[test]
fn code_is_kept_verbatim() {
    let d = doc(vec![block(
        vec![text("a\n\nb"), Inline::CodeBlock { info: None, text: "x\n\ny".to_string() }],
        vec![],
    )]);
    assert_eq!(render_blog_markdown(&d), "a\nb\n```\nx\n\ny\n```\n");
}

#[test]
fn code_child_is_fenced_on_its_own_lines() {
    let d = doc(vec![block(
        vec![text("Intro")],
        vec![
            block(vec![Inline::CodeBlock { info: Some("sh".to_string()), text: "ls".to_string() }], vec![]),
            block(vec![text("After")], vec![]),
        ],
    )]);
    assert_eq!(render_blog_markdown(&d), "Intro.\n```sh\nls\n```\nAfter.\n");
}

#[test]
fn nested_colon_keeps_a_list() {
    let d = doc(vec![block(
        vec![text("Intro")],
        vec![block(vec![text("Steps:")], vec![block(vec![text("one")], vec![block(vec![text("deeper")], vec![])])])],
    )]);
    let out = render_blog_markdown(&d);
    assert_eq!(out, "Intro. Steps:\n- one.\n  - deeper.\n");
    assert!(out.lines().any(|l| l.trim_start() == "- one."));
}

#[test]
fn sentence_after_a_nested_list_starts_a_new_paragraph() {
    let d = doc(vec![block(
        vec![text("Intro")],
        vec![block(vec![text("Steps:")], vec![block(vec![text("one")], vec![])]), block(vec![text("Done")], vec![])],
    )]);
    assert_eq!(render_blog_markdown(&d), "Intro. Steps:\n- one.\n\nDone.\n");
}

#[test]
fn blank_lines_are_paragraph_breaks() {
    let a = Node::Block(block(vec![text("a")], vec![]));
    let b = Node::Block(block(vec![text("b")], vec![]));
    let d1 = Document {
        version: 1,
        items: vec![a.clone(), Node::BlankLine { line: 2 }, Node::BlankLine { line: 3 }, b.clone()],
    };
    let d2 = Document { version: 1, items: vec![a.clone(), b.clone()] };
    assert_eq!(render_blog_markdown(&d1), "a.\n\nb.\n");
    assert_eq!(render_blog_markdown(&d2), "a.\n\nb.\n");
    let d3 = Document { version: 1, items: vec![a, Node::BlankLine { line: 2 }] };
    assert_eq!(render_blog_markdown(&d3), "a.\n");
}

#[test]
fn empty_document() {
    assert_eq!(render_blog_markdown(&doc(vec![])), "\n");
}

#[test]
fn dropped_nodes_leave_no_trace() {
    let with = doc(vec![block(
        vec![
            text("Hi "),
            Inline::Embed { target: logseq_core::ast::EmbedTarget::BlockRef { uuid: "u".to_string() } },
            Inline::Tag { title: "t".to_string(), original: "t".to_string() },
            text("there"),
            Inline::BlockRef { uuid: "v".to_string() },
        ],
        vec![],
    )]);
    assert_eq!(render_blog_markdown(&with), "Hi there.\n");
}

#[test]
fn nesting_depth_is_measured() {
    let d = doc(vec![block(vec![text("a")], vec![block(vec![text("b")], vec![block(vec![text("c")], vec![])])])]);
    assert!(nesting_within(&d.items, 3));
    assert!(!nesting_within(&d.items, 2));
    assert!(nesting_within(&vec![Node::BlankLine { line: 1 }], 0));
    assert!(!nesting_within(&d.items, 0));
}

#[test]
fn markers_and_properties_are_not_rendered() {
    let mut b = block(vec![text("Task")], vec![]);
    b.marker = Some(logseq_core::ast::Marker::Todo);
    b.id = Some("u".to_string());
    b.properties = vec![logseq_core::ast::Property {
        key: "k".to_string(),
        value: "v".to_string(),
        inlines: vec![text("v")],
        line: 2,
    }];
    assert_eq!(render_blog_markdown(&doc(vec![b])), render_blog_markdown(&doc(vec![block(vec![text("Task")], vec![])])));
}

#[test]
fn output_ends_with_a_single_newline() {
    let a = Node::Block(block(vec![text("a")], vec![]));
    let d = Document {
        version: 1,
        items: vec![a, Node::BlankLine { line: 2 }, Node::BlankLine { line: 3 }],
    };
    let r = render_blog_markdown(&d);
    assert_eq!(r, "a.\n");
    let d = doc(vec![block(vec![text("x\n\n")], vec![])]);
    let r = render_blog_markdown(&d);
    assert!(r.ends_with('\n') && !r.ends_with("\n\n"));
}

#[test]
fn newline_after_a_fence_joins_the_blank_line_collapse() {
    let d = doc(vec![block(
        vec![Inline::CodeBlock { info: None, text: "x".to_string() }, text("\nfoo")],
        vec![],
    )]);
    assert_eq!(render_blog_markdown(&d), "```\nx\n```\nfoo.\n");
}
