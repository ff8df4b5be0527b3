use crate::ast::{
    block_view, blocks_view, inline_view, inlines_view, node_view, nodes_view, Block, Document,
    Inline, Node, SpecBlock, SpecDocument, SpecInline, SpecNode,
};
use crate::text::{
    chars_of, ends_with_exec, matches_at, push_all, slice_of, string_from_chars, trim, trim_end,
    trim_end_of, trim_of,
};
use vstd::prelude::*;

verus! {

// ---------------------------------------------------------------------------
// What a document renders to
// ---------------------------------------------------------------------------

pub open spec fn lit_link_mid() -> Seq<char> {
    seq![']', '(']
}

pub open spec fn lit_fence_line() -> Seq<char> {
    seq!['`', '`', '`']
}

/// A code-block node rendered as a fenced block.
pub open spec fn fenced(info: Option<Seq<char>>, text: Seq<char>) -> Seq<char> {
    lit_fence_line() + (match info {
        Some(i) => i,
        None => Seq::empty(),
    }) + seq!['\n'] + text + seq!['\n'] + lit_fence_line() + seq!['\n']
}

/// A link rendered as markdown, with its label rendered as plain inline text.
pub open spec fn link_md(label: Seq<char>, url: Seq<char>) -> Seq<char> {
    seq!['['] + trim(label) + lit_link_mid() + url + seq![')']
}

/// What an inline node other than a code block adds to prose: page
/// references become their title, links stay markdown links, code spans keep
/// their backticks; tags, block references and embeds add nothing.
pub open spec fn prose_piece(x: SpecInline) -> Seq<char> {
    match x {
        SpecInline::Text { value } => value,
        SpecInline::CodeSpan { code } => seq!['`'] + code + seq!['`'],
        SpecInline::Link { label, url } => link_md(plain_inlines(label), url),
        SpecInline::PageRef { title, .. } => title,
        _ => Seq::empty(),
    }
}

/// Inline nodes as plain text (link labels): code blocks are dropped too.
pub open spec fn plain_inlines(ls: Seq<SpecInline>) -> Seq<char>
    decreases ls,
{
    if ls.len() == 0 {
        Seq::empty()
    } else {
        plain_inlines(ls.drop_last()) + match ls.last() {
            SpecInline::Text { value } => value,
            SpecInline::CodeSpan { code } => seq!['`'] + code + seq!['`'],
            SpecInline::Link { label, url } => link_md(plain_inlines(label), url),
            SpecInline::PageRef { title, .. } => title,
            _ => Seq::empty(),
        }
    }
}

/// `str::replace("\n\n", "\n")`: non-overlapping, left to right.
pub open spec fn collapse_blank(s: Seq<char>) -> Seq<char>
    decreases s.len(),
{
    if s.len() == 0 {
        Seq::empty()
    } else if s.len() >= 2 && s[0] == '\n' && s[1] == '\n' {
        seq!['\n'] + collapse_blank(s.subrange(2, s.len() as int))
    } else {
        seq![s[0]] + collapse_blank(s.subrange(1, s.len() as int))
    }
}

/// A newline before a code fence, unless the text is empty or already ends
/// with one.
pub open spec fn fence_sep(s: Seq<char>) -> Seq<char> {
    if s.len() > 0 && s.last() != '\n' {
        seq!['\n']
    } else {
        Seq::empty()
    }
}

/// Prose `run` with its blank lines collapsed, following the text `done`.
/// After a code block (`done` non-empty, ending with the fence's newline)
/// that newline takes part in the collapse: a newline opening the prose joins
/// it.
pub open spec fn prose_tail(done: Seq<char>, run: Seq<char>) -> Seq<char> {
    if done.len() > 0 {
        collapse_blank(seq!['\n'] + run).drop_first()
    } else {
        collapse_blank(run)
    }
}

/// A block's content rendered left to right, in two parts: the text up to
/// and including the last code block, and the prose after it (whose blank
/// lines are not yet collapsed). Prose blank lines collapse; code is kept
/// verbatim.
pub open spec fn content_parts(ls: Seq<SpecInline>) -> (Seq<char>, Seq<char>)
    decreases ls.len(),
{
    if ls.len() == 0 {
        (Seq::empty(), Seq::empty())
    } else {
        let (done, run) = content_parts(ls.drop_last());
        match ls.last() {
            SpecInline::CodeBlock { info, text } => {
                let s = done + prose_tail(done, run);
                (s + fence_sep(s) + fenced(info, text), Seq::empty())
            },
            x => (done, run + prose_piece(x)),
        }
    }
}

/// A block's content as text.
pub open spec fn content_text(ls: Seq<SpecInline>) -> Seq<char> {
    content_parts(ls).0 + prose_tail(content_parts(ls).0, content_parts(ls).1)
}

/// The text of one block (markers and properties are not rendered).
pub open spec fn block_text(b: SpecBlock) -> Seq<char> {
    trim(content_text(b.content))
}

/// Ends (ignoring trailing whitespace) with `.`, `!`, `?` or `:`.
pub open spec fn ends_with_punct_spec(s: Seq<char>) -> bool {
    let st = trim_end(s);
    st.len() > 0 && (st.last() == '.' || st.last() == '!' || st.last() == '?' || st.last() == ':')
}

/// Ends (ignoring trailing whitespace) with a closing code fence.
pub open spec fn ends_with_fence(s: Seq<char>) -> bool {
    let st = trim_end(s);
    st.len() >= 3 && st[st.len() - 3] == '`' && st[st.len() - 2] == '`' && st[st.len() - 1] == '`'
}

/// Starts with a code fence.
pub open spec fn starts_with_fence(s: Seq<char>) -> bool {
    s.len() >= 3 && s[0] == '`' && s[1] == '`' && s[2] == '`'
}

/// Add a full stop where terminal punctuation is missing (never after a
/// closing code fence).
pub open spec fn with_stop(s: Seq<char>) -> Seq<char> {
    if ends_with_punct_spec(s) || ends_with_fence(s) {
        s
    } else {
        s.push('.')
    }
}

pub open spec fn indent_of(level: nat) -> Seq<char> {
    Seq::new(2 * level, |_i: int| ' ')
}

/// Blocks as a nested markdown list, `level` deep.
pub open spec fn list_md(cs: Seq<SpecBlock>, level: nat) -> Seq<char>
    decreases cs,
{
    if cs.len() == 0 {
        Seq::empty()
    } else {
        let c = cs.last();
        list_md(cs.drop_last(), level) + indent_of(level) + seq!['-', ' '] + trim(with_stop(block_text(c)))
            + seq!['\n'] + if c.children.len() > 0 {
            list_md(c.children, level + 1)
        } else {
            Seq::empty()
        }
    }
}

/// What separates a sentence `s` from the paragraph `p` so far: a space, or a
/// newline where either side is code or `p` ends a line.
pub open spec fn sentence_sep(p: Seq<char>, s: Seq<char>) -> Seq<char> {
    if (p.len() > 0 && p.last() == '\n') || starts_with_fence(s) || ends_with_fence(p) {
        seq!['\n']
    } else {
        seq![' ']
    }
}

/// The paragraph `p` with blocks appended as sentences, each followed by its
/// descendants; a block with empty text adds only its descendants, and a
/// sentence ending with `:` is followed by its descendants as a nested list.
pub open spec fn with_sentences(p: Seq<char>, cs: Seq<SpecBlock>) -> Seq<char>
    decreases cs,
{
    if cs.len() == 0 {
        p
    } else {
        let q = with_sentences(p, cs.drop_last());
        let c = cs.last();
        let t = block_text(c);
        if t.len() == 0 {
            with_sentences(q, c.children)
        } else {
            let s = trim(with_stop(t));
            let q2 = q + sentence_sep(q, s) + s;
            if s.len() > 0 && s.last() == ':' {
                q2 + seq!['\n'] + list_md(c.children, 0)
            } else {
                with_sentences(q2, c.children)
            }
        }
    }
}

/// A top-level block: a paragraph followed by its descendants as sentences,
/// or, when the paragraph ends with `:`, by its descendants as a nested list.
pub open spec fn top_block_md(b: SpecBlock) -> Seq<char> {
    let para = with_stop(block_text(b));
    let te = trim_end(para);
    if te.len() > 0 && te.last() == ':' {
        te + seq!['\n'] + list_md(b.children, 0)
    } else {
        with_sentences(para, b.children)
    }
}

pub open spec fn lit_par_break() -> Seq<char> {
    seq!['\n', '\n']
}

/// Whether a block placed after `ns` opens a paragraph of its own without a
/// break being added: at the start, or after a blank line.
pub open spec fn after_break(ns: Seq<SpecNode>) -> bool {
    ns.len() == 0 || ns.last() is BlankLine
}

/// The page items as paragraphs: a blank line (or a run of them) is one
/// paragraph break, and consecutive top-level blocks are separated by one.
pub open spec fn items_md(ns: Seq<SpecNode>) -> Seq<char>
    decreases ns.len(),
{
    if ns.len() == 0 {
        Seq::empty()
    } else {
        let acc = items_md(ns.drop_last());
        let has_break = matches_at(acc, lit_par_break(), acc.len() - 2);
        match ns.last() {
            SpecNode::BlankLine { .. } => if has_break {
                acc
            } else {
                acc + lit_par_break()
            },
            SpecNode::Block(b) => (if !after_break(ns.drop_last()) && !has_break {
                acc + lit_par_break()
            } else {
                acc
            }) + top_block_md(b),
        }
    }
}

/// Drop newlines while two of them end the text.
pub open spec fn strip_extra_newlines(s: Seq<char>) -> Seq<char>
    decreases s.len(),
{
    if s.len() >= 2 && matches_at(s, lit_par_break(), s.len() - 2) {
        strip_extra_newlines(s.drop_last())
    } else {
        s
    }
}

/// The blog markdown of a document: trailing newlines trimmed to a single
/// newline.
pub open spec fn blog_markdown(doc: SpecDocument) -> Seq<char> {
    let t = strip_extra_newlines(items_md(doc.items));
    if t.len() > 0 && t.last() == '\n' {
        t
    } else {
        t.push('\n')
    }
}

/// How deeply blocks nest below a sequence of blocks (0 for none).
pub open spec fn tree_depth(cs: Seq<SpecBlock>) -> nat
    decreases cs,
{
    if cs.len() == 0 {
        0
    } else {
        let a = tree_depth(cs.drop_last());
        let b = 1 + tree_depth(cs.last().children);
        if a >= b {
            a
        } else {
            b
        }
    }
}

/// How deeply blocks nest in the page items (a top-level block counts 1).
pub open spec fn nodes_depth(ns: Seq<SpecNode>) -> nat
    decreases ns.len(),
{
    if ns.len() == 0 {
        0
    } else {
        let a = nodes_depth(ns.drop_last());
        let b = match ns.last() {
            SpecNode::Block(x) => 1 + tree_depth(x.children),
            SpecNode::BlankLine { .. } => 0,
        };
        if a >= b {
            a
        } else {
            b
        }
    }
}

proof fn lemma_tree_depth(cs: Seq<SpecBlock>, i: int)
    requires
        0 <= i < cs.len(),
    ensures
        1 + tree_depth(cs[i].children) <= tree_depth(cs),
    decreases cs.len(),
{
    if i < cs.len() - 1 {
        lemma_tree_depth(cs.drop_last(), i);
    }
}

proof fn lemma_nodes_depth(ns: Seq<SpecNode>, i: int)
    requires
        0 <= i < ns.len(),
    ensures
        ns[i] matches SpecNode::Block(x) ==> 1 + tree_depth(x.children) <= nodes_depth(ns),
    decreases ns.len(),
{
    if i < ns.len() - 1 {
        lemma_nodes_depth(ns.drop_last(), i);
    }
}

proof fn lemma_strip_extra_newlines(s: Seq<char>)
    ensures
        !(strip_extra_newlines(s).len() >= 2 && matches_at(
            strip_extra_newlines(s),
            lit_par_break(),
            strip_extra_newlines(s).len() - 2,
        )),
    decreases s.len(),
{
    if s.len() >= 2 && matches_at(s, lit_par_break(), s.len() - 2) {
        lemma_strip_extra_newlines(s.drop_last());
    }
}

/// The output ends with exactly one newline.
pub proof fn law_output_ends_with_one_newline(doc: SpecDocument)
    ensures
        blog_markdown(doc).len() > 0,
        blog_markdown(doc).last() == '\n',
        !(blog_markdown(doc).len() >= 2 && blog_markdown(doc)[blog_markdown(doc).len() - 2] == '\n'),
{
    let t = strip_extra_newlines(items_md(doc.items));
    lemma_strip_extra_newlines(items_md(doc.items));
    let r = blog_markdown(doc);
    if t.len() > 0 && t.last() == '\n' {
        if t.len() >= 2 && t[t.len() - 2] == '\n' {
            assert(t.subrange(t.len() - 2, t.len() as int) =~= lit_par_break());
        }
    } else {
        assert(r == t.push('\n'));
        if r.len() >= 2 {
            assert(r[r.len() - 2] == t.last());
        }
    }
}

/// How each inline node reaches a block's text: a page reference becomes its
/// title, a markdown link is kept (its label as plain text), a code span keeps
/// its backticks, and tags, block references and embeds are dropped; a code
/// block is fenced, verbatim, on lines of its own.
pub proof fn law_inline_conversion(ls: Seq<SpecInline>, x: SpecInline)
    ensures
        !(x is CodeBlock) ==> content_parts(ls.push(x)) == (content_parts(ls).0, content_parts(ls).1
            + prose_piece(x)),
        (x is Tag || x is BlockRef || x is Embed) ==> content_parts(ls.push(x)) == content_parts(ls),
        x matches SpecInline::PageRef { title, .. } ==> prose_piece(x) == title,
        x matches SpecInline::Text { value } ==> prose_piece(x) == value,
        x matches SpecInline::Link { label, url } ==> prose_piece(x) == link_md(plain_inlines(label), url),
        x matches SpecInline::CodeSpan { code } ==> prose_piece(x) == seq!['`'] + code + seq!['`'],
        x matches SpecInline::CodeBlock { info, text } ==> content_text(ls.push(x)) == content_text(ls)
            + fence_sep(content_text(ls)) + fenced(info, text),
{
    assert(ls.push(x).drop_last() =~= ls);
    let (d, r) = content_parts(ls);
    assert(r + Seq::<char>::empty() =~= r);
    if let SpecInline::CodeBlock { info, text } = x {
        assert(collapse_blank(Seq::<char>::empty()) =~= Seq::<char>::empty());
        assert(seq!['\n'] + Seq::<char>::empty() =~= seq!['\n']);
        assert(seq!['\n'].subrange(1, 1) =~= Seq::<char>::empty());
        assert(collapse_blank(seq!['\n']) =~= seq!['\n']);
        let s = d + prose_tail(d, r);
        let d2 = s + fence_sep(s) + fenced(info, text);
        assert(d2.len() > 0);
        assert(prose_tail(d2, Seq::empty()) =~= Seq::<char>::empty());
        assert(content_text(ls.push(x)) =~= s + fence_sep(s) + fenced(info, text));
    }
}

/// Only a block's content reaches its text (what `render_block_text` returns):
/// markers, properties, id, line and children do not.
pub proof fn law_only_content_is_rendered(b1: SpecBlock, b2: SpecBlock)
    requires
        b1.content == b2.content,
    ensures
        block_text(b1) == block_text(b2),
{
}

/// Every paragraph, sentence and list item ends with terminal punctuation or
/// a closing code fence: the full stop is added exactly where both are missing.
pub proof fn law_full_stop_where_missing(s: Seq<char>)
    ensures
        ends_with_punct_spec(with_stop(s)) || ends_with_fence(with_stop(s)),
        (ends_with_punct_spec(s) || ends_with_fence(s)) ==> with_stop(s) == s,
        !(ends_with_punct_spec(s) || ends_with_fence(s)) ==> with_stop(s) == s.push('.'),
{
    if !(ends_with_punct_spec(s) || ends_with_fence(s)) {
        let t = s.push('.');
        assert(t.len() > 0 && !crate::text::is_ws(t.last()));
        assert(trim_end(t) == t);
    }
}

/// The full stop, character by character: text whose last non-whitespace
/// character is `.`, `!`, `?` or `:`, or whose last three are the backticks
/// of a closing code fence, is kept; any other text (one ending with a code
/// span's single backtick included) gets `.` appended.
pub proof fn law_full_stop_rule(s: Seq<char>)
    ensures
        ({
            let st = trim_end(s);
            let n = st.len();
            let kept = (n > 0 && (st[n - 1] == '.' || st[n - 1] == '!' || st[n - 1] == '?' || st[n - 1] == ':'))
                || (n >= 3 && st[n - 3] == '`' && st[n - 2] == '`' && st[n - 1] == '`');
            &&& kept ==> with_stop(s) == s
            &&& !kept ==> with_stop(s) == s.push('.')
        }),
{
    let st = trim_end(s);
    if st.len() > 0 {
        assert(st.last() == st[st.len() - 1]);
    }
}

/// How a sentence joins the paragraph so far: on a new line exactly when the
/// paragraph ends a line, the sentence opens with a code fence, or the
/// paragraph (trailing whitespace aside) ends with a closing code fence;
/// otherwise after a space.
pub proof fn law_sentence_separator(p: Seq<char>, s: Seq<char>)
    ensures
        ({
            let pt = trim_end(p);
            let n = pt.len();
            let newline = (p.len() > 0 && p[p.len() - 1] == '\n') || (s.len() >= 3 && s[0] == '`' && s[1] == '`'
                && s[2] == '`') || (n >= 3 && pt[n - 3] == '`' && pt[n - 2] == '`' && pt[n - 1] == '`');
            sentence_sep(p, s) == if newline {
                seq!['\n']
            } else {
                seq![' ']
            }
        }),
{
    if p.len() > 0 {
        assert(p.last() == p[p.len() - 1]);
    }
}

/// A run of blank lines is one paragraph break: a second blank line adds
/// nothing.
pub proof fn law_blank_line_run(ns: Seq<SpecNode>, l1: nat, l2: nat)
    ensures
        items_md(ns.push(SpecNode::BlankLine { line: l1 }).push(SpecNode::BlankLine { line: l2 }))
            == items_md(ns.push(SpecNode::BlankLine { line: l1 })),
{
    let n1 = ns.push(SpecNode::BlankLine { line: l1 });
    let n2 = n1.push(SpecNode::BlankLine { line: l2 });
    assert(n2.drop_last() =~= n1);
    assert(n1.drop_last() =~= ns);
    let acc = items_md(ns);
    let a1 = items_md(n1);
    if !matches_at(acc, lit_par_break(), acc.len() - 2) {
        assert(a1 == acc + lit_par_break());
        assert(a1.subrange(a1.len() - 2, a1.len() as int) =~= lit_par_break());
    }
}

/// Blank lines between two top-level blocks render as the same single
/// paragraph break that separates consecutive blocks.
pub proof fn law_blank_line_between_blocks(ns: Seq<SpecNode>, a: SpecBlock, l: nat, b: SpecBlock)
    ensures
        items_md(ns.push(SpecNode::Block(a)).push(SpecNode::BlankLine { line: l }).push(SpecNode::Block(b)))
            == items_md(ns.push(SpecNode::Block(a)).push(SpecNode::Block(b))),
{
    let n1 = ns.push(SpecNode::Block(a));
    let w = n1.push(SpecNode::BlankLine { line: l });
    let with_blank = w.push(SpecNode::Block(b));
    let without = n1.push(SpecNode::Block(b));
    assert(with_blank.drop_last() =~= w);
    assert(w.drop_last() =~= n1);
    assert(without.drop_last() =~= n1);
    let a1 = items_md(n1);
    let aw = items_md(w);
    assert(n1.last() == SpecNode::Block(a));
    assert(!after_break(n1));
    assert(after_break(w));
    if !matches_at(a1, lit_par_break(), a1.len() - 2) {
        assert(aw == a1 + lit_par_break());
        assert(aw.subrange(aw.len() - 2, aw.len() as int) =~= lit_par_break());
        assert(items_md(with_blank) == aw + top_block_md(b));
        assert(items_md(without) == a1 + lit_par_break() + top_block_md(b));
    } else {
        assert(aw == a1);
        assert(items_md(with_blank) == aw + top_block_md(b));
        assert(items_md(without) == a1 + top_block_md(b));
    }
}

// ---------------------------------------------------------------------------
// Rendering
// ---------------------------------------------------------------------------

fn string_chars(s: &String) -> (r: Vec<char>)
    ensures
        r@ == s@,
{
    chars_of(s.as_str())
}

/// Appends a markdown link with an already rendered label.
fn push_link(out: &mut Vec<char>, label: &[char], url: &String)
    ensures
        final(out)@ == old(out)@ + link_md(label@, url@),
{
    let ghost start = out@;
    out.push('[');
    let tl = trim_of(label);
    push_all(out, &tl);
    out.push(']');
    out.push('(');
    push_all(out, &string_chars(url));
    out.push(')');
    assert(out@ =~= start + link_md(label@, url@));
}

fn push_code_span(out: &mut Vec<char>, code: &String)
    ensures
        final(out)@ == old(out)@ + (seq!['`'] + code@ + seq!['`']),
{
    let ghost start = out@;
    out.push('`');
    push_all(out, &string_chars(code));
    out.push('`');
    assert(out@ =~= start + (seq!['`'] + code@ + seq!['`']));
}

/// Render inline nodes as plain text (used for link labels).
fn render_inlines(inls: &Vec<Inline>) -> (r: Vec<char>)
    ensures
        r@ == plain_inlines(inlines_view(inls@)),
    decreases inls,
{
    let ghost v = inlines_view(inls@);
    let mut s: Vec<char> = Vec::new();
    let mut i: usize = 0;
    assert(v.take(0) =~= Seq::<SpecInline>::empty());
    while i < inls.len()
        invariant
            i <= inls@.len(),
            v == inlines_view(inls@),
            s@ == plain_inlines(v.take(i as int)),
        decreases inls@.len() - i,
    {
        proof {
            assert(v.take(i + 1).drop_last() =~= v.take(i as int));
            assert(v.take(i + 1).last() == inline_view(inls@[i as int]));
        }
        match &inls[i] {
            Inline::Text { value } => {
                push_all(&mut s, &string_chars(value));
            },
            Inline::CodeSpan { code } => {
                push_code_span(&mut s, code);
            },
            Inline::Link { label, url } => {
                proof {
                    assert(decreases_to!(inls => inls@));
                    assert(decreases_to!(inls@ => inls@[i as int]));
                }
                let rendered = render_inlines(label);
                push_link(&mut s, &rendered, url);
            },
            Inline::PageRef { title, .. } => {
                push_all(&mut s, &string_chars(title));
            },
            _ => {},
        }
        i = i + 1;
    }
    assert(v.take(inls@.len() as int) =~= v);
    s
}

/// `str::replace("\n\n", "\n")`.
fn collapse_blank_lines(s: &[char]) -> (r: Vec<char>)
    ensures
        r@ == collapse_blank(s@),
{
    let mut out: Vec<char> = Vec::new();
    let mut i: usize = 0;
    assert(s@.subrange(0, s@.len() as int) =~= s@);
    while i < s.len()
        invariant
            i <= s@.len(),
            collapse_blank(s@) == out@ + collapse_blank(s@.subrange(i as int, s@.len() as int)),
        decreases s@.len() - i,
    {
        let ghost rest = s@.subrange(i as int, s@.len() as int);
        if i + 1 < s.len() && s[i] == '\n' && s[i + 1] == '\n' {
            out.push('\n');
            proof {
                assert(rest.subrange(2, rest.len() as int) =~= s@.subrange(i + 2, s@.len() as int));
            }
            i = i + 2;
        } else {
            out.push(s[i]);
            proof {
                assert(rest.subrange(1, rest.len() as int) =~= s@.subrange(i + 1, s@.len() as int));
            }
            i = i + 1;
        }
    }
    assert(s@.subrange(i as int, s@.len() as int) =~= Seq::<char>::empty());
    out
}

/// Prose with its blank lines collapsed, the newline that ends a preceding
/// code block taking part.
fn collapse_prose(done: &Vec<char>, run: &Vec<char>) -> (r: Vec<char>)
    ensures
        r@ == prose_tail(done@, run@),
{
    if done.len() > 0 {
        let mut v: Vec<char> = Vec::new();
        v.push('\n');
        push_all(&mut v, run);
        assert(v@ =~= seq!['\n'] + run@);
        let c = collapse_blank_lines(&v);
        let n = c.len();
        let r = slice_of(&c, 1, n);
        assert(r@ =~= c@.drop_first());
        r
    } else {
        collapse_blank_lines(run)
    }
}

fn ends_with_punct(s: &[char]) -> (r: bool)
    ensures
        r == ends_with_punct_spec(s@),
{
    let k = crate::text::trim_end_index(s);
    if k == 0 {
        return false;
    }
    let c = s[k - 1];
    assert(s@.take(k as int).last() == s@[k - 1]);
    c == '.' || c == '!' || c == '?' || c == ':'
}

fn ends_with_fence_exec(s: &[char]) -> (r: bool)
    ensures
        r == ends_with_fence(s@),
{
    let k = crate::text::trim_end_index(s);
    proof {
        let st = s@.take(k as int);
        if k >= 3 {
            assert(st[k - 3] == s@[k - 3] && st[k - 2] == s@[k - 2] && st[k - 1] == s@[k - 1]);
        }
    }
    k >= 3 && s[k - 3] == '`' && s[k - 2] == '`' && s[k - 1] == '`'
}

/// Appends a fenced code block, starting a new line when needed.
fn push_code_block(out: &mut Vec<char>, info: &Option<String>, text: &String)
    ensures
        final(out)@ == old(out)@ + fence_sep(old(out)@) + fenced(crate::ast::opt_str_view(*info), text@),
{
    let n = out.len();
    if n > 0 && out[n - 1] != '\n' {
        out.push('\n');
    }
    let ghost mid = out@;
    out.push('`');
    out.push('`');
    out.push('`');
    match info {
        Some(lang) => push_all(out, &string_chars(lang)),
        None => {},
    }
    out.push('\n');
    push_all(out, &string_chars(text));
    out.push('\n');
    out.push('`');
    out.push('`');
    out.push('`');
    out.push('\n');
    proof {
        assert(out@ =~= mid + fenced(crate::ast::opt_str_view(*info), text@));
    }
}

/// The text of one block: its content rendered (blank lines collapsed in the
/// prose, code kept verbatim), trimmed.
fn render_block_text(b: &Block) -> (r: Vec<char>)
    ensures
        r@ == block_text(block_view(*b)),
{
    let ghost v = inlines_view(b.content@);
    let mut done: Vec<char> = Vec::new();
    let mut run: Vec<char> = Vec::new();
    let mut i: usize = 0;
    assert(v.take(0) =~= Seq::<SpecInline>::empty());
    while i < b.content.len()
        invariant
            i <= b.content@.len(),
            v == inlines_view(b.content@),
            (done@, run@) == content_parts(v.take(i as int)),
        decreases b.content@.len() - i,
    {
        proof {
            assert(v.take(i + 1).drop_last() =~= v.take(i as int));
            assert(v.take(i + 1).last() == inline_view(b.content@[i as int]));
        }
        let ghost before = run@;
        match &b.content[i] {
            Inline::Text { value } => {
                push_all(&mut run, &string_chars(value));
            },
            Inline::CodeSpan { code } => {
                push_code_span(&mut run, code);
            },
            Inline::Link { label, url } => {
                let rendered = render_inlines(label);
                push_link(&mut run, &rendered, url);
            },
            Inline::PageRef { title, .. } => {
                push_all(&mut run, &string_chars(title));
            },
            Inline::CodeBlock { info, text } => {
                let collapsed = collapse_prose(&done, &run);
                push_all(&mut done, &collapsed);
                run = Vec::new();
                push_code_block(&mut done, info, text);
            },
            _ => {
                assert(run@ =~= before + Seq::<char>::empty());
            },
        }
        i = i + 1;
    }
    assert(v.take(b.content@.len() as int) =~= v);
    let collapsed = collapse_prose(&done, &run);
    push_all(&mut done, &collapsed);
    trim_of(&done)
}

/// The block text with a full stop added where punctuation (or a closing
/// code fence) is missing.
fn stopped_text(b: &Block) -> (r: Vec<char>)
    ensures
        r@ == with_stop(block_text(block_view(*b))),
{
    let mut text = render_block_text(b);
    if !ends_with_punct(&text) && !ends_with_fence_exec(&text) {
        text.push('.');
    }
    text
}

/// Blocks as a nested markdown list at `indent_level`.
fn render_children_as_list(children: &Vec<Block>, indent_level: usize) -> (r: Vec<char>)
    requires
        indent_level + tree_depth(blocks_view(children@)) <= isize::MAX,
    ensures
        r@ == list_md(blocks_view(children@), indent_level as nat),
    decreases children,
{
    let ghost cs = blocks_view(children@);
    let mut out: Vec<char> = Vec::new();
    let mut i: usize = 0;
    assert(cs.take(0) =~= Seq::<SpecBlock>::empty());
    while i < children.len()
        invariant
            i <= children@.len(),
            cs == blocks_view(children@),
            indent_level + tree_depth(cs) <= isize::MAX,
            out@ == list_md(cs.take(i as int), indent_level as nat),
        decreases children@.len() - i,
    {
        let child = &children[i];
        proof {
            assert(cs.take(i + 1).drop_last() =~= cs.take(i as int));
            assert(cs.take(i + 1).last() == block_view(*child));
            assert(block_view(*child).children == blocks_view(child.children@));
            lemma_tree_depth(cs, i as int);
        }
        let ghost before = out@;
        let text = stopped_text(child);
        let mut k: usize = 0;
        while k < indent_level
            invariant
                k <= indent_level <= isize::MAX,
                out@ == before + indent_of(k as nat),
            decreases indent_level - k,
        {
            out.push(' ');
            out.push(' ');
            k = k + 1;
            assert(out@ =~= before + indent_of(k as nat));
        }
        out.push('-');
        out.push(' ');
        let tt = trim_of(&text);
        push_all(&mut out, &tt);
        out.push('\n');
        if !child.children.is_empty() {
            proof {
                assert(decreases_to!(children => children@));
                assert(decreases_to!(children@ => children@[i as int]));
            }
            let nested = render_children_as_list(&child.children, indent_level + 1);
            push_all(&mut out, &nested);
        }
        proof {
            assert(indent_of(indent_level as nat) =~= indent_of(k as nat));
            let c = cs[i as int];
            let tail = if c.children.len() > 0 {
                list_md(c.children, indent_level as nat + 1)
            } else {
                Seq::<char>::empty()
            };
            assert(out@ =~= before + indent_of(indent_level as nat) + seq!['-', ' '] + trim(
                with_stop(block_text(c)),
            ) + seq!['\n'] + tail);
        }
        i = i + 1;
    }
    assert(cs.take(children@.len() as int) =~= cs);
    out
}

/// Appends the descendants of `b` to a paragraph as sentences; a sentence
/// ending with `:` is followed by its own descendants as a nested list.
fn append_descendants_as_sentences(b: &Block, para: &mut Vec<char>)
    requires
        tree_depth(blocks_view(b.children@)) <= isize::MAX,
    ensures
        final(para)@ == with_sentences(old(para)@, blocks_view(b.children@)),
    decreases b,
{
    let ghost cs = blocks_view(b.children@);
    let ghost start = para@;
    let mut i: usize = 0;
    assert(cs.take(0) =~= Seq::<SpecBlock>::empty());
    while i < b.children.len()
        invariant
            i <= b.children@.len(),
            cs == blocks_view(b.children@),
            tree_depth(cs) <= isize::MAX,
            para@ == with_sentences(start, cs.take(i as int)),
        decreases b.children@.len() - i,
    {
        let child = &b.children[i];
        proof {
            assert(cs.take(i + 1).drop_last() =~= cs.take(i as int));
            assert(cs.take(i + 1).last() == block_view(*child));
            assert(block_view(*child).children == blocks_view(child.children@));
            lemma_tree_depth(cs, i as int);
            assert(decreases_to!(b => b.children));
            assert(decreases_to!(b.children => b.children@));
            assert(decreases_to!(b.children@ => b.children@[i as int]));
        }
        let ghost c = cs[i as int];
        let ghost q = para@;
        let text = render_block_text(child);
        if text.is_empty() {
            append_descendants_as_sentences(child, para);
        } else {
            let stopped = stopped_text(child);
            let s = trim_of(&stopped);
            let n = para.len();
            if (n > 0 && para[n - 1] == '\n') || starts_with_fence_exec(&s) || ends_with_fence_exec(para) {
                para.push('\n');
                assert(para@ =~= q + sentence_sep(q, s@));
            } else {
                para.push(' ');
                assert(para@ =~= q + sentence_sep(q, s@));
            }
            push_all(para, &s);
            let ghost q2 = para@;
            assert(q2 == q + sentence_sep(q, s@) + s@);
            let m = s.len();
            if m > 0 && s[m - 1] == ':' {
                para.push('\n');
                let list = render_children_as_list(&child.children, 0);
                push_all(para, &list);
                assert(para@ =~= q2 + seq!['\n'] + list_md(c.children, 0));
            } else {
                append_descendants_as_sentences(child, para);
            }
        }
        i = i + 1;
    }
    assert(cs.take(b.children@.len() as int) =~= cs);
}

fn starts_with_fence_exec(s: &[char]) -> (r: bool)
    ensures
        r == starts_with_fence(s@),
{
    s.len() >= 3 && s[0] == '`' && s[1] == '`' && s[2] == '`'
}

/// A top-level block: a paragraph with its descendants as sentences, or a
/// nested list when the paragraph ends with `:`.
fn render_top_level_block(b: &Block) -> (r: Vec<char>)
    requires
        tree_depth(blocks_view(b.children@)) <= isize::MAX,
    ensures
        r@ == top_block_md(block_view(*b)),
{
    let mut para = stopped_text(b);
    let te = trim_end_of(&para);
    if te.len() > 0 && te[te.len() - 1] == ':' {
        let mut out: Vec<char> = Vec::new();
        push_all(&mut out, &te);
        out.push('\n');
        let list = render_children_as_list(&b.children, 0);
        push_all(&mut out, &list);
        return out;
    }
    append_descendants_as_sentences(b, &mut para);
    para
}

fn blocks_nesting_within(blocks: &Vec<Block>, limit: usize) -> (r: bool)
    ensures
        r == (tree_depth(blocks_view(blocks@)) <= limit),
    decreases blocks,
{
    let ghost cs = blocks_view(blocks@);
    let mut i: usize = 0;
    assert(cs.take(0) =~= Seq::<SpecBlock>::empty());
    while i < blocks.len()
        invariant
            i <= blocks@.len(),
            cs == blocks_view(blocks@),
            tree_depth(cs.take(i as int)) <= limit,
        decreases blocks@.len() - i,
    {
        let b = &blocks[i];
        proof {
            assert(cs.take(i + 1).drop_last() =~= cs.take(i as int));
            assert(cs.take(i + 1).last() == block_view(*b));
            assert(block_view(*b).children == blocks_view(b.children@));
            lemma_tree_depth(cs, i as int);
        }
        if limit == 0 {
            return false;
        }
        if !blocks_nesting_within(&b.children, limit - 1) {
            return false;
        }
        i = i + 1;
    }
    assert(cs.take(blocks@.len() as int) =~= cs);
    true
}

/// Whether blocks nest at most `limit` levels deep in the page items: the
/// condition under which `render_blog_markdown` may be called.
pub fn nesting_within(items: &Vec<Node>, limit: usize) -> (r: bool)
    ensures
        r == (nodes_depth(nodes_view(items@)) <= limit),
{
    let ghost ns = nodes_view(items@);
    let mut i: usize = 0;
    assert(ns.take(0) =~= Seq::<SpecNode>::empty());
    while i < items.len()
        invariant
            i <= items@.len(),
            ns == nodes_view(items@),
            nodes_depth(ns.take(i as int)) <= limit,
        decreases items@.len() - i,
    {
        proof {
            assert(ns.take(i + 1).drop_last() =~= ns.take(i as int));
            assert(ns.take(i + 1).last() == node_view(items@[i as int]));
            lemma_nodes_depth(ns, i as int);
        }
        match &items[i] {
            Node::Block(b) => {
                assert(block_view(*b).children == blocks_view(b.children@));
                if limit == 0 {
                    return false;
                }
                if !blocks_nesting_within(&b.children, limit - 1) {
                    return false;
                }
            },
            Node::BlankLine { .. } => {},
        }
        i = i + 1;
    }
    assert(ns.take(items@.len() as int) =~= ns);
    true
}

/// Render a blog-style Markdown document from a Logseq AST.
///
/// Top-level blocks become paragraphs; nested blocks become sentences appended
/// to their paragraph, each given a full stop where it lacks terminal
/// punctuation (`.`, `!`, `?`, `:`) and does not end a code fence; a block
/// ending with `:` keeps its descendants as a nested markdown list. A run of
/// blank lines is one paragraph break. Page references become plain text;
/// tags, embeds and block references are dropped; markers and properties are
/// not rendered; code blocks are fenced, verbatim; no frontmatter. The output
/// ends with a single newline.
pub fn render_blog_markdown(doc: &Document) -> (r: String)
    requires
        nodes_depth(nodes_view(doc.items@)) <= isize::MAX,
    ensures
        r@ == blog_markdown(doc@),
{
    let ghost ns = nodes_view(doc.items@);
    let par_break = vec!['\n', '\n'];
    assert(par_break@ =~= lit_par_break());
    let mut out: Vec<char> = Vec::new();
    let mut first = true;
    let mut i: usize = 0;
    assert(ns.take(0) =~= Seq::<SpecNode>::empty());
    while i < doc.items.len()
        invariant
            i <= doc.items@.len(),
            ns == nodes_view(doc.items@),
            par_break@ == lit_par_break(),
            nodes_depth(ns) <= isize::MAX,
            first == after_break(ns.take(i as int)),
            out@ == items_md(ns.take(i as int)),
        decreases doc.items@.len() - i,
    {
        proof {
            assert(ns.take(i + 1).drop_last() =~= ns.take(i as int));
            assert(ns.take(i + 1).last() == node_view(doc.items@[i as int]));
            lemma_nodes_depth(ns, i as int);
        }
        let ghost acc = out@;
        let has_break = ends_with_exec(&out, &par_break);
        match &doc.items[i] {
            Node::BlankLine { .. } => {
                if !has_break {
                    out.push('\n');
                    out.push('\n');
                    assert(out@ =~= acc + lit_par_break());
                }
                first = true;
            },
            Node::Block(b) => {
                assert(block_view(*b).children == blocks_view(b.children@));
                if !first && !has_break {
                    out.push('\n');
                    out.push('\n');
                    assert(out@ =~= acc + lit_par_break());
                }
                let top = render_top_level_block(b);
                push_all(&mut out, &top);
                first = false;
            },
        }
        i = i + 1;
    }
    assert(ns.take(doc.items@.len() as int) =~= ns);
    while ends_with_exec(&out, &par_break)
        invariant
            par_break@ == lit_par_break(),
            strip_extra_newlines(items_md(ns)) == strip_extra_newlines(out@),
        decreases out@.len(),
    {
        out.pop();
    }
    let n = out.len();
    if n == 0 || out[n - 1] != '\n' {
        out.push('\n');
    }
    string_from_chars(&out)
}

} // verus!
