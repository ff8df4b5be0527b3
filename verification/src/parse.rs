use crate::ast::{
    block_view, blocks_view, empty_spec_block, inlines_view, node_view, nodes_view, properties_view,
    Block, Document, Inline, Marker, Node, Property, SpecBlock, SpecDocument, SpecInline, SpecNode,
    SpecProperty,
};
use crate::text::{
    chars_of, is_blank, push_all, string_from_chars,
    all_ws, find_exec, find_from, lemma_find_from, matches_at, slice_of, starts_with_exec, trim,
    trim_of, trim_start, trim_start_of,
};
use crate::property_value::{parse_property_value, property_value};
use crate::tokenize::{tokenize, tokenize_chars};
use vstd::prelude::*;

verus! {

/// Why a page could not be parsed.
#[derive(Debug, Clone, Copy, PartialEq, Eq, Structural)]
pub enum ParseError {
    /// The input holds nothing but whitespace.
    Empty,
    /// A code fence opened at `line` (1-indexed) is never closed.
    UnclosedCodeFence { line: usize },
}

// ---------------------------------------------------------------------------
// Lines
// ---------------------------------------------------------------------------

/// Drop one trailing carriage return.
pub open spec fn strip_cr(l: Seq<char>) -> Seq<char> {
    if l.len() > 0 && l.last() == '\r' {
        l.drop_last()
    } else {
        l
    }
}

/// `str::lines` from position `k`: split at `\n`, drop a `\r` before it; the
/// final line ending is optional.
pub open spec fn lines_from(s: Seq<char>, k: int) -> Seq<Seq<char>>
    decreases s.len() - k,
{
    if k < 0 || k >= s.len() {
        Seq::empty()
    } else {
        match find_from(s, seq!['\n'], k) {
            Some(j) => {
                proof {
                    lemma_find_from(s, seq!['\n'], k);
                }
                seq![strip_cr(s.subrange(k, j))] + lines_from(s, j + 1)
            },
            None => seq![s.subrange(k, s.len() as int)],
        }
    }
}

pub open spec fn lines_of(s: Seq<char>) -> Seq<Seq<char>> {
    lines_from(s, 0)
}

/// Lines joined with `\n` (`[&str]::join("\n")`).
pub open spec fn join_lines(ls: Seq<Seq<char>>) -> Seq<char>
    decreases ls.len(),
{
    if ls.len() == 0 {
        Seq::empty()
    } else if ls.len() == 1 {
        ls[0]
    } else {
        join_lines(ls.drop_last()) + seq!['\n'] + ls.last()
    }
}

// ---------------------------------------------------------------------------
// Line-level grammar
// ---------------------------------------------------------------------------

/// The run of spaces and tabs from `i`: where it ends, and the indentation it
/// amounts to (a space counts 1, a tab 2), starting from `sp`.
pub open spec fn indent_scan(l: Seq<char>, i: int, sp: int) -> (int, int)
    decreases l.len() - i,
{
    if 0 <= i < l.len() && (l[i] == ' ' || l[i] == '\t') {
        indent_scan(l, i + 1, sp + if l[i] == ' ' { 1int } else { 2int })
    } else {
        (i, sp)
    }
}

/// The indentation of a line (a space counts 1, a tab 2) and the line without
/// its leading spaces and tabs, then left-trimmed.
pub open spec fn split_indent_of(l: Seq<char>) -> (int, Seq<char>) {
    let (k, sp) = indent_scan(l, 0, 0);
    (sp, trim_start(l.subrange(k, l.len() as int)))
}

pub open spec fn lit_fence() -> Seq<char> {
    seq!['`', '`', '`']
}

/// ```` ```info ````: the trimmed info string, `None` when it is empty.
pub open spec fn fence_open_of(s: Seq<char>) -> Option<Option<Seq<char>>> {
    let st = trim_start(s);
    if matches_at(st, lit_fence(), 0) {
        let info = trim(st.subrange(3, st.len() as int));
        if info.len() == 0 {
            Some(None)
        } else {
            Some(Some(info))
        }
    } else {
        None
    }
}

pub open spec fn is_fence_close(s: Seq<char>) -> bool {
    matches_at(trim_start(s), lit_fence(), 0)
}

/// `key:: value`: both trimmed; the key must be non-empty and free of spaces.
pub open spec fn property_line_of(s: Seq<char>) -> Option<(Seq<char>, Seq<char>)> {
    let st = trim(s);
    match find_from(st, seq![':', ':'], 0) {
        None => None,
        Some(k) => {
            let key = trim(st.subrange(0, k));
            let val = trim(st.subrange(k + 2, st.len() as int));
            if key.len() == 0 || key.contains(' ') {
                None
            } else {
                Some((key, val))
            }
        },
    }
}

/// Remove a `- ` or `* ` bullet (after left-trimming).
pub open spec fn strip_bullet_of(s: Seq<char>) -> Seq<char> {
    let st = trim_start(s);
    if matches_at(st, seq!['-', ' '], 0) || matches_at(st, seq!['*', ' '], 0) {
        st.subrange(2, st.len() as int)
    } else {
        st
    }
}

pub open spec fn marker_prefix(m: Marker) -> Seq<char> {
    match m {
        Marker::Todo => seq!['T', 'O', 'D', 'O', ' '],
        Marker::Doing => seq!['D', 'O', 'I', 'N', 'G', ' '],
        Marker::Done => seq!['D', 'O', 'N', 'E', ' '],
        Marker::Later => seq!['L', 'A', 'T', 'E', 'R', ' '],
        Marker::Now => seq!['N', 'O', 'W', ' '],
    }
}

/// A task marker at the start of the block text (after the bullet), and the
/// text that follows it.
pub open spec fn marker_of(s: Seq<char>) -> (Option<Marker>, Seq<char>) {
    let st = trim_start(strip_bullet_of(s));
    if matches_at(st, marker_prefix(Marker::Todo), 0) {
        (Some(Marker::Todo), st.subrange(5, st.len() as int))
    } else if matches_at(st, marker_prefix(Marker::Doing), 0) {
        (Some(Marker::Doing), st.subrange(6, st.len() as int))
    } else if matches_at(st, marker_prefix(Marker::Done), 0) {
        (Some(Marker::Done), st.subrange(5, st.len() as int))
    } else if matches_at(st, marker_prefix(Marker::Later), 0) {
        (Some(Marker::Later), st.subrange(6, st.len() as int))
    } else if matches_at(st, marker_prefix(Marker::Now), 0) {
        (Some(Marker::Now), st.subrange(4, st.len() as int))
    } else {
        (None, st)
    }
}

// ---------------------------------------------------------------------------
// The page: a flat list of (indentation level, block) entries
// ---------------------------------------------------------------------------

pub enum FenceEnd {
    /// The closing fence is at this line index.
    At(int),
    /// The input ends first.
    Unclosed,
}

/// Where the code fence whose body starts at line index `k` closes.
pub open spec fn fence_end(lines: Seq<Seq<char>>, k: int) -> FenceEnd
    decreases lines.len() - k,
{
    if k < 0 || k >= lines.len() {
        FenceEnd::Unclosed
    } else {
        if is_fence_close(split_indent_of(lines[k]).1) {
            FenceEnd::At(k)
        } else {
            fence_end(lines, k + 1)
        }
    }
}

pub open spec fn lit_id() -> Seq<char> {
    seq!['i', 'd']
}

/// A property line (its value also parsed into inline nodes): attached to the
/// latest block, or opening an implicit block when there is none yet. `id::`
/// also sets the block's id (once).
pub open spec fn add_property(
    es: Seq<(nat, SpecBlock)>,
    level: nat,
    key: Seq<char>,
    val: Seq<char>,
    line: nat,
) -> Seq<(nat, SpecBlock)> {
    let prop = SpecProperty { key, value: val, inlines: property_value(val), line };
    if es.len() == 0 {
        seq![(level, SpecBlock {
            id: if key == lit_id() { Some(val) } else { None },
            properties: seq![prop],
            ..empty_spec_block(line)
        })]
    } else {
        let (lv, b) = es.last();
        es.drop_last().push((lv, SpecBlock {
            id: if key == lit_id() && b.id is None { Some(val) } else { b.id },
            properties: b.properties.push(prop),
            ..b
        }))
    }
}

pub enum ScanOutcome {
    Done(Seq<(nat, SpecBlock)>),
    Unclosed(nat),
}

/// Read the lines from index `idx` on, extending the entries `es`.
pub open spec fn scan(lines: Seq<Seq<char>>, idx: int, es: Seq<(nat, SpecBlock)>) -> ScanOutcome
    decreases lines.len() - idx,
{
    if idx < 0 || idx >= lines.len() {
        ScanOutcome::Done(es)
    } else if all_ws(lines[idx]) {
        scan(lines, idx + 1, es)
    } else {
        let line_no = (idx + 1) as nat;
        let (sp, trimmed) = split_indent_of(lines[idx]);
        let level = (sp / 2) as nat;
        match fence_open_of(trimmed) {
            Some(info) => match fence_end(lines, idx + 1) {
                FenceEnd::Unclosed => ScanOutcome::Unclosed(line_no),
                FenceEnd::At(k) => {
                    proof {
                        lemma_fence_end_range(lines, idx + 1);
                    }
                    let text = join_lines(lines.subrange(idx + 1, k));
                    let b = SpecBlock {
                        content: seq![SpecInline::CodeBlock { info, text }],
                        ..empty_spec_block(line_no)
                    };
                    scan(lines, k + 1, es.push((level, b)))
                },
            },
            None => match property_line_of(trimmed) {
                Some((key, val)) => scan(lines, idx + 1, add_property(es, level, key, val, line_no)),
                None => {
                    let (m, c) = marker_of(trimmed);
                    let b = SpecBlock {
                        marker: m,
                        content: tokenize(c),
                        ..empty_spec_block(line_no)
                    };
                    scan(lines, idx + 1, es.push((level, b)))
                },
            },
        }
    }
}

/// A fence that closes does so at a line from `k` on.
pub proof fn lemma_fence_end_range(lines: Seq<Seq<char>>, k: int)
    ensures
        fence_end(lines, k) matches FenceEnd::At(j) ==> k <= j < lines.len() && 0 <= j,
    decreases lines.len() - k,
{
    if 0 <= k < lines.len() && !is_fence_close(split_indent_of(lines[k]).1) {
        lemma_fence_end_range(lines, k + 1);
    }
}

// ---------------------------------------------------------------------------
// The block tree
// ---------------------------------------------------------------------------

/// The indentation levels of the entries.
pub open spec fn levels_of(es: Seq<(nat, SpecBlock)>) -> Seq<nat> {
    es.map_values(|e: (nat, SpecBlock)| e.0)
}

/// The closest entry before `i`, searching down from `j`, that is indented
/// less than entry `i`.
pub open spec fn nearest_shallower(lv: Seq<nat>, i: int, j: int) -> Option<int>
    decreases j + 1,
{
    if j < 0 {
        None
    } else if lv[j] < lv[i] {
        Some(j)
    } else {
        nearest_shallower(lv, i, j - 1)
    }
}

/// The parent of entry `i`: the latest earlier entry with a smaller level.
pub open spec fn parent_of(lv: Seq<nat>, i: int) -> Option<int> {
    nearest_shallower(lv, i, i - 1)
}

/// The entries from index `k` on whose parent is `p`, each with its own
/// children, in order.
pub open spec fn children_from(es: Seq<(nat, SpecBlock)>, p: Option<int>, k: int) -> Seq<SpecBlock>
    decreases es.len() - k,
{
    if k < 0 || k >= es.len() {
        Seq::empty()
    } else if parent_of(levels_of(es), k) == p {
        seq![SpecBlock { children: children_from(es, Some(k), k + 1), ..es[k].1 }]
            + children_from(es, p, k + 1)
    } else {
        children_from(es, p, k + 1)
    }
}

/// The top-level blocks, each holding its subtree.
pub open spec fn tree_of(es: Seq<(nat, SpecBlock)>) -> Seq<SpecBlock> {
    children_from(es, None, 0)
}

/// The blank lines (numbered from 1) that reading the page from line index
/// `idx` on meets; lines inside a code fence are code, not blank lines.
pub open spec fn blanks_from(lines: Seq<Seq<char>>, idx: int) -> Seq<nat>
    decreases lines.len() - idx,
{
    if idx < 0 || idx >= lines.len() {
        Seq::empty()
    } else if all_ws(lines[idx]) {
        seq![(idx + 1) as nat] + blanks_from(lines, idx + 1)
    } else {
        match fence_open_of(split_indent_of(lines[idx]).1) {
            Some(_) => match fence_end(lines, idx + 1) {
                FenceEnd::Unclosed => Seq::empty(),
                FenceEnd::At(k) => {
                    proof {
                        lemma_fence_end_range(lines, idx + 1);
                    }
                    blanks_from(lines, k + 1)
                },
            },
            None => blanks_from(lines, idx + 1),
        }
    }
}

/// Top-level blocks and blank lines interleaved by line number.
pub open spec fn merge_nodes(bs: Seq<SpecBlock>, bl: Seq<nat>) -> Seq<SpecNode>
    decreases bs.len() + bl.len(),
{
    if bs.len() == 0 && bl.len() == 0 {
        Seq::empty()
    } else if bl.len() == 0 || (bs.len() > 0 && bs.last().line > bl.last()) {
        merge_nodes(bs.drop_last(), bl).push(SpecNode::Block(bs.last()))
    } else {
        merge_nodes(bs, bl.drop_last()).push(SpecNode::BlankLine { line: bl.last() })
    }
}

/// The blocks among the items, in order.
pub open spec fn top_blocks(ns: Seq<SpecNode>) -> Seq<SpecBlock>
    decreases ns.len(),
{
    if ns.len() == 0 {
        Seq::empty()
    } else {
        match ns.last() {
            SpecNode::Block(b) => top_blocks(ns.drop_last()).push(b),
            SpecNode::BlankLine { .. } => top_blocks(ns.drop_last()),
        }
    }
}

/// The blank lines among the items, in order.
pub open spec fn blank_lines_of(ns: Seq<SpecNode>) -> Seq<nat>
    decreases ns.len(),
{
    if ns.len() == 0 {
        Seq::empty()
    } else {
        match ns.last() {
            SpecNode::Block(_) => blank_lines_of(ns.drop_last()),
            SpecNode::BlankLine { line } => blank_lines_of(ns.drop_last()).push(line),
        }
    }
}

proof fn lemma_merge_parts(bs: Seq<SpecBlock>, bl: Seq<nat>)
    ensures
        top_blocks(merge_nodes(bs, bl)) == bs,
        blank_lines_of(merge_nodes(bs, bl)) == bl,
    decreases bs.len() + bl.len(),
{
    if bs.len() == 0 && bl.len() == 0 {
    } else if bl.len() == 0 || (bs.len() > 0 && bs.last().line > bl.last()) {
        lemma_merge_parts(bs.drop_last(), bl);
        let m = merge_nodes(bs.drop_last(), bl);
        assert(m.push(SpecNode::Block(bs.last())).drop_last() =~= m);
        assert(bs.drop_last().push(bs.last()) =~= bs);
    } else {
        lemma_merge_parts(bs, bl.drop_last());
        let m = merge_nodes(bs, bl.drop_last());
        assert(m.push(SpecNode::BlankLine { line: bl.last() }).drop_last() =~= m);
        assert(bl.drop_last().push(bl.last()) =~= bl);
    }
}

/// The result of parsing a page.
pub open spec fn parse_result(input: Seq<char>) -> Result<SpecDocument, ParseError> {
    if all_ws(input) {
        Err(ParseError::Empty)
    } else {
        match scan(lines_of(input), 0, Seq::empty()) {
            ScanOutcome::Done(es) => Ok(SpecDocument {
                version: 1,
                items: merge_nodes(tree_of(es), blanks_from(lines_of(input), 0)),
            }),
            ScanOutcome::Unclosed(line) => Err(ParseError::UnclosedCodeFence { line: line as usize }),
        }
    }
}

pub open spec fn result_view(r: Result<Document, ParseError>) -> Result<SpecDocument, ParseError> {
    match r {
        Ok(d) => Ok(d@),
        Err(e) => Err(e),
    }
}

// ---------------------------------------------------------------------------
// Executable line-level helpers
// ---------------------------------------------------------------------------

pub open spec fn lines_view(v: Seq<Vec<char>>) -> Seq<Seq<char>> {
    v.map_values(|l: Vec<char>| l@)
}

/// `str::lines`.
fn split_lines(s: &[char]) -> (r: Vec<Vec<char>>)
    ensures
        lines_view(r@) == lines_of(s@),
{
    let nl = vec!['\n'];
    assert(nl@ =~= seq!['\n']);
    let mut out: Vec<Vec<char>> = Vec::new();
    let mut k: usize = 0;
    assert(lines_view(out@) + lines_from(s@, 0) =~= lines_from(s@, 0));
    while k < s.len()
        invariant
            k <= s.len(),
            nl@ == seq!['\n'],
            lines_of(s@) == lines_view(out@) + lines_from(s@, k as int),
        decreases s.len() - k,
    {
        let ghost before = lines_view(out@);
        match find_exec(s, &nl, k) {
            Some(j) => {
                proof {
                    lemma_find_from(s@, nl@, k as int);
                }
                let mut l = slice_of(s, k, j);
                let n = l.len();
                if n > 0 && l[n - 1] == '\r' {
                    l.pop();
                }
                proof {
                    assert(l@ =~= strip_cr(s@.subrange(k as int, j as int)));
                }
                out.push(l);
                k = j + 1;
                proof {
                    assert(lines_view(out@) =~= before.push(l@));
                    assert(lines_view(out@) + lines_from(s@, k as int) =~= before + (seq![l@] + lines_from(s@, k as int)));
                }
            },
            None => {
                let l = slice_of(s, k, s.len());
                out.push(l);
                k = s.len();
                proof {
                    assert(lines_view(out@) =~= before.push(l@));
                    assert(lines_view(out@) + lines_from(s@, k as int) =~= before + seq![l@]);
                }
            },
        }
    }
    assert(lines_view(out@) + lines_from(s@, k as int) =~= lines_view(out@));
    out
}

/// The indentation of a line (a space counts 1, a tab 2) and its text after
/// the leading spaces and tabs, left-trimmed.
fn split_indent(line: &[char]) -> (r: (usize, Vec<char>))
    requires
        line@.len() <= isize::MAX,
    ensures
        (r.0 as int, r.1@) == split_indent_of(line@),
{
    let mut k: usize = 0;
    let mut spaces: usize = 0;
    while k < line.len() && (line[k] == ' ' || line[k] == '\t')
        invariant
            k <= line@.len() <= isize::MAX,
            k <= spaces <= 2 * k,
            indent_scan(line@, 0, 0) == indent_scan(line@, k as int, spaces as int),
        decreases line@.len() - k,
    {
        if line[k] == ' ' {
            spaces = spaces + 1;
        } else {
            spaces = spaces + 2;
        }
        k = k + 1;
    }
    proof {
        assert(indent_scan(line@, k as int, spaces as int) == (k as int, spaces as int));
    }
    let rest = slice_of(line, k, line.len());
    (spaces, trim_start_of(&rest))
}

pub open spec fn opt_opt_chars(o: Option<Option<Vec<char>>>) -> Option<Option<Seq<char>>> {
    match o {
        Some(Some(v)) => Some(Some(v@)),
        Some(None) => Some(None),
        None => None,
    }
}

fn fence() -> (r: Vec<char>)
    ensures
        r@ == lit_fence(),
{
    let r = vec!['`', '`', '`'];
    assert(r@ =~= lit_fence());
    r
}

fn parse_code_fence_open(s: &[char]) -> (r: Option<Option<Vec<char>>>)
    ensures
        opt_opt_chars(r) == fence_open_of(s@),
{
    let st = trim_start_of(s);
    if starts_with_exec(&st, &fence()) {
        let rest = slice_of(&st, 3, st.len());
        let info = trim_of(&rest);
        if info.len() == 0 {
            return Some(None);
        }
        return Some(Some(info));
    }
    None
}

fn parse_code_fence_close(s: &[char]) -> (r: bool)
    ensures
        r == is_fence_close(s@),
{
    let st = trim_start_of(s);
    starts_with_exec(&st, &fence())
}

fn contains_char(s: &[char], c: char) -> (r: bool)
    ensures
        r == s@.contains(c),
{
    let mut i: usize = 0;
    while i < s.len()
        invariant
            i <= s@.len(),
            forall|j: int| 0 <= j < i ==> s@[j] != c,
        decreases s@.len() - i,
    {
        if s[i] == c {
            return true;
        }
        i = i + 1;
    }
    false
}

fn parse_property_line(s: &[char]) -> (r: Option<(Vec<char>, Vec<char>)>)
    ensures
        match r {
            Some((k, v)) => property_line_of(s@) == Some((k@, v@)),
            None => property_line_of(s@) is None,
        },
{
    let st = trim_of(s);
    let sep = vec![':', ':'];
    assert(sep@ =~= seq![':', ':']);
    let k = match find_exec(&st, &sep, 0) {
        Some(k) => k,
        None => return None,
    };
    proof {
        lemma_find_from(st@, sep@, 0);
        assert(k + 2 <= st.len());
    }
    let key_raw = slice_of(&st, 0, k);
    let key = trim_of(&key_raw);
    let val_raw = slice_of(&st, k + 2, st.len());
    let val = trim_of(&val_raw);
    if key.len() == 0 {
        return None;
    }
    if contains_char(&key, ' ') {
        return None;
    }
    Some((key, val))
}

/// Remove a `- ` or `* ` bullet; also says whether there was one.
fn strip_bullet(s: &[char]) -> (r: (Vec<char>, bool))
    ensures
        r.0@ == strip_bullet_of(s@),
{
    let st = trim_start_of(s);
    let dash = vec!['-', ' '];
    let star = vec!['*', ' '];
    assert(dash@ =~= seq!['-', ' ']);
    assert(star@ =~= seq!['*', ' ']);
    if starts_with_exec(&st, &dash) {
        return (slice_of(&st, 2, st.len()), true);
    }
    if starts_with_exec(&st, &star) {
        return (slice_of(&st, 2, st.len()), true);
    }
    (st, false)
}

fn marker_text(m: Marker) -> (r: Vec<char>)
    ensures
        r@ == marker_prefix(m),
{
    let r = match m {
        Marker::Todo => vec!['T', 'O', 'D', 'O', ' '],
        Marker::Doing => vec!['D', 'O', 'I', 'N', 'G', ' '],
        Marker::Done => vec!['D', 'O', 'N', 'E', ' '],
        Marker::Later => vec!['L', 'A', 'T', 'E', 'R', ' '],
        Marker::Now => vec!['N', 'O', 'W', ' '],
    };
    assert(r@ =~= marker_prefix(m));
    r
}

/// A task marker at the start of the block text, and the text after it.
fn parse_marker(s: &[char]) -> (r: (Option<Marker>, Vec<char>))
    ensures
        marker_of(s@) == (r.0, r.1@),
{
    let (without_bullet, _had_bullet) = strip_bullet(s);
    let st = trim_start_of(&without_bullet);
    let todo = marker_text(Marker::Todo);
    if starts_with_exec(&st, &todo) {
        return (Some(Marker::Todo), slice_of(&st, 5, st.len()));
    }
    let doing = marker_text(Marker::Doing);
    if starts_with_exec(&st, &doing) {
        return (Some(Marker::Doing), slice_of(&st, 6, st.len()));
    }
    let done = marker_text(Marker::Done);
    if starts_with_exec(&st, &done) {
        return (Some(Marker::Done), slice_of(&st, 5, st.len()));
    }
    let later = marker_text(Marker::Later);
    if starts_with_exec(&st, &later) {
        return (Some(Marker::Later), slice_of(&st, 6, st.len()));
    }
    let now = marker_text(Marker::Now);
    if starts_with_exec(&st, &now) {
        return (Some(Marker::Now), slice_of(&st, 4, st.len()));
    }
    (None, st)
}

// ---------------------------------------------------------------------------
// Placing blocks in the tree
// ---------------------------------------------------------------------------

pub open spec fn entries_view(v: Seq<(usize, Block)>) -> Seq<(nat, SpecBlock)> {
    v.map_values(|e: (usize, Block)| (e.0 as nat, block_view(e.1)))
}

pub open spec fn opt_index(o: Option<usize>) -> Option<int> {
    match o {
        Some(j) => Some(j as int),
        None => None,
    }
}

/// Entry `t` is overshadowed by a stack element at or after it whose level
/// is not larger.
pub open spec fn covered(lv: Seq<nat>, st: Seq<(usize, usize)>, t: int) -> bool {
    exists|q: int| 0 <= q < st.len() && st[q].1 >= t && st[q].0 <= lv[t]
}

/// The stack of open blocks: (level, entry index) pairs, strictly increasing
/// in both, ending at the latest entry; every entry is covered by it.
pub open spec fn stack_ok(lv: Seq<nat>, st: Seq<(usize, usize)>) -> bool {
    &&& lv.len() > 0 ==> st.len() > 0 && st.last().1 == lv.len() - 1
    &&& forall|q: int| 0 <= q < st.len() ==> (#[trigger] st[q]).1 < lv.len() && st[q].0 == lv[st[q].1 as int]
    &&& forall|q1: int, q2: int| 0 <= q1 < q2 < st.len() ==> (#[trigger] st[q1]).1 < (#[trigger] st[q2]).1 && st[q1].0 < st[q2].0
    &&& forall|t: int| 0 <= t < lv.len() ==> #[trigger] covered(lv, st, t)
}

pub open spec fn parents_ok(lv: Seq<nat>, ps: Seq<Option<usize>>) -> bool {
    &&& ps.len() == lv.len()
    &&& forall|i: int| 0 <= i < lv.len() ==> opt_index(#[trigger] ps[i]) == parent_of(lv, i)
}

proof fn lemma_nearest_some(lv: Seq<nat>, i: int, j: int, m: int)
    requires
        0 <= m <= j < lv.len(),
        0 <= i < lv.len(),
        lv[m] < lv[i],
        forall|t: int| m < t <= j ==> lv[t] >= lv[i],
    ensures
        nearest_shallower(lv, i, j) == Some(m),
    decreases j,
{
    if j > m {
        lemma_nearest_some(lv, i, j - 1, m);
    }
}

proof fn lemma_nearest_none(lv: Seq<nat>, i: int, j: int)
    requires
        j < lv.len(),
        0 <= i < lv.len(),
        forall|t: int| 0 <= t <= j ==> lv[t] >= lv[i],
    ensures
        nearest_shallower(lv, i, j) is None,
    decreases j + 1,
{
    if j >= 0 {
        lemma_nearest_none(lv, i, j - 1);
    }
}

/// Only the levels up to `i` matter for the parent of `i`.
proof fn lemma_nearest_prefix(lv1: Seq<nat>, lv2: Seq<nat>, i: int, j: int)
    requires
        0 <= i < lv1.len(),
        i < lv2.len(),
        j < i,
        forall|t: int| 0 <= t <= i ==> lv1[t] == lv2[t],
    ensures
        nearest_shallower(lv1, i, j) == nearest_shallower(lv2, i, j),
    decreases j + 1,
{
    if j >= 0 {
        lemma_nearest_prefix(lv1, lv2, i, j - 1);
    }
}

proof fn lemma_nearest_bounds(lv: Seq<nat>, i: int, j: int)
    ensures
        nearest_shallower(lv, i, j) matches Some(m) ==> 0 <= m <= j,
    decreases j + 1,
{
    if j >= 0 {
        lemma_nearest_bounds(lv, i, j - 1);
    }
}

/// Attach `block`, at indentation `level`, below the nearest shallower open block.
fn place_block(
    entries: &mut Vec<(usize, Block)>,
    stack: &mut Vec<(usize, usize)>,
    parents: &mut Vec<Option<usize>>,
    level: usize,
    block: Block,
)
    requires
        stack_ok(levels_of(entries_view(old(entries)@)), old(stack)@),
        parents_ok(levels_of(entries_view(old(entries)@)), old(parents)@),
    ensures
        entries_view(final(entries)@) == entries_view(old(entries)@).push((level as nat, block_view(block))),
        stack_ok(levels_of(entries_view(final(entries)@)), final(stack)@),
        parents_ok(levels_of(entries_view(final(entries)@)), final(parents)@),
{
    let ghost lv = levels_of(entries_view(entries@));
    let ghost st0 = stack@;
    let n = entries.len();
    // pop until the top is indented less than `level`
    while stack.len() > 0 && stack[stack.len() - 1].0 >= level
        invariant
            stack@.len() <= st0.len(),
            stack@ == st0.take(stack@.len() as int),
            forall|q: int| stack@.len() <= q < st0.len() ==> (#[trigger] st0[q]).0 >= level,
        decreases stack@.len(),
    {
        stack.pop();
    }
    let parent: Option<usize> = if stack.len() > 0 {
        Some(stack[stack.len() - 1].1)
    } else {
        None
    };
    let ghost q0 = stack@.len() as int;
    entries.push((level, block));
    parents.push(parent);
    stack.push((level, n));
    proof {
        let lv2 = levels_of(entries_view(entries@));
        assert(entries_view(entries@) =~= entries_view(old(entries)@).push((level as nat, block_view(block))));
        assert(lv2 =~= lv.push(level as nat));
        // the parent of the new entry
        if q0 > 0 {
            let m = st0[q0 - 1].1 as int;
            assert forall|t: int| m < t <= n - 1 implies lv2[t] >= lv2[n as int] by {
                assert(covered(lv, st0, t));
                let q = choose|q: int| 0 <= q < st0.len() && st0[q].1 >= t && st0[q].0 <= lv[t];
                if q < q0 {
                    assert(st0[q].1 <= st0[q0 - 1].1) by {
                        if q < q0 - 1 {
                            assert(st0[q].1 < st0[q0 - 1].1);
                        }
                    }
                }
            }
            lemma_nearest_some(lv2, n as int, n - 1, m);
        } else {
            assert forall|t: int| 0 <= t <= n - 1 implies lv2[t] >= lv2[n as int] by {
                assert(covered(lv, st0, t));
            }
            lemma_nearest_none(lv2, n as int, n - 1);
        }
        assert forall|i: int| 0 <= i < lv2.len() implies opt_index(#[trigger] parents@[i]) == parent_of(lv2, i) by {
            if i < n {
                lemma_nearest_prefix(lv, lv2, i, i - 1);
            }
        }
        // the stack invariant
        let st = stack@;
        assert forall|q: int| 0 <= q < st.len() implies (#[trigger] st[q]).1 < lv2.len() && st[q].0 == lv2[st[q].1 as int] by {
            if q < q0 {
                assert(st[q] == st0[q]);
            }
        }
        assert forall|q1: int, q2: int| 0 <= q1 < q2 < st.len() implies (#[trigger] st[q1]).1 < (#[trigger] st[q2]).1 && st[q1].0 < st[q2].0 by {
            assert(st[q1] == st0[q1]);
            if q2 < q0 {
                assert(st[q2] == st0[q2]);
            } else if q1 < q0 - 1 {
                assert(st0[q1].1 < st0[q0 - 1].1 && st0[q1].0 < st0[q0 - 1].0);
            }
        }
        assert forall|t: int| 0 <= t < lv2.len() implies #[trigger] covered(lv2, st, t) by {
            if t == n {
                assert(st[q0] == (level, n));
            } else {
                assert(covered(lv, st0, t));
                let q = choose|q: int| 0 <= q < st0.len() && st0[q].1 >= t && st0[q].0 <= lv[t];
                if q < q0 {
                    assert(st[q] == st0[q]);
                } else {
                    assert(st[q0] == (level, n));
                }
            }
        }
    }
}

/// A property line: attached to the latest block, or opening an implicit
/// block when there is none yet.
fn attach_property(
    entries: &mut Vec<(usize, Block)>,
    stack: &mut Vec<(usize, usize)>,
    parents: &mut Vec<Option<usize>>,
    level: usize,
    key: &[char],
    value: &[char],
    line: usize,
)
    requires
        stack_ok(levels_of(entries_view(old(entries)@)), old(stack)@),
        parents_ok(levels_of(entries_view(old(entries)@)), old(parents)@),
    ensures
        entries_view(final(entries)@) == add_property(
            entries_view(old(entries)@),
            level as nat,
            key@,
            value@,
            line as nat,
        ),
        stack_ok(levels_of(entries_view(final(entries)@)), final(stack)@),
        parents_ok(levels_of(entries_view(final(entries)@)), final(parents)@),
{
    let is_id = key.len() == 2 && key[0] == 'i' && key[1] == 'd';
    assert(is_id == (key@ == lit_id())) by {
        if key@.len() == 2 && key@[0] == 'i' && key@[1] == 'd' {
            assert(key@ =~= lit_id());
        }
    }
    let value_string = string_from_chars(value);
    let inlines = parse_property_value(value_string.as_str());
    let prop = Property { key: string_from_chars(key), value: value_string, inlines, line };
    let n = entries.len();
    if n > 0 {
        let ghost es = entries_view(entries@);
        let ghost lv = levels_of(es);
        let ghost old_props = entries@[n - 1].1.properties@;
        let entry = &mut entries[n - 1];
        if is_id && entry.1.id.is_none() {
            entry.1.id = Some(string_from_chars(value));
        }
        entry.1.properties.push(prop);
        proof {
            assert(properties_view(entries@[n - 1].1.properties@) =~= properties_view(old_props).push(prop@));
            assert(entries_view(entries@) =~= add_property(es, level as nat, key@, value@, line as nat));
            assert(levels_of(entries_view(entries@)) =~= lv);
        }
    } else {
        let mut properties: Vec<Property> = Vec::new();
        properties.push(prop);
        let block = Block {
            id: if is_id { Some(string_from_chars(value)) } else { None },
            marker: None,
            properties,
            content: Vec::new(),
            children: Vec::new(),
            line,
        };
        proof {
            assert(properties_view(block.properties@) =~= seq![prop@]);
            assert(inlines_view(block.content@) =~= Seq::<SpecInline>::empty());
            assert(blocks_view(block.children@) =~= Seq::<SpecBlock>::empty());
        }
        place_block(entries, stack, parents, level, block);
        proof {
            assert(entries_view(entries@) =~= add_property(
                entries_view(old(entries)@),
                level as nat,
                key@,
                value@,
                line as nat,
            ));
        }
    }
}

/// Nest the flat entries into the block tree (children attached bottom-up).
fn build_tree(entries: Vec<(usize, Block)>, parents: Vec<Option<usize>>) -> (r: Vec<Block>)
    requires
        parents_ok(levels_of(entries_view(entries@)), parents@),
    ensures
        blocks_view(r@) == tree_of(entries_view(entries@)),
{
    let ghost es = entries_view(entries@);
    let ghost lv = levels_of(es);
    let ghost ps = parents@;
    let n = entries.len();
    let mut kids: Vec<Vec<Block>> = Vec::new();
    let mut k: usize = 0;
    while k < n
        invariant
            k <= n == es.len(),
            kids@.len() == k,
            forall|j: int| 0 <= j < k ==> (#[trigger] kids@[j])@.len() == 0,
        decreases n - k,
    {
        kids.push(Vec::new());
        k = k + 1;
    }
    let mut roots: Vec<Block> = Vec::new();
    let mut entries = entries;
    let mut parents = parents;
    let mut i: usize = n;
    proof {
        assert(blocks_view(roots@) =~= children_from(es, None, n as int));
        assert forall|j: int| 0 <= j < n implies blocks_view((#[trigger] kids@[j])@) == children_from(es, Some(j), n as int) by {
            assert(blocks_view(kids@[j]@) =~= Seq::<SpecBlock>::empty());
        }
        assert(entries_view(entries@) =~= es.take(n as int));
        assert(parents@ =~= ps.take(n as int));
        assert(parents_ok(lv, ps));
    }
    while i > 0
        invariant
            i <= n == es.len(),
            lv == levels_of(es),
            parents_ok(lv, ps),
            entries_view(entries@) == es.take(i as int),
            entries@.len() == i,
            parents@ == ps.take(i as int),
            kids@.len() == i,
            forall|j: int| 0 <= j < i ==> blocks_view((#[trigger] kids@[j])@) == children_from(es, Some(j), i as int),
            blocks_view(roots@) == children_from(es, None, i as int),
        decreases i,
    {
        let ghost old_kids = kids@;
        let ghost old_roots = blocks_view(roots@);
        let ghost old_entries = entries@;
        let (_level, mut block) = entries.pop().unwrap();
        let parent = parents.pop().unwrap();
        let children = kids.pop().unwrap();
        i = i - 1;
        proof {
            assert(entries_view(old_entries)[i as int] == es.take(i + 1)[i as int]);
            assert(es.take(i + 1)[i as int] == es[i as int]);
            assert(block_view(block) == es[i as int].1);
            assert(ps.take(i + 1)[i as int] == ps[i as int]);
            assert(opt_index(ps[i as int]) == parent_of(lv, i as int));
            lemma_nearest_bounds(lv, i as int, i - 1);
        }
        block.children = children;
        let ghost node = block_view(block);
        proof {
            assert(node == SpecBlock { children: children_from(es, Some(i as int), i + 1), ..es[i as int].1 });
        }
        match parent {
            Some(j) => {
                kids[j].insert(0, block);
                proof {
                    assert(blocks_view(kids@[j as int]@) =~= seq![node] + blocks_view(old_kids[j as int]@));
                }
            },
            None => {
                roots.insert(0, block);
                proof {
                    assert(blocks_view(roots@) =~= seq![node] + old_roots);
                }
            },
        }
        proof {
            assert(entries_view(entries@) =~= es.take(i as int));
            assert(parents@ =~= ps.take(i as int));
            assert forall|j: int| 0 <= j < i implies blocks_view((#[trigger] kids@[j])@) == children_from(es, Some(j), i as int) by {
                if opt_index(parent) != Some(j) {
                    assert(kids@[j] == old_kids[j]);
                }
            }
        }
    }
    roots
}

proof fn lemma_lines_len(s: Seq<char>, k: int)
    ensures
        forall|i: int| 0 <= i < lines_from(s, k).len() ==> (#[trigger] lines_from(s, k)[i]).len() <= s.len(),
    decreases s.len() - k,
{
    if 0 <= k < s.len() {
        lemma_find_from(s, seq!['\n'], k);
        match find_from(s, seq!['\n'], k) {
            Some(j) => {
                lemma_lines_len(s, j + 1);
                let ls = lines_from(s, k);
                assert forall|i: int| 0 <= i < ls.len() implies (#[trigger] ls[i]).len() <= s.len() by {
                    if i > 0 {
                        assert(ls[i] == lines_from(s, j + 1)[i - 1]);
                    }
                }
            },
            None => {},
        }
    }
}

proof fn lemma_join_step(ls: Seq<Seq<char>>, a: int, b: int)
    requires
        0 <= a < b <= ls.len(),
    ensures
        join_lines(ls.subrange(a, b)) == if b == a + 1 {
            ls[a]
        } else {
            join_lines(ls.subrange(a, b - 1)) + seq!['\n'] + ls[b - 1]
        },
{
    assert(ls.subrange(a, b).drop_last() =~= ls.subrange(a, b - 1));
}

fn opt_string(o: Option<Vec<char>>) -> (r: Option<String>)
    ensures
        match o {
            Some(v) => r matches Some(x) && x@ == v@,
            None => r is None,
        },
{
    match o {
        Some(v) => Some(string_from_chars(&v)),
        None => None,
    }
}

/// Read the body of a code fence whose first body line is `start`: the index
/// of the closing fence (or the number of lines if there is none) and the body
/// lines joined with newlines.
fn read_code_fence(lines: &Vec<Vec<char>>, start: usize) -> (r: (usize, Vec<char>))
    requires
        start <= lines@.len(),
        forall|i: int| 0 <= i < lines@.len() ==> (#[trigger] lines@[i])@.len() <= isize::MAX,
    ensures
        start <= r.0 <= lines@.len(),
        r.1@ == join_lines(lines_view(lines@).subrange(start as int, r.0 as int)),
        r.0 < lines@.len() ==> fence_end(lines_view(lines@), start as int) == FenceEnd::At(r.0 as int),
        r.0 >= lines@.len() ==> fence_end(lines_view(lines@), start as int) == FenceEnd::Unclosed,
{
    let ghost ls = lines_view(lines@);
    let mut idx0 = start;
    let mut text: Vec<char> = Vec::new();
    proof {
        assert(ls.subrange(start as int, start as int) =~= Seq::<Seq<char>>::empty());
    }
    while idx0 < lines.len()
        invariant_except_break
            start <= idx0 <= lines@.len(),
            ls == lines_view(lines@),
            forall|i: int| 0 <= i < lines@.len() ==> (#[trigger] lines@[i])@.len() <= isize::MAX,
            fence_end(ls, start as int) == fence_end(ls, idx0 as int),
            text@ == join_lines(ls.subrange(start as int, idx0 as int)),
        ensures
            start <= idx0 <= lines@.len(),
            text@ == join_lines(ls.subrange(start as int, idx0 as int)),
            idx0 < lines@.len() ==> fence_end(ls, start as int) == FenceEnd::At(idx0 as int),
            idx0 >= lines@.len() ==> fence_end(ls, start as int) == FenceEnd::Unclosed,
        decreases lines@.len() - idx0,
    {
        let l = &lines[idx0];
        assert(l@ == ls[idx0 as int]);
        let (_ind2, t2) = split_indent(l);
        if parse_code_fence_close(&t2) {
            break;
        }
        let ghost before = text@;
        if idx0 > start {
            text.push('\n');
        }
        push_all(&mut text, l);
        idx0 = idx0 + 1;
        proof {
            lemma_join_step(ls, start as int, idx0 as int);
            if idx0 > start + 1 {
                assert(text@ =~= before + seq!['\n'] + ls[idx0 - 1]);
            } else {
                assert(text@ =~= ls[idx0 - 1]);
            }
        }
    }
    (idx0, text)
}

/// Read the non-blank line at `idx0` (and the body of a code fence it opens):
/// the index of the next line to read, or the error for a fence that never
/// closes.
fn parse_line(
    lines: &Vec<Vec<char>>,
    idx0: usize,
    entries: &mut Vec<(usize, Block)>,
    stack: &mut Vec<(usize, usize)>,
    parents: &mut Vec<Option<usize>>,
) -> (r: Result<usize, ParseError>)
    requires
        idx0 < lines.len(),
        !all_ws(lines_view(lines@)[idx0 as int]),
        forall|i: int| 0 <= i < lines@.len() ==> (#[trigger] lines@[i])@.len() <= isize::MAX,
        stack_ok(levels_of(entries_view(old(entries)@)), old(stack)@),
        parents_ok(levels_of(entries_view(old(entries)@)), old(parents)@),
    ensures
        stack_ok(levels_of(entries_view(final(entries)@)), final(stack)@),
        parents_ok(levels_of(entries_view(final(entries)@)), final(parents)@),
        match r {
            Ok(next) => idx0 < next <= lines@.len() && scan(lines_view(lines@), idx0 as int, entries_view(old(entries)@))
                == scan(lines_view(lines@), next as int, entries_view(final(entries)@))
                && blanks_from(lines_view(lines@), idx0 as int) == blanks_from(lines_view(lines@), next as int),
            Err(e) => scan(lines_view(lines@), idx0 as int, entries_view(old(entries)@)) == ScanOutcome::Unclosed((idx0 + 1) as nat)
                && e == ParseError::UnclosedCodeFence { line: (idx0 + 1) as usize },
        },
{
    let ghost ls = lines_view(lines@);
    let raw_line = &lines[idx0];
    let line_no = idx0 + 1;
    assert(raw_line@ == ls[idx0 as int]);
    let (indent_spaces, trimmed) = split_indent(raw_line);
    let level = indent_spaces / 2;
    if let Some(info) = parse_code_fence_open(&trimmed) {
        let start_line = line_no;
        let (close, text) = read_code_fence(lines, idx0 + 1);
        if close >= lines.len() {
            return Err(ParseError::UnclosedCodeFence { line: start_line });
        }
        let mut content: Vec<Inline> = Vec::new();
        content.push(Inline::CodeBlock { info: opt_string(info), text: string_from_chars(&text) });
        let block = Block {
            id: None,
            marker: None,
            properties: Vec::new(),
            content,
            children: Vec::new(),
            line: start_line,
        };
        proof {
            assert(properties_view(block.properties@) =~= Seq::<SpecProperty>::empty());
            assert(blocks_view(block.children@) =~= Seq::<SpecBlock>::empty());
            assert(inlines_view(block.content@) =~= seq![SpecInline::CodeBlock {
                info: fence_open_of(trimmed@)->0,
                text: text@,
            }]);
        }
        place_block(entries, stack, parents, level, block);
        return Ok(close + 1);
    }
    if let Some((key, value)) = parse_property_line(&trimmed) {
        attach_property(entries, stack, parents, level, &key, &value, line_no);
        return Ok(idx0 + 1);
    }
    let (marker, content_str) = parse_marker(&trimmed);
    let content = tokenize_chars(&content_str);
    let block = Block {
        id: None,
        marker,
        properties: Vec::new(),
        content,
        children: Vec::new(),
        line: line_no,
    };
    proof {
        assert(properties_view(block.properties@) =~= Seq::<SpecProperty>::empty());
        assert(blocks_view(block.children@) =~= Seq::<SpecBlock>::empty());
    }
    place_block(entries, stack, parents, level, block);
    Ok(idx0 + 1)
}

proof fn lemma_blank_lines(s: Seq<char>, k: int)
    requires
        0 <= k,
        forall|t: int| 0 <= t < lines_from(s, k).len() ==> all_ws(#[trigger] lines_from(s, k)[t]),
    ensures
        forall|j: int| k <= j < s.len() ==> crate::text::is_ws(#[trigger] s[j]),
    decreases s.len() - k,
{
    if k < s.len() {
        lemma_find_from(s, seq!['\n'], k);
        let ls = lines_from(s, k);
        match find_from(s, seq!['\n'], k) {
            Some(j) => {
                let line = s.subrange(k, j);
                assert(all_ws(ls[0]));
                assert forall|t: int| 0 <= t < lines_from(s, j + 1).len() implies all_ws(#[trigger] lines_from(s, j + 1)[t]) by {
                    assert(ls[t + 1] == lines_from(s, j + 1)[t]);
                }
                lemma_blank_lines(s, j + 1);
                assert(s.subrange(j, j + 1)[0] == s[j]);
                assert forall|i: int| k <= i < s.len() implies crate::text::is_ws(#[trigger] s[i]) by {
                    if i < j {
                        assert(line[i - k] == s[i]);
                        if i - k < strip_cr(line).len() {
                            assert(strip_cr(line)[i - k] == s[i]);
                        }
                    }
                }
            },
            None => {
                assert(all_ws(ls[0]));
                assert forall|i: int| k <= i < s.len() implies crate::text::is_ws(#[trigger] s[i]) by {
                    assert(ls[0][i - k] == s[i]);
                }
            },
        }
    }
}

/// A page that parses holds at least one block, and its version is 1.
pub proof fn law_parsed_page_has_blocks(input: Seq<char>)
    ensures
        parse_result(input) matches Ok(d) ==> d.version == 1 && top_blocks(d.items).len() > 0,
{
    if !all_ws(input) {
        let ls = lines_of(input);
        lemma_scan_ok(ls, 0, Seq::empty());
        if let ScanOutcome::Done(es) = scan(ls, 0, Seq::empty()) {
            lemma_merge_parts(tree_of(es), blanks_from(ls, 0));
            if es.len() == 0 {
                lemma_blank_lines(input, 0);
                assert(all_ws(input));
            }
            assert(parent_of(levels_of(es), 0) is None);
        }
    }
}

/// `Empty` is the error for exactly the pages that hold only whitespace.
pub proof fn law_empty_error_iff_blank(input: Seq<char>)
    ensures
        (parse_result(input) == Err::<SpecDocument, ParseError>(ParseError::Empty)) == all_ws(input),
{
}

proof fn lemma_prefix_chars(st: Seq<char>, p: Seq<char>)
    ensures
        matches_at(st, p, 0) ==> forall|k: int| 0 <= k < p.len() ==> #[trigger] st[k] == p[k],
{
    if matches_at(st, p, 0) {
        assert forall|k: int| 0 <= k < p.len() implies #[trigger] st[k] == p[k] by {
            assert(st.subrange(0, p.len() as int)[k] == st[k]);
        }
    }
}

/// Task markers are exactly the upper-case words `TODO`, `DOING`, `DONE`,
/// `LATER` and `NOW` followed by a space, at the start of the block text
/// (after the bullet); the marker is cut from the text. Any other text,
/// title-case `Now` or `Done` included, keeps no marker and is left whole.
pub proof fn law_task_markers(s: Seq<char>)
    ensures
        ({
            let st = trim_start(strip_bullet_of(s));
            let m = marker_of(s).0;
            let rest = marker_of(s).1;
            &&& (m == Some(Marker::Todo)) == matches_at(st, seq!['T', 'O', 'D', 'O', ' '], 0)
            &&& (m == Some(Marker::Doing)) == matches_at(st, seq!['D', 'O', 'I', 'N', 'G', ' '], 0)
            &&& (m == Some(Marker::Done)) == matches_at(st, seq!['D', 'O', 'N', 'E', ' '], 0)
            &&& (m == Some(Marker::Later)) == matches_at(st, seq!['L', 'A', 'T', 'E', 'R', ' '], 0)
            &&& (m == Some(Marker::Now)) == matches_at(st, seq!['N', 'O', 'W', ' '], 0)
            &&& m == Some(Marker::Todo) ==> rest == st.subrange(5, st.len() as int)
            &&& m == Some(Marker::Doing) ==> rest == st.subrange(6, st.len() as int)
            &&& m == Some(Marker::Done) ==> rest == st.subrange(5, st.len() as int)
            &&& m == Some(Marker::Later) ==> rest == st.subrange(6, st.len() as int)
            &&& m == Some(Marker::Now) ==> rest == st.subrange(4, st.len() as int)
            &&& m is None ==> rest == st
        }),
{
    let st = trim_start(strip_bullet_of(s));
    let todo = seq!['T', 'O', 'D', 'O', ' '];
    let doing = seq!['D', 'O', 'I', 'N', 'G', ' '];
    let done = seq!['D', 'O', 'N', 'E', ' '];
    let later = seq!['L', 'A', 'T', 'E', 'R', ' '];
    let now = seq!['N', 'O', 'W', ' '];
    lemma_prefix_chars(st, todo);
    lemma_prefix_chars(st, doing);
    lemma_prefix_chars(st, done);
    lemma_prefix_chars(st, later);
    lemma_prefix_chars(st, now);
    assert(marker_prefix(Marker::Todo) == todo);
    assert(marker_prefix(Marker::Doing) == doing);
    assert(marker_prefix(Marker::Done) == done);
    assert(marker_prefix(Marker::Later) == later);
    assert(marker_prefix(Marker::Now) == now);
    if matches_at(st, todo, 0) {
        assert(st[0] == 'T');
    }
    if matches_at(st, doing, 0) {
        assert(st[0] == 'D' && st[2] == 'I');
    }
    if matches_at(st, done, 0) {
        assert(st[0] == 'D' && st[2] == 'N');
    }
    if matches_at(st, later, 0) {
        assert(st[0] == 'L');
    }
    if matches_at(st, now, 0) {
        assert(st[0] == 'N');
    }
}

/// The value of the first `id` property, if there is one.
pub open spec fn first_id(ps: Seq<SpecProperty>) -> Option<Seq<char>>
    decreases ps.len(),
{
    if ps.len() == 0 {
        None
    } else {
        match first_id(ps.drop_last()) {
            Some(v) => Some(v),
            None => if ps.last().key == lit_id() {
                Some(ps.last().value)
            } else {
                None
            },
        }
    }
}

/// Blocks as the parser places them, all the way down: siblings in source
/// order, every block on a line after `lo` and no later than `n`, its children
/// after it, and its id the value of its first `id` property.
pub open spec fn well_placed(bs: Seq<SpecBlock>, lo: int, n: int) -> bool
    decreases bs,
{
    &&& forall|i: int, j: int| 0 <= i < j < bs.len() ==> #[trigger] bs[i].line < #[trigger] bs[j].line
    &&& forall|i: int|
        0 <= i < bs.len() ==> {
            &&& lo < #[trigger] bs[i].line <= n
            &&& bs[i].id == first_id(bs[i].properties)
            &&& well_placed(bs[i].children, bs[i].line as int, n)
        }
}

/// The flat entries: lines strictly ascending, all within `1..=n`, and each
/// block's id taken from its properties.
pub open spec fn entries_ok(es: Seq<(nat, SpecBlock)>, n: int) -> bool {
    &&& forall|a: int, b: int| 0 <= a < b < es.len() ==> #[trigger] es[a].1.line < #[trigger] es[b].1.line
    &&& forall|j: int|
        0 <= j < es.len() ==> {
            &&& 1 <= #[trigger] es[j].1.line <= n
            &&& es[j].1.id == first_id(es[j].1.properties)
        }
}

proof fn lemma_add_property_ok(
    es: Seq<(nat, SpecBlock)>,
    level: nat,
    key: Seq<char>,
    val: Seq<char>,
    line: nat,
)
    requires
        entries_ok(es, line - 1),
        line >= 1,
    ensures
        entries_ok(add_property(es, level, key, val, line), line as int),
{
    let prop = SpecProperty { key, value: val, inlines: property_value(val), line };
    let r = add_property(es, level, key, val, line);
    if es.len() == 0 {
        assert(seq![prop].drop_last() =~= Seq::<SpecProperty>::empty());
        assert(first_id(Seq::<SpecProperty>::empty()) is None);
        assert(first_id(seq![prop]) == r[0].1.id);
    } else {
        let b = es.last().1;
        assert(b.properties.push(prop).drop_last() =~= b.properties);
        assert(r.len() == es.len());
        assert forall|j: int| 0 <= j < r.len() - 1 implies #[trigger] r[j] == es[j] by {}
        assert(r.last().1.line == b.line);
        assert(r.last().1.id == first_id(r.last().1.properties));
        assert forall|a: int, c: int| 0 <= a < c < r.len() implies #[trigger] r[a].1.line < #[trigger] r[c].1.line by {
            assert(es[a].1.line < es[c].1.line);
            if c < r.len() - 1 {
                assert(r[c] == es[c]);
            }
        }
        assert forall|j: int| 0 <= j < r.len() implies {
            &&& 1 <= #[trigger] r[j].1.line <= line
            &&& r[j].1.id == first_id(r[j].1.properties)
        } by {
            if j < r.len() - 1 {
                assert(r[j] == es[j]);
            }
        }
    }
}

proof fn lemma_push_entry_ok(es: Seq<(nat, SpecBlock)>, level: nat, b: SpecBlock, m: int)
    requires
        entries_ok(es, b.line - 1),
        b.line >= 1,
        b.line <= m,
        b.id == first_id(b.properties),
    ensures
        entries_ok(es.push((level, b)), m),
{
    let r = es.push((level, b));
    assert forall|a: int, c: int| 0 <= a < c < r.len() implies #[trigger] r[a].1.line < #[trigger] r[c].1.line by {
        assert(r[a] == es[a]);
        if c < es.len() {
            assert(r[c] == es[c]);
        }
    }
    assert forall|j: int| 0 <= j < r.len() implies {
        &&& 1 <= #[trigger] r[j].1.line <= m
        &&& r[j].1.id == first_id(r[j].1.properties)
    } by {
        if j < es.len() {
            assert(r[j] == es[j]);
        }
    }
}

/// Every entry comes from a non-blank line of the page.
pub open spec fn entries_nonblank(es: Seq<(nat, SpecBlock)>, ls: Seq<Seq<char>>) -> bool {
    forall|j: int|
        0 <= j < es.len() ==> 1 <= #[trigger] es[j].1.line <= ls.len() && !all_ws(ls[es[j].1.line - 1])
}

proof fn lemma_add_property_nonblank(
    es: Seq<(nat, SpecBlock)>,
    level: nat,
    key: Seq<char>,
    val: Seq<char>,
    line: nat,
    ls: Seq<Seq<char>>,
)
    requires
        entries_nonblank(es, ls),
        1 <= line <= ls.len(),
        !all_ws(ls[line - 1]),
    ensures
        entries_nonblank(add_property(es, level, key, val, line), ls),
{
    let r = add_property(es, level, key, val, line);
    if es.len() > 0 {
        assert forall|j: int| 0 <= j < r.len() implies 1 <= #[trigger] r[j].1.line <= ls.len() && !all_ws(
            ls[r[j].1.line - 1],
        ) by {
            if j < r.len() - 1 {
                assert(r[j] == es[j]);
            } else {
                assert(r[j].1.line == es.last().1.line);
            }
        }
    }
}

proof fn lemma_push_nonblank(es: Seq<(nat, SpecBlock)>, level: nat, b: SpecBlock, ls: Seq<Seq<char>>)
    requires
        entries_nonblank(es, ls),
        1 <= b.line <= ls.len(),
        !all_ws(ls[b.line - 1]),
    ensures
        entries_nonblank(es.push((level, b)), ls),
{
    let r = es.push((level, b));
    assert forall|j: int| 0 <= j < r.len() implies 1 <= #[trigger] r[j].1.line <= ls.len() && !all_ws(
        ls[r[j].1.line - 1],
    ) by {
        if j < es.len() {
            assert(r[j] == es[j]);
        }
    }
}

proof fn lemma_scan_ok(ls: Seq<Seq<char>>, idx: int, es: Seq<(nat, SpecBlock)>)
    requires
        0 <= idx <= ls.len(),
        entries_ok(es, idx),
        entries_nonblank(es, ls),
    ensures
        scan(ls, idx, es) matches ScanOutcome::Done(es2) ==> entries_ok(es2, ls.len() as int)
            && entries_nonblank(es2, ls) && es2.len() >= es.len() && (es2.len() == 0 ==> forall|t: int|
            idx <= t < ls.len() ==> all_ws(#[trigger] ls[t])),
    decreases ls.len() - idx,
{
    if idx >= ls.len() {
        assert(entries_ok(es, ls.len() as int));
    } else if all_ws(ls[idx]) {
        lemma_scan_ok(ls, idx + 1, es);
        if let ScanOutcome::Done(es2) = scan(ls, idx, es) {
            if es2.len() == 0 {
                assert forall|t: int| idx <= t < ls.len() implies all_ws(#[trigger] ls[t]) by {
                    if t > idx {
                    }
                }
            }
        }
    } else {
        let (sp, t) = split_indent_of(ls[idx]);
        let level = (sp / 2) as nat;
        let line_no = (idx + 1) as nat;
        match fence_open_of(t) {
            Some(info) => match fence_end(ls, idx + 1) {
                FenceEnd::At(k) => {
                    lemma_fence_end_range(ls, idx + 1);
                    if !(k <= idx || k >= ls.len()) {
                        let text = join_lines(ls.subrange(idx + 1, k));
                        let b = SpecBlock {
                            content: seq![SpecInline::CodeBlock { info, text }],
                            ..empty_spec_block(line_no)
                        };
                        lemma_push_entry_ok(es, level, b, k + 1);
                        lemma_push_nonblank(es, level, b, ls);
                        lemma_scan_ok(ls, k + 1, es.push((level, b)));
                    }
                },
                _ => {},
            },
            None => match property_line_of(t) {
                Some((key, val)) => {
                    lemma_add_property_ok(es, level, key, val, line_no);
                    lemma_add_property_nonblank(es, level, key, val, line_no, ls);
                    lemma_scan_ok(ls, idx + 1, add_property(es, level, key, val, line_no));
                },
                None => {
                    let (m, c) = marker_of(t);
                    let b = SpecBlock {
                        marker: m,
                        content: tokenize(c),
                        ..empty_spec_block(line_no)
                    };
                    lemma_push_entry_ok(es, level, b, idx + 1);
                    lemma_push_nonblank(es, level, b, ls);
                    lemma_scan_ok(ls, idx + 1, es.push((level, b)));
                },
            },
        }
    }
}

proof fn lemma_tree_placed(es: Seq<(nat, SpecBlock)>, p: Option<int>, k: int, lo: int, n: int)
    requires
        entries_ok(es, n),
        0 <= k,
        forall|j: int| k <= j < es.len() ==> lo < #[trigger] es[j].1.line,
    ensures
        well_placed(children_from(es, p, k), lo, n),
    decreases es.len() - k,
{
    if k < es.len() {
        if parent_of(levels_of(es), k) == p {
            let e = es[k].1;
            let kids = children_from(es, Some(k), k + 1);
            let x = SpecBlock { children: kids, ..e };
            let rest = children_from(es, p, k + 1);
            assert forall|j: int| k + 1 <= j < es.len() implies e.line < #[trigger] es[j].1.line by {
                assert(es[k].1.line < es[j].1.line);
            }
            lemma_tree_placed(es, Some(k), k + 1, e.line as int, n);
            lemma_tree_placed(es, p, k + 1, e.line as int, n);
            let r = seq![x] + rest;
            assert(children_from(es, p, k) == r);
            assert forall|i: int, j: int| 0 <= i < j < r.len() implies #[trigger] r[i].line < #[trigger] r[j].line by {
                assert(r[j] == rest[j - 1]);
                if i > 0 {
                    assert(r[i] == rest[i - 1]);
                }
            }
            assert forall|i: int| 0 <= i < r.len() implies {
                &&& lo < #[trigger] r[i].line <= n
                &&& r[i].id == first_id(r[i].properties)
                &&& well_placed(r[i].children, r[i].line as int, n)
            } by {
                if i > 0 {
                    assert(r[i] == rest[i - 1]);
                }
            }
        } else {
            lemma_tree_placed(es, p, k + 1, lo, n);
        }
    }
}

/// Blocks keep the order of the page: siblings come in source order, every
/// block comes from a line of the page (numbered from 1) and its children from
/// later lines, and a block's id is the value of its first `id::` property.
pub proof fn law_blocks_follow_the_page(input: Seq<char>)
    ensures
        parse_result(input) matches Ok(d) ==> well_placed(top_blocks(d.items), 0, lines_of(input).len() as int),
{
    if !all_ws(input) {
        let ls = lines_of(input);
        lemma_scan_ok(ls, 0, Seq::empty());
        if let ScanOutcome::Done(es) = scan(ls, 0, Seq::empty()) {
            lemma_merge_parts(tree_of(es), blanks_from(ls, 0));
            lemma_tree_placed(es, None, 0, 0, ls.len() as int);
        }
    }
}

proof fn lemma_nearest_facts(lv: Seq<nat>, i: int, j: int)
    requires
        0 <= i < lv.len(),
        j < lv.len(),
    ensures
        nearest_shallower(lv, i, j) matches Some(m) ==> 0 <= m <= j && lv[m] < lv[i] && forall|t: int|
            m < t <= j ==> #[trigger] lv[t] >= lv[i],
        nearest_shallower(lv, i, j) is None ==> forall|t: int| 0 <= t <= j ==> #[trigger] lv[t] >= lv[i],
    decreases j + 1,
{
    if j >= 0 && lv[j] >= lv[i] {
        lemma_nearest_facts(lv, i, j - 1);
    }
}

/// Entry `j` lies below entry `q` in the block tree.
pub open spec fn is_desc(lv: Seq<nat>, j: int, q: int) -> bool
    decreases j,
{
    if j < 0 || j >= lv.len() {
        false
    } else {
        match parent_of(lv, j) {
            Some(m) => m == q || (0 <= m < j && is_desc(lv, m, q)),
            None => false,
        }
    }
}

/// Entry `j` lies below `p` (every entry lies below the root, `None`).
pub open spec fn under(lv: Seq<nat>, j: int, p: Option<int>) -> bool {
    match p {
        None => true,
        Some(q) => is_desc(lv, j, q),
    }
}

proof fn lemma_desc_levels(lv: Seq<nat>, j: int, q: int)
    requires
        is_desc(lv, j, q),
    ensures
        0 <= q < j < lv.len(),
        forall|t: int| q < t <= j ==> #[trigger] lv[t] > lv[q],
    decreases j,
{
    lemma_nearest_facts(lv, j, j - 1);
    let m = parent_of(lv, j)->0;
    if m != q {
        lemma_desc_levels(lv, m, q);
    }
}

proof fn lemma_desc_trans(lv: Seq<nat>, j: int, k: int, q: int)
    requires
        is_desc(lv, j, k),
        is_desc(lv, k, q),
    ensures
        is_desc(lv, j, q),
    decreases j,
{
    lemma_nearest_facts(lv, j, j - 1);
    let m = parent_of(lv, j)->0;
    if m != k {
        lemma_desc_trans(lv, m, k, q);
    } else {
        lemma_desc_levels(lv, k, q);
    }
}

/// What lies below a block comes before its later siblings.
proof fn lemma_desc_before_sibling(lv: Seq<nat>, p: Option<int>, k: int, s: int, j: int)
    requires
        0 <= k < s < lv.len(),
        parent_of(lv, k) == p,
        parent_of(lv, s) == p,
        is_desc(lv, j, k),
    ensures
        j < s,
{
    lemma_desc_levels(lv, j, k);
    lemma_nearest_facts(lv, k, k - 1);
    lemma_nearest_facts(lv, s, s - 1);
    if j >= s {
        assert(lv[s] > lv[k]);
    }
}

/// The line after which the subtree of `bs[i]` must end: the next sibling's
/// line, or `hi` for the last sibling.
pub open spec fn next_line(bs: Seq<SpecBlock>, i: int, hi: int) -> int {
    if i + 1 < bs.len() {
        bs[i + 1].line as int
    } else {
        hi
    }
}

/// Blocks in the order of the page: each block (from a non-blank line of
/// `ls`) lies after `lo`, before its next sibling (or `hi`), and so do all its
/// descendants, which come after it.
pub open spec fn in_page_order(bs: Seq<SpecBlock>, lo: int, hi: int, ls: Seq<Seq<char>>) -> bool
    decreases bs,
{
    forall|i: int|
        0 <= i < bs.len() ==> {
            &&& lo < #[trigger] bs[i].line < next_line(bs, i, hi)
            &&& bs[i].line <= ls.len() && !all_ws(ls[bs[i].line - 1])
            &&& in_page_order(bs[i].children, bs[i].line as int, next_line(bs, i, hi), ls)
        }
}

proof fn lemma_tree_order(
    es: Seq<(nat, SpecBlock)>,
    p: Option<int>,
    k: int,
    lo: int,
    hi: int,
    ls: Seq<Seq<char>>,
)
    requires
        entries_ok(es, ls.len() as int),
        entries_nonblank(es, ls),
        0 <= k,
        p matches Some(q) ==> q < k,
        forall|j: int| k <= j < es.len() && under(levels_of(es), j, p) ==> lo < #[trigger] es[j].1.line < hi,
    ensures
        in_page_order(children_from(es, p, k), lo, hi, ls),
        children_from(es, p, k).len() > 0 ==> exists|s: int|
            k <= s < es.len() && parent_of(levels_of(es), s) == p && #[trigger] es[s].1.line
                == children_from(es, p, k)[0].line,
    decreases es.len() - k,
{
    let lv = levels_of(es);
    if k < es.len() {
        let rest = children_from(es, p, k + 1);
        if parent_of(lv, k) == p {
            let e = es[k].1;
            assert(under(lv, k, p));
            let next = if rest.len() > 0 { rest[0].line as int } else { hi };
            assert forall|j: int| k + 1 <= j < es.len() && under(lv, j, p) implies e.line < #[trigger] es[j].1.line
                < hi by {
                assert(es[k].1.line < es[j].1.line);
            }
            lemma_tree_order(es, p, k + 1, e.line as int, hi, ls);
            assert forall|j: int| k + 1 <= j < es.len() && under(lv, j, Some(k)) implies e.line
                < #[trigger] es[j].1.line < next by {
                assert(es[k].1.line < es[j].1.line);
                if rest.len() > 0 {
                    let s = choose|s: int| k + 1 <= s < es.len() && parent_of(lv, s) == p && #[trigger] es[s].1.line
                        == rest[0].line;
                    lemma_desc_before_sibling(lv, p, k, s, j);
                    assert(es[j].1.line < es[s].1.line);
                } else {
                    if let Some(q) = p {
                        lemma_desc_trans(lv, j, k, q);
                    }
                }
            }
            lemma_tree_order(es, Some(k), k + 1, e.line as int, next, ls);
            let x = SpecBlock { children: children_from(es, Some(k), k + 1), ..e };
            let r = seq![x] + rest;
            assert(children_from(es, p, k) == r);
            assert forall|i: int| 0 <= i < r.len() implies {
                &&& lo < #[trigger] r[i].line < next_line(r, i, hi)
                &&& r[i].line <= ls.len() && !all_ws(ls[r[i].line - 1])
                &&& in_page_order(r[i].children, r[i].line as int, next_line(r, i, hi), ls)
            } by {
                if i == 0 {
                    assert(next_line(r, 0, hi) == next);
                    if rest.len() > 0 {
                        assert(r[1] == rest[0]);
                        assert(e.line < rest[0].line);
                    }
                    assert(es[k].1.line == e.line);
                } else {
                    assert(r[i] == rest[i - 1]);
                    assert(next_line(r, i, hi) == next_line(rest, i - 1, hi));
                    assert(e.line < rest[i - 1].line);
                }
            }
            assert(r[0].line == es[k].1.line);
        } else {
            lemma_tree_order(es, p, k + 1, lo, hi, ls);
        }
    }
}

/// The blocks in pre-order: each block followed by its descendants.
pub open spec fn preorder(bs: Seq<SpecBlock>) -> Seq<SpecBlock>
    decreases bs,
{
    if bs.len() == 0 {
        Seq::empty()
    } else {
        preorder(bs.drop_last()) + seq![bs.last()] + preorder(bs.last().children)
    }
}

proof fn lemma_preorder(bs: Seq<SpecBlock>, lo: int, hi: int, ls: Seq<Seq<char>>)
    requires
        in_page_order(bs, lo, hi, ls),
    ensures
        forall|i: int, j: int| 0 <= i < j < preorder(bs).len() ==> #[trigger] preorder(bs)[i].line < #[trigger] preorder(bs)[j].line,
        forall|i: int| 0 <= i < preorder(bs).len() ==> lo < #[trigger] preorder(bs)[i].line < hi
            && preorder(bs)[i].line <= ls.len() && !all_ws(ls[preorder(bs)[i].line - 1]),
    decreases bs,
{
    if bs.len() > 0 {
        let n = bs.len() - 1;
        let b = bs.last();
        let front = bs.drop_last();
        assert(bs[n] == b);
        assert(next_line(bs, n, hi) == hi);
        assert forall|i: int| 0 <= i < front.len() implies {
            &&& lo < #[trigger] front[i].line < next_line(front, i, b.line as int)
            &&& front[i].line <= ls.len() && !all_ws(ls[front[i].line - 1])
            &&& in_page_order(front[i].children, front[i].line as int, next_line(front, i, b.line as int), ls)
        } by {
            assert(front[i] == bs[i]);
            assert(next_line(front, i, b.line as int) == next_line(bs, i, hi));
        }
        lemma_preorder(front, lo, b.line as int, ls);
        lemma_preorder(b.children, b.line as int, hi, ls);
        let a = preorder(front);
        let c = preorder(b.children);
        let r = a + seq![b] + c;
        assert(preorder(bs) == r);
        assert forall|i: int| 0 <= i < r.len() implies lo < #[trigger] r[i].line < hi && r[i].line <= ls.len()
            && !all_ws(ls[r[i].line - 1]) by {
            if i < a.len() {
                assert(r[i] == a[i]);
            } else if i == a.len() {
                assert(r[i] == b);
            } else {
                assert(r[i] == c[i - a.len() - 1]);
            }
        }
        assert forall|i: int, j: int| 0 <= i < j < r.len() implies #[trigger] r[i].line < #[trigger] r[j].line by {
            if j < a.len() {
                assert(r[i] == a[i] && r[j] == a[j]);
            } else if j == a.len() {
                assert(r[i] == a[i]);
            } else if i < a.len() {
                assert(r[i] == a[i] && r[j] == c[j - a.len() - 1]);
            } else if i == a.len() {
                assert(r[j] == c[j - a.len() - 1]);
            } else {
                assert(r[i] == c[i - a.len() - 1] && r[j] == c[j - a.len() - 1]);
            }
        }
    }
}

/// Blocks keep the order of the page: read in pre-order (each block, then its
/// descendants) their lines strictly increase, and each block comes from a
/// non-blank line of the page.
pub proof fn law_blocks_in_page_order(input: Seq<char>)
    ensures
        parse_result(input) matches Ok(d) ==> {
            let pre = preorder(top_blocks(d.items));
            let ls = lines_of(input);
            &&& forall|i: int, j: int| 0 <= i < j < pre.len() ==> #[trigger] pre[i].line < #[trigger] pre[j].line
            &&& forall|i: int| 0 <= i < pre.len() ==> 1 <= #[trigger] pre[i].line <= ls.len() && !all_ws(ls[pre[i].line - 1])
        },
{
    if !all_ws(input) {
        let ls = lines_of(input);
        lemma_scan_ok(ls, 0, Seq::empty());
        if let ScanOutcome::Done(es) = scan(ls, 0, Seq::empty()) {
            lemma_merge_parts(tree_of(es), blanks_from(ls, 0));
            lemma_tree_order(es, None, 0, 0, ls.len() as int + 1, ls);
            lemma_preorder(tree_of(es), 0, ls.len() as int + 1, ls);
        }
    }
}

proof fn lemma_blank_step(ls: Seq<Seq<char>>, idx: int, es: Seq<(nat, SpecBlock)>)
    requires
        0 <= idx < ls.len(),
        all_ws(ls[idx]),
    ensures
        scan(ls, idx, es) == scan(ls, idx + 1, es),
        blanks_from(ls, idx) == seq![(idx + 1) as nat] + blanks_from(ls, idx + 1),
{
}

/// The line an item stands for.
pub open spec fn item_line(n: SpecNode) -> nat {
    match n {
        SpecNode::Block(b) => b.line,
        SpecNode::BlankLine { line } => line,
    }
}

proof fn lemma_blanks_from(ls: Seq<Seq<char>>, idx: int)
    requires
        0 <= idx,
    ensures
        forall|i: int, j: int| 0 <= i < j < blanks_from(ls, idx).len() ==> #[trigger] blanks_from(ls, idx)[i]
            < #[trigger] blanks_from(ls, idx)[j],
        forall|i: int| 0 <= i < blanks_from(ls, idx).len() ==> idx + 1 <= #[trigger] blanks_from(ls, idx)[i] <= ls.len()
            && all_ws(ls[blanks_from(ls, idx)[i] - 1]),
    decreases ls.len() - idx,
{
    if idx < ls.len() {
        if all_ws(ls[idx]) {
            lemma_blanks_from(ls, idx + 1);
            let r = blanks_from(ls, idx + 1);
            let b = seq![(idx + 1) as nat] + r;
            assert(blanks_from(ls, idx) == b);
            assert forall|i: int| 0 <= i < b.len() implies idx + 1 <= #[trigger] b[i] <= ls.len() && all_ws(
                ls[b[i] - 1],
            ) by {
                if i > 0 {
                    assert(b[i] == r[i - 1]);
                }
            }
            assert forall|i: int, j: int| 0 <= i < j < b.len() implies #[trigger] b[i] < #[trigger] b[j] by {
                assert(b[j] == r[j - 1]);
                if i > 0 {
                    assert(b[i] == r[i - 1]);
                }
            }
        } else {
            match fence_open_of(split_indent_of(ls[idx]).1) {
                Some(_) => match fence_end(ls, idx + 1) {
                    FenceEnd::At(k) => {
                        lemma_fence_end_range(ls, idx + 1);
                        lemma_blanks_from(ls, k + 1);
                        assert(blanks_from(ls, idx) == blanks_from(ls, k + 1));
                    },
                    FenceEnd::Unclosed => {
                        assert(blanks_from(ls, idx) =~= Seq::<nat>::empty());
                    },
                },
                None => {
                    lemma_blanks_from(ls, idx + 1);
                    assert(blanks_from(ls, idx) == blanks_from(ls, idx + 1));
                },
            }
        }
    }
}

proof fn lemma_merge_order(bs: Seq<SpecBlock>, bl: Seq<nat>, top: int)
    requires
        forall|i: int, j: int| 0 <= i < j < bs.len() ==> #[trigger] bs[i].line < #[trigger] bs[j].line,
        forall|i: int, j: int| 0 <= i < j < bl.len() ==> #[trigger] bl[i] < #[trigger] bl[j],
        forall|i: int, j: int| 0 <= i < bs.len() && 0 <= j < bl.len() ==> #[trigger] bs[i].line != #[trigger] bl[j],
        forall|i: int| 0 <= i < bs.len() ==> #[trigger] bs[i].line <= top,
        forall|j: int| 0 <= j < bl.len() ==> #[trigger] bl[j] <= top,
    ensures
        forall|i: int, j: int| 0 <= i < j < merge_nodes(bs, bl).len() ==> item_line(#[trigger] merge_nodes(bs, bl)[i])
            < item_line(#[trigger] merge_nodes(bs, bl)[j]),
        forall|i: int| 0 <= i < merge_nodes(bs, bl).len() ==> item_line(#[trigger] merge_nodes(bs, bl)[i]) <= top,
    decreases bs.len() + bl.len(),
{
    if bs.len() == 0 && bl.len() == 0 {
    } else if bl.len() == 0 || (bs.len() > 0 && bs.last().line > bl.last()) {
        let x = bs.last();
        let f = bs.drop_last();
        assert forall|i: int| 0 <= i < f.len() implies #[trigger] f[i].line <= x.line - 1 by {
            assert(f[i] == bs[i]);
            assert(bs[i].line < bs[bs.len() - 1].line);
        }
        assert forall|j: int| 0 <= j < bl.len() implies #[trigger] bl[j] <= x.line - 1 by {
            if j < bl.len() - 1 {
                assert(bl[j] < bl[bl.len() - 1]);
            }
        }
        assert forall|i: int, j: int| 0 <= i < f.len() && 0 <= j < bl.len() implies #[trigger] f[i].line != #[trigger] bl[j] by {
            assert(f[i] == bs[i]);
        }
        lemma_merge_order(f, bl, x.line - 1);
        assert(bs[bs.len() - 1] == x);
        let m0 = merge_nodes(f, bl);
        let m = m0.push(SpecNode::Block(x));
        assert(merge_nodes(bs, bl) == m);
        assert forall|i: int, j: int| 0 <= i < j < m.len() implies item_line(#[trigger] m[i]) < item_line(#[trigger] m[j]) by {
            assert(m[i] == m0[i]);
            if j < m0.len() {
                assert(m[j] == m0[j]);
            }
        }
        assert forall|i: int| 0 <= i < m.len() implies item_line(#[trigger] m[i]) <= top by {
            if i < m0.len() {
                assert(m[i] == m0[i]);
            }
        }
    } else {
        let y = bl.last();
        let f = bl.drop_last();
        assert(bl[bl.len() - 1] == y);
        if bs.len() > 0 {
            assert(bs[bs.len() - 1].line != bl[bl.len() - 1]);
        }
        assert forall|i: int| 0 <= i < bs.len() implies #[trigger] bs[i].line <= y - 1 by {
            if i < bs.len() - 1 {
                assert(bs[i].line < bs[bs.len() - 1].line);
            }
            assert(bs[i].line != bl[bl.len() - 1]);
        }
        assert forall|j: int| 0 <= j < f.len() implies #[trigger] f[j] <= y - 1 by {
            assert(f[j] == bl[j]);
            assert(bl[j] < bl[bl.len() - 1]);
        }
        assert forall|i: int, j: int| 0 <= i < bs.len() && 0 <= j < f.len() implies #[trigger] bs[i].line != #[trigger] f[j] by {
            assert(f[j] == bl[j]);
        }
        lemma_merge_order(bs, f, y - 1);
        let m0 = merge_nodes(bs, f);
        let m = m0.push(SpecNode::BlankLine { line: y });
        assert(merge_nodes(bs, bl) == m);
        assert forall|i: int, j: int| 0 <= i < j < m.len() implies item_line(#[trigger] m[i]) < item_line(#[trigger] m[j]) by {
            assert(m[i] == m0[i]);
            if j < m0.len() {
                assert(m[j] == m0[j]);
            }
        }
        assert forall|i: int| 0 <= i < m.len() implies item_line(#[trigger] m[i]) <= top by {
            if i < m0.len() {
                assert(m[i] == m0[i]);
            }
        }
    }
}

/// The page's items follow its lines: their line numbers strictly increase,
/// and a blank-line item stands for a line of the page holding only
/// whitespace, with its own line number.
pub proof fn law_items_follow_the_page(input: Seq<char>)
    ensures
        parse_result(input) matches Ok(d) ==> {
            let ls = lines_of(input);
            &&& forall|i: int, j: int| 0 <= i < j < d.items.len() ==> item_line(#[trigger] d.items[i])
                < item_line(#[trigger] d.items[j])
            &&& forall|i: int|
                0 <= i < d.items.len() ==> 1 <= item_line(#[trigger] d.items[i]) <= ls.len() && (d.items[i] is BlankLine
                    <==> all_ws(ls[item_line(d.items[i]) - 1]))
        },
{
    if !all_ws(input) {
        let ls = lines_of(input);
        lemma_scan_ok(ls, 0, Seq::empty());
        if let ScanOutcome::Done(es) = scan(ls, 0, Seq::empty()) {
            let bs = tree_of(es);
            let bl = blanks_from(ls, 0);
            lemma_tree_placed(es, None, 0, 0, ls.len() as int);
            lemma_tree_order(es, None, 0, 0, ls.len() as int + 1, ls);
            lemma_blanks_from(ls, 0);
            assert forall|i: int, j: int| 0 <= i < bs.len() && 0 <= j < bl.len() implies #[trigger] bs[i].line
                != #[trigger] bl[j] by {
                assert(!all_ws(ls[bs[i].line - 1]));
            }
            lemma_merge_order(bs, bl, ls.len() as int);
            let m = merge_nodes(bs, bl);
            assert forall|i: int| 0 <= i < m.len() implies 1 <= item_line(#[trigger] m[i]) <= ls.len() && (m[i] is BlankLine
                <==> all_ws(ls[item_line(m[i]) - 1])) by {
                lemma_merge_members(bs, bl, i);
            }
        }
    }
}

/// Every item of a merge is one of the blocks or one of the blank lines.
proof fn lemma_merge_members(bs: Seq<SpecBlock>, bl: Seq<nat>, i: int)
    requires
        0 <= i < merge_nodes(bs, bl).len(),
    ensures
        merge_nodes(bs, bl)[i] matches SpecNode::Block(b) ==> exists|k: int| 0 <= k < bs.len() && #[trigger] bs[k] == b,
        merge_nodes(bs, bl)[i] matches SpecNode::BlankLine { line } ==> exists|k: int| 0 <= k < bl.len() && #[trigger] bl[k] == line,
    decreases bs.len() + bl.len(),
{
    if bs.len() == 0 && bl.len() == 0 {
    } else if bl.len() == 0 || (bs.len() > 0 && bs.last().line > bl.last()) {
        let f = bs.drop_last();
        if i < merge_nodes(f, bl).len() {
            lemma_merge_members(f, bl, i);
            if let SpecNode::Block(b) = merge_nodes(bs, bl)[i] {
                let k = choose|k: int| 0 <= k < f.len() && #[trigger] f[k] == b;
                assert(bs[k] == f[k]);
            }
        } else {
            assert(bs[bs.len() - 1] == bs.last());
        }
    } else {
        let f = bl.drop_last();
        if i < merge_nodes(bs, f).len() {
            lemma_merge_members(bs, f, i);
            if let SpecNode::BlankLine { line } = merge_nodes(bs, bl)[i] {
                let k = choose|k: int| 0 <= k < f.len() && #[trigger] f[k] == line;
                assert(bl[k] == f[k]);
            }
        } else {
            assert(bl[bl.len() - 1] == bl.last());
        }
    }
}

pub open spec fn lines_nat(v: Seq<usize>) -> Seq<nat> {
    v.map_values(|x: usize| x as nat)
}

/// Interleave the top-level blocks with the blank lines by line number.
fn merge_items(blocks: Vec<Block>, blanks: Vec<usize>) -> (r: Vec<Node>)
    ensures
        nodes_view(r@) == merge_nodes(blocks_view(blocks@), lines_nat(blanks@)),
{
    let ghost target = merge_nodes(blocks_view(blocks@), lines_nat(blanks@));
    let mut blocks = blocks;
    let mut blanks = blanks;
    let mut out: Vec<Node> = Vec::new();
    assert(target =~= merge_nodes(blocks_view(blocks@), lines_nat(blanks@)) + nodes_view(out@));
    while blocks.len() > 0 || blanks.len() > 0
        invariant
            target == merge_nodes(blocks_view(blocks@), lines_nat(blanks@)) + nodes_view(out@),
        decreases blocks@.len() + blanks@.len(),
    {
        let ghost bs = blocks_view(blocks@);
        let ghost bl = lines_nat(blanks@);
        let ghost before = nodes_view(out@);
        let nb = blocks.len();
        let nl = blanks.len();
        if nl == 0 || (nb > 0 && blocks[nb - 1].line > blanks[nl - 1]) {
            proof {
                assert(bs.last() == block_view(blocks@[nb - 1]));
            }
            let b = blocks.pop().unwrap();
            let node = Node::Block(b);
            out.insert(0, node);
            proof {
                assert(blocks_view(blocks@) =~= bs.drop_last());
                assert(nodes_view(out@) =~= seq![node_view(node)] + before);
                assert(merge_nodes(bs, bl) =~= merge_nodes(bs.drop_last(), bl).push(node_view(node)));
                assert(target =~= merge_nodes(blocks_view(blocks@), lines_nat(blanks@)) + nodes_view(out@));
            }
        } else {
            let l = blanks.pop().unwrap();
            let node = Node::BlankLine { line: l };
            out.insert(0, node);
            proof {
                assert(lines_nat(blanks@) =~= bl.drop_last());
                assert(nodes_view(out@) =~= seq![node_view(node)] + before);
                assert(merge_nodes(bs, bl) =~= merge_nodes(bs, bl.drop_last()).push(node_view(node)));
                assert(target =~= merge_nodes(blocks_view(blocks@), lines_nat(blanks@)) + nodes_view(out@));
            }
        }
    }
    assert(merge_nodes(blocks_view(blocks@), lines_nat(blanks@)) =~= Seq::<SpecNode>::empty());
    assert(target =~= nodes_view(out@));
    out
}

/// Parse a Logseq markdown page into an AST.
///
/// Bulleted lines (`- ` or `* `) and plain text lines become blocks at their
/// indentation level (two spaces, or one tab, per level); fenced code
/// (```lang ... ```) becomes a block holding one code-block node; property
/// lines (`key:: value`) attach to the latest block; blank lines become
/// blank-line items between the top-level blocks. A block's parent is the
/// latest earlier block indented less.
#[verifier::rlimit(50)]
pub fn parse(input: &str) -> (r: Result<Document, ParseError>)
    requires
        input@.len() <= isize::MAX,
    ensures
        result_view(r) == parse_result(input@),
{
    let chars = chars_of(input);
    if is_blank(&chars) {
        return Err(ParseError::Empty);
    }
    let lines = split_lines(&chars);
    let ghost ls = lines_view(lines@);
    proof {
        lemma_lines_len(input@, 0);
    }
    let mut entries: Vec<(usize, Block)> = Vec::new();
    let mut stack: Vec<(usize, usize)> = Vec::new();
    let mut parents: Vec<Option<usize>> = Vec::new();
    let mut blanks: Vec<usize> = Vec::new();
    proof {
        assert(entries_view(entries@) =~= Seq::<(nat, SpecBlock)>::empty());
        assert(lines_nat(blanks@) + blanks_from(ls, 0) =~= blanks_from(ls, 0));
    }
    let mut idx0: usize = 0;
    proof {
        assert forall|i: int| 0 <= i < lines@.len() implies (#[trigger] lines@[i])@.len() <= isize::MAX by {
            assert(lines@[i]@ == ls[i]);
        }
    }
    while idx0 < lines.len()
        invariant
            idx0 <= lines@.len(),
            ls == lines_view(lines@),
            ls == lines_of(input@),
            !all_ws(input@),
            forall|i: int| 0 <= i < lines@.len() ==> (#[trigger] lines@[i])@.len() <= isize::MAX,
            scan(ls, 0, Seq::empty()) == scan(ls, idx0 as int, entries_view(entries@)),
            blanks_from(ls, 0) == lines_nat(blanks@) + blanks_from(ls, idx0 as int),
            stack_ok(levels_of(entries_view(entries@)), stack@),
            parents_ok(levels_of(entries_view(entries@)), parents@),
        decreases lines@.len() - idx0,
    {
        let ghost before = lines_nat(blanks@);
        if is_blank(&lines[idx0]) {
            assert(lines@[idx0 as int]@ == ls[idx0 as int]);
            proof {
                lemma_blank_step(ls, idx0 as int, entries_view(entries@));
            }
            blanks.push(idx0 + 1);
            idx0 = idx0 + 1;
            proof {
                assert(lines_nat(blanks@) =~= before.push(idx0 as nat));
                assert(lines_nat(blanks@) + blanks_from(ls, idx0 as int) =~= before + (seq![idx0 as nat]
                    + blanks_from(ls, idx0 as int)));
            }
        } else {
            assert(lines@[idx0 as int]@ == ls[idx0 as int]);
            match parse_line(&lines, idx0, &mut entries, &mut stack, &mut parents) {
                Ok(next) => idx0 = next,
                Err(e) => return Err(e),
            }
        }
    }
    proof {
        assert(lines_nat(blanks@) + blanks_from(ls, idx0 as int) =~= lines_nat(blanks@));
    }
    let blocks = build_tree(entries, parents);
    let items = merge_items(blocks, blanks);
    Ok(Document { version: 1, items })
}

} // verus!
