use crate::ast::{inline_view, inlines_view, EmbedTarget, Inline, SpecEmbedTarget, SpecInline};
use crate::text::{
    chars_of, ends_with_exec, find_exec, is_whitespace, push_all, find_from, is_ws, lemma_find_from, matches_at, matches_at_exec,
    slice_of, starts_with_exec, string_from_chars, trim, trim_of,
};
use vstd::prelude::*;

verus! {

// ---------------------------------------------------------------------------
// Coalescing adjacent text nodes
// ---------------------------------------------------------------------------

/// Appends `v` to a trailing `Text` node, or adds a new `Text` node.
pub open spec fn push_text(acc: Seq<SpecInline>, v: Seq<char>) -> Seq<SpecInline> {
    if acc.len() > 0 && acc.last() is Text {
        acc.drop_last().push(SpecInline::Text { value: acc.last()->Text_value + v })
    } else {
        acc.push(SpecInline::Text { value: v })
    }
}

/// One step of text coalescing: empty text disappears, text merges with a
/// preceding text node, anything else is appended.
pub open spec fn coalesce_step(acc: Seq<SpecInline>, n: SpecInline) -> Seq<SpecInline> {
    match n {
        SpecInline::Text { value } => if value.len() == 0 {
            acc
        } else {
            push_text(acc, value)
        },
        _ => acc.push(n),
    }
}

pub open spec fn coalesce_into(acc: Seq<SpecInline>, ns: Seq<SpecInline>) -> Seq<SpecInline>
    decreases ns.len(),
{
    if ns.len() == 0 {
        acc
    } else {
        coalesce_into(coalesce_step(acc, ns[0]), ns.drop_first())
    }
}

/// Merge adjacent text nodes and drop empty ones.
pub open spec fn coalesce(ns: Seq<SpecInline>) -> Seq<SpecInline> {
    coalesce_into(Seq::empty(), ns)
}

/// No empty text node and no two adjacent text nodes.
pub open spec fn is_coalesced(ns: Seq<SpecInline>) -> bool {
    &&& forall|i: int| 0 <= i < ns.len() && (#[trigger] ns[i] is Text) ==> ns[i]->Text_value.len() > 0
    &&& forall|i: int| 0 <= i < ns.len() - 1 && (#[trigger] ns[i] is Text) ==> !(ns[i + 1] is Text)
}

pub proof fn lemma_coalesce_into_unfold(acc: Seq<SpecInline>, ns: Seq<SpecInline>, i: int)
    requires
        0 <= i < ns.len(),
    ensures
        coalesce_into(acc, ns.skip(i)) == coalesce_into(coalesce_step(acc, ns[i]), ns.skip(i + 1)),
{
    assert(ns.skip(i).drop_first() =~= ns.skip(i + 1));
    assert(ns.skip(i)[0] == ns[i]);
}

pub proof fn lemma_coalesce_step_keeps(acc: Seq<SpecInline>, n: SpecInline)
    requires
        is_coalesced(acc),
    ensures
        is_coalesced(coalesce_step(acc, n)),
{
    let r = coalesce_step(acc, n);
    if n is Text && n->Text_value.len() > 0 && acc.len() > 0 && acc.last() is Text {
        assert forall|i: int| 0 <= i < r.len() && (#[trigger] r[i] is Text) implies r[i]->Text_value.len() > 0 by {
            if i < r.len() - 1 {
                assert(r[i] == acc[i]);
            }
        }
        assert forall|i: int| 0 <= i < r.len() - 1 && (#[trigger] r[i] is Text) implies !(r[i + 1] is Text) by {
            assert(r[i] == acc[i]);
            if i + 1 < r.len() - 1 {
                assert(r[i + 1] == acc[i + 1]);
            } else {
                assert(acc[i + 1] == acc.last());
            }
        }
    } else if n is Text && n->Text_value.len() > 0 {
        assert forall|i: int| 0 <= i < r.len() - 1 && (#[trigger] r[i] is Text) implies !(r[i + 1] is Text) by {
            assert(r[i] == acc[i]);
            if i + 1 < r.len() - 1 {
                assert(r[i + 1] == acc[i + 1]);
            }
        }
        assert forall|i: int| 0 <= i < r.len() && (#[trigger] r[i] is Text) implies r[i]->Text_value.len() > 0 by {
            if i < r.len() - 1 {
                assert(r[i] == acc[i]);
            }
        }
    } else if !(n is Text) {
        assert forall|i: int| 0 <= i < r.len() - 1 && (#[trigger] r[i] is Text) implies !(r[i + 1] is Text) by {
            assert(r[i] == acc[i]);
            if i + 1 < r.len() - 1 {
                assert(r[i + 1] == acc[i + 1]);
            }
        }
        assert forall|i: int| 0 <= i < r.len() && (#[trigger] r[i] is Text) implies r[i]->Text_value.len() > 0 by {
            if i < r.len() - 1 {
                assert(r[i] == acc[i]);
            }
        }
    }
}

pub proof fn lemma_coalesce_into_keeps(acc: Seq<SpecInline>, ns: Seq<SpecInline>)
    requires
        is_coalesced(acc),
    ensures
        is_coalesced(coalesce_into(acc, ns)),
    decreases ns.len(),
{
    if ns.len() > 0 {
        lemma_coalesce_step_keeps(acc, ns[0]);
        lemma_coalesce_into_keeps(coalesce_step(acc, ns[0]), ns.drop_first());
    }
}

/// The result of coalescing is coalesced.
pub proof fn lemma_coalesce_is_coalesced(ns: Seq<SpecInline>)
    ensures
        is_coalesced(coalesce(ns)),
{
    lemma_coalesce_into_keeps(Seq::empty(), ns);
}

/// Coalescing a coalesced sequence onto a compatible prefix just appends it.
pub proof fn lemma_coalesce_into_identity(acc: Seq<SpecInline>, ns: Seq<SpecInline>)
    requires
        is_coalesced(acc + ns),
    ensures
        coalesce_into(acc, ns) == acc + ns,
    decreases ns.len(),
{
    if ns.len() == 0 {
        assert(acc + ns =~= acc);
    } else {
        let all = acc + ns;
        assert(all[acc.len() as int] == ns[0]);
        if ns[0] is Text {
            assert(ns[0]->Text_value.len() > 0);
            if acc.len() > 0 {
                assert(all[acc.len() - 1] == acc.last());
            }
        }
        let acc2 = coalesce_step(acc, ns[0]);
        assert(acc2 =~= acc.push(ns[0]));
        assert(acc2 + ns.drop_first() =~= all);
        lemma_coalesce_into_identity(acc2, ns.drop_first());
    }
}

/// Coalescing is idempotent.
pub proof fn lemma_coalesce_idempotent(ns: Seq<SpecInline>)
    requires
        is_coalesced(ns),
    ensures
        coalesce(ns) == ns,
{
    assert(Seq::<SpecInline>::empty() + ns =~= ns);
    lemma_coalesce_into_identity(Seq::empty(), ns);
}

/// Merge adjacent text nodes and drop empty ones.
pub(crate) fn coalesce_text(nodes: Vec<Inline>) -> (r: Vec<Inline>)
    ensures
        inlines_view(r@) == coalesce(inlines_view(nodes@)),
{
    let ghost ns = inlines_view(nodes@);
    let mut out: Vec<Inline> = Vec::new();
    proof {
        assert(inlines_view(out@) =~= Seq::<SpecInline>::empty());
        assert(ns.skip(0) =~= ns);
    }
    for n in it: nodes
        invariant
            it.seq() == nodes@,
            ns == inlines_view(nodes@),
            coalesce(ns) == coalesce_into(inlines_view(out@), ns.skip(it.index() as int)),
    {
        proof {
            lemma_coalesce_into_unfold(inlines_view(out@), ns, it.index() as int);
        }
        match n {
            Inline::Text { value } => {
                if !value.as_str().is_empty() {
                    push_text_if_needed(&mut out, value.as_str());
                }
            },
            other => {
                let ghost before = inlines_view(out@);
                out.push(other);
                proof {
                    assert(inlines_view(out@) =~= before.push(inline_view(other)));
                }
            },
        }
    }
    proof {
        assert(ns.skip(ns.len() as int) =~= Seq::<SpecInline>::empty());
    }
    out
}

/// Append `text` to the trailing text node of `out`, or push a new text node
/// (nothing happens for an empty `text`).
pub(crate) fn push_text_if_needed(out: &mut Vec<Inline>, text: &str)
    ensures
        inlines_view(final(out)@) == coalesce_step(inlines_view(old(out)@), SpecInline::Text { value: text@ }),
{
    if text.is_empty() {
        return;
    }
    let n = out.len();
    if n > 0 {
        if let Inline::Text { value } = &mut out[n - 1] {
            value.append(text);
            proof {
                assert(inlines_view(final(out)@) =~= coalesce_step(inlines_view(old(out)@), SpecInline::Text { value: text@ }));
            }
            return;
        }
    }
    out.push(Inline::Text { value: text.to_owned() });
    proof {
        assert(inlines_view(final(out)@) =~= coalesce_step(inlines_view(old(out)@), SpecInline::Text { value: text@ }));
    }
}

// ---------------------------------------------------------------------------
// The inline grammar
// ---------------------------------------------------------------------------

pub open spec fn lit_embed_open() -> Seq<char> {
    seq!['{', '{', 'e', 'm', 'b', 'e', 'd', ' ']
}

pub open spec fn lit_open_page() -> Seq<char> {
    seq!['[', '[']
}

pub open spec fn lit_close_page() -> Seq<char> {
    seq![']', ']']
}

pub open spec fn lit_open_block() -> Seq<char> {
    seq!['(', '(']
}

pub open spec fn lit_close_block() -> Seq<char> {
    seq![')', ')']
}

pub open spec fn lit_close_embed() -> Seq<char> {
    seq!['}', '}']
}

pub open spec fn lit_tag_page() -> Seq<char> {
    seq!['#', '[', '[']
}

/// Characters that end a `#word` tag.
pub open spec fn is_tag_stop(c: char) -> bool {
    c == ',' || c == '.' || c == ';' || c == ':' || c == '!' || c == '?' || c == ')' || c == ']'
        || c == '}' || c == '"' || c == '\''
}

/// `[[page]]` (after trimming): the text between the brackets.
pub open spec fn page_ref_of(s: Seq<char>) -> Option<Seq<char>> {
    let st = trim(s);
    if matches_at(st, lit_open_page(), 0) && matches_at(st, lit_close_page(), st.len() - 2)
        && st.len() >= 4 {
        Some(st.subrange(2, st.len() - 2))
    } else {
        None
    }
}

/// `((uuid))` (after trimming): the trimmed text between the parentheses.
pub open spec fn block_ref_of(s: Seq<char>) -> Option<Seq<char>> {
    let st = trim(s);
    if matches_at(st, lit_open_block(), 0) && matches_at(st, lit_close_block(), st.len() - 2)
        && st.len() >= 4 {
        Some(trim(st.subrange(2, st.len() - 2)))
    } else {
        None
    }
}

/// The target of `{{embed ...}}`.
pub open spec fn embed_target_of(inner: Seq<char>) -> Option<SpecEmbedTarget> {
    match page_ref_of(inner) {
        Some(o) => Some(SpecEmbedTarget::PageRef { title: trim(o), original: o }),
        None => match block_ref_of(inner) {
            Some(u) => Some(SpecEmbedTarget::BlockRef { uuid: u }),
            None => None,
        },
    }
}

/// A link target that looks like a URL or a path.
pub open spec fn is_url(s: Seq<char>) -> bool {
    let st = trim(s);
    ||| matches_at(st, seq!['h', 't', 't', 'p', ':', '/', '/'], 0)
    ||| matches_at(st, seq!['h', 't', 't', 'p', 's', ':', '/', '/'], 0)
    ||| matches_at(st, seq!['f', 'i', 'l', 'e', ':'], 0)
    ||| matches_at(st, seq!['/'], 0)
    ||| matches_at(st, seq!['.', '/'], 0)
    ||| matches_at(st, seq!['.', '.', '/'], 0)
}

/// Scan for the parenthesis that brings the nesting depth back to zero.
pub open spec fn paren_scan(s: Seq<char>, i: int, depth: int) -> Option<int>
    decreases s.len() - i,
{
    if i < 0 || i >= s.len() {
        None
    } else if s[i] == '(' {
        paren_scan(s, i + 1, depth + 1)
    } else if s[i] == ')' {
        if depth - 1 == 0 {
            Some(i)
        } else {
            paren_scan(s, i + 1, depth - 1)
        }
    } else {
        paren_scan(s, i + 1, depth)
    }
}

/// The index of the parenthesis closing the one at `open`.
pub open spec fn matching_paren(s: Seq<char>, open: int) -> Option<int> {
    paren_scan(s, open, 0)
}

/// `` `code` `` at position `i`; the node and the position after it.
pub open spec fn code_span_at(s: Seq<char>, i: int) -> Option<(SpecInline, int)> {
    if s[i] != '`' {
        None
    } else {
        match find_from(s, seq!['`'], i + 1) {
            Some(j) => Some((SpecInline::CodeSpan { code: s.subrange(i + 1, j) }, j + 1)),
            None => None,
        }
    }
}

/// `{{embed [[page]]}}` or `{{embed ((uuid))}}` at position `i`.
pub open spec fn embed_at(s: Seq<char>, i: int) -> Option<(SpecInline, int)> {
    if !matches_at(s, lit_embed_open(), i) {
        None
    } else {
        match find_from(s, lit_close_embed(), i) {
            Some(e) => match embed_target_of(trim(s.subrange(i + 8, e))) {
                Some(t) => Some((SpecInline::Embed { target: t }, e + 2)),
                None => None,
            },
            None => None,
        }
    }
}

/// `[[page]]` at position `i`.
pub open spec fn page_ref_at(s: Seq<char>, i: int) -> Option<(SpecInline, int)> {
    if !matches_at(s, lit_open_page(), i) {
        None
    } else {
        match find_from(s, lit_close_page(), i + 2) {
            Some(e) => {
                let inner = s.subrange(i + 2, e);
                Some((SpecInline::PageRef { title: trim(inner), original: inner }, e + 2))
            },
            None => None,
        }
    }
}

/// `((uuid))` at position `i`.
pub open spec fn block_ref_at(s: Seq<char>, i: int) -> Option<(SpecInline, int)> {
    if !matches_at(s, lit_open_block(), i) {
        None
    } else {
        match find_from(s, lit_close_block(), i + 2) {
            Some(e) => Some((SpecInline::BlockRef { uuid: trim(s.subrange(i + 2, e)) }, e + 2)),
            None => None,
        }
    }
}

/// The end of a `#word` tag starting before `j`.
pub open spec fn word_end(s: Seq<char>, j: int) -> int
    decreases s.len() - j,
{
    if j < 0 || j >= s.len() || is_ws(s[j]) || is_tag_stop(s[j]) {
        j
    } else {
        word_end(s, j + 1)
    }
}

/// `#[[multi word]]` or `#word` at position `i`.
pub open spec fn tag_at(s: Seq<char>, i: int) -> Option<(SpecInline, int)> {
    if s[i] != '#' {
        None
    } else if matches_at(s, lit_tag_page(), i) {
        match find_from(s, lit_close_page(), i + 3) {
            Some(e) => {
                let inner = s.subrange(i + 3, e);
                Some((SpecInline::Tag { title: trim(inner), original: inner }, e + 2))
            },
            None => None,
        }
    } else {
        let j = word_end(s, i + 1);
        if j <= i + 1 {
            None
        } else {
            let inner = s.subrange(i + 1, j);
            Some((SpecInline::Tag { title: trim(inner), original: inner }, j))
        }
    }
}

/// `[label](target)` at position `i`, where the target is a page reference,
/// a block reference or something that looks like a URL.
pub open spec fn labeled_link_at(s: Seq<char>, i: int) -> Option<(SpecInline, int)>
    decreases s.len(), 0int, 0int,
{
    if i < 0 || i >= s.len() || s[i] != '[' {
        None
    } else {
        match find_from(s, seq![']'], i + 1) {
            None => None,
            Some(cb) => {
                if cb + 1 >= s.len() || s[cb + 1] != '(' {
                    None
                } else {
                    match matching_paren(s, cb + 1) {
                        None => None,
                        Some(cp) => {
                            proof {
                                lemma_find_from(s, seq![']'], i + 1);
                            }
                            let label = s.subrange(i + 1, cb);
                            let target = s.subrange(cb + 2, cp);
                            match page_ref_of(target) {
                                Some(o) => Some((SpecInline::Link {
                                    label: tokenize(label),
                                    url: lit_open_page() + o + lit_close_page(),
                                }, cp + 1)),
                                None => match block_ref_of(target) {
                                    Some(u) => Some((SpecInline::Link {
                                        label: tokenize(label),
                                        url: lit_open_block() + u + lit_close_block(),
                                    }, cp + 1)),
                                    None => if is_url(target) {
                                        Some((SpecInline::Link { label: tokenize(label), url: target }, cp + 1))
                                    } else {
                                        None
                                    },
                                },
                            }
                        },
                    }
                }
            },
        }
    }
}

/// The first recognizer, in priority order, that matches at position `i`.
pub open spec fn first_token_at(s: Seq<char>, i: int) -> Option<(SpecInline, int)>
    decreases s.len(), 1int, 0int,
{
    if code_span_at(s, i) is Some {
        code_span_at(s, i)
    } else if embed_at(s, i) is Some {
        embed_at(s, i)
    } else if labeled_link_at(s, i) is Some {
        labeled_link_at(s, i)
    } else if page_ref_at(s, i) is Some {
        page_ref_at(s, i)
    } else if block_ref_at(s, i) is Some {
        block_ref_at(s, i)
    } else {
        tag_at(s, i)
    }
}

/// The nodes produced from position `i` on, before coalescing: recognized
/// constructs, and one text node per remaining character.
pub open spec fn raw_from(s: Seq<char>, i: int) -> Seq<SpecInline>
    decreases s.len(), 2int, s.len() - i,
{
    if i < 0 || i >= s.len() {
        Seq::empty()
    } else {
        match first_token_at(s, i) {
            Some((n, j)) if i < j <= s.len() => seq![n] + raw_from(s, j),
            _ => seq![SpecInline::Text { value: seq![s[i]] }] + raw_from(s, i + 1),
        }
    }
}

/// The inline nodes of a block's text.
pub open spec fn tokenize(s: Seq<char>) -> Seq<SpecInline>
    decreases s.len(), 3int, 0int,
{
    coalesce(raw_from(s, 0))
}

// ---------------------------------------------------------------------------
// Executable tokenizer
// ---------------------------------------------------------------------------

pub open spec fn opt_chars(o: Option<Vec<char>>) -> Option<Seq<char>> {
    match o {
        Some(v) => Some(v@),
        None => None,
    }
}

pub open spec fn opt_target(o: Option<EmbedTarget>) -> Option<SpecEmbedTarget> {
    match o {
        Some(t) => Some(t@),
        None => None,
    }
}

fn embed_open() -> (r: Vec<char>)
    ensures
        r@ == lit_embed_open(),
{
    let r = vec!['{', '{', 'e', 'm', 'b', 'e', 'd', ' '];
    assert(r@ =~= lit_embed_open());
    r
}

fn open_page() -> (r: Vec<char>)
    ensures
        r@ == lit_open_page(),
{
    let r = vec!['[', '['];
    assert(r@ =~= lit_open_page());
    r
}

fn close_page() -> (r: Vec<char>)
    ensures
        r@ == lit_close_page(),
{
    let r = vec![']', ']'];
    assert(r@ =~= lit_close_page());
    r
}

fn open_block() -> (r: Vec<char>)
    ensures
        r@ == lit_open_block(),
{
    let r = vec!['(', '('];
    assert(r@ =~= lit_open_block());
    r
}

fn close_block() -> (r: Vec<char>)
    ensures
        r@ == lit_close_block(),
{
    let r = vec![')', ')'];
    assert(r@ =~= lit_close_block());
    r
}

fn close_embed() -> (r: Vec<char>)
    ensures
        r@ == lit_close_embed(),
{
    let r = vec!['}', '}'];
    assert(r@ =~= lit_close_embed());
    r
}

fn tag_page() -> (r: Vec<char>)
    ensures
        r@ == lit_tag_page(),
{
    let r = vec!['#', '[', '['];
    assert(r@ =~= lit_tag_page());
    r
}

fn single(c: char) -> (r: Vec<char>)
    ensures
        r@ == seq![c],
{
    let r = vec![c];
    assert(r@ =~= seq![c]);
    r
}

/// `[[page]]` (after trimming): the text between the brackets.
fn parse_page_ref(s: &[char]) -> (r: Option<Vec<char>>)
    ensures
        opt_chars(r) == page_ref_of(s@),
{
    let st = trim_of(s);
    if starts_with_exec(&st, &open_page()) && ends_with_exec(&st, &close_page()) && st.len() >= 4 {
        Some(slice_of(&st, 2, st.len() - 2))
    } else {
        None
    }
}

/// `((uuid))` (after trimming): the trimmed text between the parentheses.
fn parse_block_ref(s: &[char]) -> (r: Option<Vec<char>>)
    ensures
        opt_chars(r) == block_ref_of(s@),
{
    let st = trim_of(s);
    if starts_with_exec(&st, &open_block()) && ends_with_exec(&st, &close_block()) && st.len() >= 4 {
        let inner = slice_of(&st, 2, st.len() - 2);
        Some(trim_of(&inner))
    } else {
        None
    }
}

/// Page titles are normalized conservatively: surrounding whitespace is trimmed.
fn normalize_page_title(s: &[char]) -> (r: String)
    ensures
        r@ == trim(s@),
{
    let t = trim_of(s);
    string_from_chars(&t)
}

fn parse_embed_target(inner: &[char]) -> (r: Option<EmbedTarget>)
    ensures
        opt_target(r) == embed_target_of(inner@),
{
    if let Some(p) = parse_page_ref(inner) {
        return Some(EmbedTarget::PageRef {
            title: normalize_page_title(&p),
            original: string_from_chars(&p),
        });
    }
    if let Some(uuid) = parse_block_ref(inner) {
        return Some(EmbedTarget::BlockRef { uuid: string_from_chars(&uuid) });
    }
    None
}

fn is_probably_url(s: &[char]) -> (r: bool)
    ensures
        r == is_url(s@),
{
    let st = trim_of(s);
    let http = vec!['h', 't', 't', 'p', ':', '/', '/'];
    let https = vec!['h', 't', 't', 'p', 's', ':', '/', '/'];
    let file = vec!['f', 'i', 'l', 'e', ':'];
    let slash = vec!['/'];
    let dot = vec!['.', '/'];
    let dotdot = vec!['.', '.', '/'];
    proof {
        assert(http@ =~= seq!['h', 't', 't', 'p', ':', '/', '/']);
        assert(https@ =~= seq!['h', 't', 't', 'p', 's', ':', '/', '/']);
        assert(file@ =~= seq!['f', 'i', 'l', 'e', ':']);
        assert(slash@ =~= seq!['/']);
        assert(dot@ =~= seq!['.', '/']);
        assert(dotdot@ =~= seq!['.', '.', '/']);
    }
    starts_with_exec(&st, &http) || starts_with_exec(&st, &https) || starts_with_exec(&st, &file)
        || starts_with_exec(&st, &slash) || starts_with_exec(&st, &dot) || starts_with_exec(&st, &dotdot)
}

/// The index of the parenthesis closing the one at `open`.
fn find_matching_paren(s: &[char], open: usize) -> (r: Option<usize>)
    requires
        open < s.len(),
        s@[open as int] == '(',
    ensures
        r matches Some(k) ==> matching_paren(s@, open as int) == Some(k as int) && open < k < s.len(),
        r is None ==> matching_paren(s@, open as int) is None,
{
    let mut depth: usize = 1;
    let mut i: usize = open + 1;
    while i < s.len()
        invariant
            open < i <= s.len(),
            1 <= depth <= i - open,
            matching_paren(s@, open as int) == paren_scan(s@, i as int, depth as int),
        decreases s.len() - i,
    {
        let c = s[i];
        if c == '(' {
            depth = depth + 1;
        } else if c == ')' {
            if depth == 1 {
                return Some(i);
            }
            depth = depth - 1;
        }
        i = i + 1;
    }
    None
}

/// A read position inside a block's characters.
pub(crate) struct Cursor<'a> {
    pub s: &'a [char],
    pub i: usize,
}

impl<'a> Cursor<'a> {
    fn new(s: &'a [char]) -> (r: Self)
        ensures
            r.s == s,
            r.i == 0,
    {
        Cursor { s, i: 0 }
    }

    fn is_eof(&self) -> (r: bool)
        ensures
            r == (self.i >= self.s.len()),
    {
        self.i >= self.s.len()
    }

    /// The character under the cursor.
    fn current(&self) -> (r: char)
        requires
            self.i < self.s.len(),
        ensures
            r == self.s@[self.i as int],
    {
        self.s[self.i]
    }

    fn starts_with(&self, pat: &[char]) -> (r: bool)
        ensures
            r == matches_at(self.s@, pat@, self.i as int),
    {
        matches_at_exec(self.s, pat, self.i)
    }

    fn advance(&mut self, n: usize)
        requires
            old(self).i + n <= old(self).s.len(),
        ensures
            final(self).s == old(self).s,
            final(self).i == old(self).i + n,
    {
        self.i = self.i + n;
    }

    fn take_char(&mut self) -> (r: char)
        requires
            old(self).i < old(self).s.len(),
        ensures
            final(self).s == old(self).s,
            final(self).i == old(self).i + 1,
            r == old(self).s@[old(self).i as int],
    {
        let c = self.s[self.i];
        self.advance(1);
        c
    }
}

/// What a recognizer owes: on a match, the node the grammar names and the
/// cursor moved past it; otherwise nothing and the cursor left in place.
spec fn recognized(
    spec_r: Option<(SpecInline, int)>,
    before: Cursor,
    after: Cursor,
    r: Option<Inline>,
) -> bool {
    &&& after.s == before.s
    &&& match spec_r {
        Some((n, j)) => {
            &&& r is Some
            &&& inline_view(r->0) == n
            &&& after.i == j
            &&& before.i < j <= before.s.len()
            &&& !(n is Text)
        },
        None => r is None && after.i == before.i,
    }
}

fn try_code_span(cur: &mut Cursor) -> (r: Option<Inline>)
    requires
        old(cur).i < old(cur).s.len(),
    ensures
        recognized(code_span_at(old(cur).s@, old(cur).i as int), *old(cur), *final(cur), r),
{
    if cur.current() != '`' {
        return None;
    }
    let s = cur.s;
    let i = cur.i;
    let tick = single('`');
    match find_exec(s, &tick, i + 1) {
        Some(j) => {
            proof {
                lemma_find_from(s@, tick@, i + 1);
            }
            let code = slice_of(s, i + 1, j);
            cur.advance(j + 1 - i);
            Some(Inline::CodeSpan { code: string_from_chars(&code) })
        },
        None => None,
    }
}

fn try_embed(cur: &mut Cursor) -> (r: Option<Inline>)
    requires
        old(cur).i < old(cur).s.len(),
    ensures
        recognized(embed_at(old(cur).s@, old(cur).i as int), *old(cur), *final(cur), r),
{
    let open = embed_open();
    if !cur.starts_with(&open) {
        return None;
    }
    let s = cur.s;
    let i = cur.i;
    let close = close_embed();
    let end = match find_exec(s, &close, i) {
        Some(e) => e,
        None => return None,
    };
    proof {
        lemma_find_from(s@, close@, i as int);
        // the closing braces cannot start inside the opening `{{embed `
        if end < i + 8 {
            assert(s@.subrange(end as int, end + 2)[0] == '}');
            assert(s@.subrange(i as int, i + 8)[end - i] == s@[end as int]);
            assert(false);
        }
    }
    let raw = slice_of(s, i + 8, end);
    let inner = trim_of(&raw);
    match parse_embed_target(&inner) {
        Some(target) => {
            cur.advance(end + 2 - i);
            Some(Inline::Embed { target })
        },
        None => None,
    }
}

/// Builds `open + middle + close`.
fn surround(open: &[char], middle: &[char], close: &[char]) -> (r: String)
    ensures
        r@ == open@ + middle@ + close@,
{
    let mut v: Vec<char> = Vec::new();
    push_all(&mut v, open);
    push_all(&mut v, middle);
    push_all(&mut v, close);
    string_from_chars(&v)
}

fn try_labeled_link_like(cur: &mut Cursor) -> (r: Option<Inline>)
    requires
        old(cur).i < old(cur).s.len(),
    ensures
        recognized(labeled_link_at(old(cur).s@, old(cur).i as int), *old(cur), *final(cur), r),
    decreases old(cur).s.len(), 0int,
{
    if cur.current() != '[' {
        return None;
    }
    let s = cur.s;
    let i = cur.i;
    let bracket = single(']');
    let close_bracket = match find_exec(s, &bracket, i + 1) {
        Some(cb) => cb,
        None => return None,
    };
    proof {
        lemma_find_from(s@, bracket@, i + 1);
    }
    let after = close_bracket + 1;
    if after >= s.len() || s[after] != '(' {
        return None;
    }
    let close_paren = match find_matching_paren(s, after) {
        Some(cp) => cp,
        None => return None,
    };
    let target = slice_of(s, after + 1, close_paren);
    let label_raw = slice_of(s, i + 1, close_bracket);
    if let Some(page) = parse_page_ref(&target) {
        cur.advance(close_paren + 1 - i);
        return Some(Inline::Link {
            label: tokenize_chars(&label_raw),
            url: surround(&open_page(), &page, &close_page()),
        });
    }
    if let Some(uuid) = parse_block_ref(&target) {
        cur.advance(close_paren + 1 - i);
        return Some(Inline::Link {
            label: tokenize_chars(&label_raw),
            url: surround(&open_block(), &uuid, &close_block()),
        });
    }
    if is_probably_url(&target) {
        cur.advance(close_paren + 1 - i);
        return Some(Inline::Link {
            label: tokenize_chars(&label_raw),
            url: string_from_chars(&target),
        });
    }
    None
}

fn try_page_ref(cur: &mut Cursor) -> (r: Option<Inline>)
    requires
        old(cur).i < old(cur).s.len(),
    ensures
        recognized(page_ref_at(old(cur).s@, old(cur).i as int), *old(cur), *final(cur), r),
{
    let open = open_page();
    if !cur.starts_with(&open) {
        return None;
    }
    let s = cur.s;
    let i = cur.i;
    let close = close_page();
    let end = match find_exec(s, &close, i + 2) {
        Some(e) => e,
        None => return None,
    };
    proof {
        lemma_find_from(s@, close@, i + 2);
    }
    let inner = slice_of(s, i + 2, end);
    cur.advance(end + 2 - i);
    Some(Inline::PageRef { title: normalize_page_title(&inner), original: string_from_chars(&inner) })
}

fn try_block_ref(cur: &mut Cursor) -> (r: Option<Inline>)
    requires
        old(cur).i < old(cur).s.len(),
    ensures
        recognized(block_ref_at(old(cur).s@, old(cur).i as int), *old(cur), *final(cur), r),
{
    let open = open_block();
    if !cur.starts_with(&open) {
        return None;
    }
    let s = cur.s;
    let i = cur.i;
    let close = close_block();
    let end = match find_exec(s, &close, i + 2) {
        Some(e) => e,
        None => return None,
    };
    proof {
        lemma_find_from(s@, close@, i + 2);
    }
    let raw = slice_of(s, i + 2, end);
    let inner = trim_of(&raw);
    cur.advance(end + 2 - i);
    Some(Inline::BlockRef { uuid: string_from_chars(&inner) })
}

fn is_tag_stop_char(c: char) -> (r: bool)
    ensures
        r == is_tag_stop(c),
{
    c == ',' || c == '.' || c == ';' || c == ':' || c == '!' || c == '?' || c == ')' || c == ']'
        || c == '}' || c == '"' || c == '\''
}

fn try_tag(cur: &mut Cursor) -> (r: Option<Inline>)
    requires
        old(cur).i < old(cur).s.len(),
    ensures
        recognized(tag_at(old(cur).s@, old(cur).i as int), *old(cur), *final(cur), r),
{
    if cur.current() != '#' {
        return None;
    }
    let s = cur.s;
    let i = cur.i;
    let tp = tag_page();
    if cur.starts_with(&tp) {
        let close = close_page();
        let end = match find_exec(s, &close, i + 3) {
            Some(e) => e,
            None => return None,
        };
        proof {
            lemma_find_from(s@, close@, i + 3);
        }
        let inner = slice_of(s, i + 3, end);
        cur.advance(end + 2 - i);
        return Some(Inline::Tag {
            title: normalize_page_title(&inner),
            original: string_from_chars(&inner),
        });
    }
    let mut j: usize = i + 1;
    while j < s.len() && !is_whitespace(s[j]) && !is_tag_stop_char(s[j])
        invariant
            i < j <= s.len(),
            word_end(s@, i + 1) == word_end(s@, j as int),
        decreases s.len() - j,
    {
        j = j + 1;
    }
    if j <= i + 1 {
        return None;
    }
    let inner = slice_of(s, i + 1, j);
    cur.advance(j - i);
    Some(Inline::Tag { title: normalize_page_title(&inner), original: string_from_chars(&inner) })
}

proof fn lemma_raw_token(s: Seq<char>, i: int, n: SpecInline, j: int)
    requires
        0 <= i < s.len(),
        first_token_at(s, i) == Some((n, j)),
        i < j <= s.len(),
    ensures
        raw_from(s, i) == seq![n] + raw_from(s, j),
{
}

proof fn lemma_raw_char(s: Seq<char>, i: int)
    requires
        0 <= i < s.len(),
        first_token_at(s, i) is None,
    ensures
        raw_from(s, i) == seq![SpecInline::Text { value: seq![s[i]] }] + raw_from(s, i + 1),
{
}

proof fn lemma_coalesce_into_cons(acc: Seq<SpecInline>, x: SpecInline, rest: Seq<SpecInline>)
    ensures
        coalesce_into(acc, seq![x] + rest) == coalesce_into(coalesce_step(acc, x), rest),
{
    assert((seq![x] + rest).drop_first() =~= rest);
    assert((seq![x] + rest)[0] == x);
}

/// Tokenize a sequence of characters into inline nodes.
pub(crate) fn tokenize_chars(s: &[char]) -> (r: Vec<Inline>)
    ensures
        inlines_view(r@) == tokenize(s@),
    decreases s.len(), 1int,
{
    let mut out: Vec<Inline> = Vec::new();
    let mut cur = Cursor::new(s);
    proof {
        assert(inlines_view(out@) =~= Seq::<SpecInline>::empty());
    }
    while !cur.is_eof()
        invariant
            cur.s == s,
            cur.i <= s.len(),
            coalesce(raw_from(s@, 0)) == coalesce_into(inlines_view(out@), raw_from(s@, cur.i as int)),
        decreases s.len() - cur.i,
    {
        let ghost i0 = cur.i as int;
        let ghost acc = inlines_view(out@);
        let mut found: Option<Inline> = try_code_span(&mut cur);
        if found.is_none() {
            found = try_embed(&mut cur);
        }
        if found.is_none() {
            found = try_labeled_link_like(&mut cur);
        }
        if found.is_none() {
            found = try_page_ref(&mut cur);
        }
        if found.is_none() {
            found = try_block_ref(&mut cur);
        }
        if found.is_none() {
            found = try_tag(&mut cur);
        }
        match found {
            Some(n) => {
                proof {
                    lemma_raw_token(s@, i0, inline_view(n), cur.i as int);
                    lemma_coalesce_into_cons(acc, inline_view(n), raw_from(s@, cur.i as int));
                }
                out.push(n);
                proof {
                    assert(inlines_view(out@) =~= acc.push(inline_view(n)));
                }
            },
            None => {
                proof {
                    lemma_raw_char(s@, i0);
                }
                let ch = cur.take_char();
                let one = string_from_chars(&single(ch));
                proof {
                    lemma_coalesce_into_cons(acc, SpecInline::Text { value: seq![ch] }, raw_from(s@, cur.i as int));
                }
                push_text_if_needed(&mut out, one.as_str());
            },
        }
    }
    proof {
        lemma_coalesce_is_coalesced(raw_from(s@, 0));
        lemma_coalesce_idempotent(inlines_view(out@));
    }
    coalesce_text(out)
}

/// Tokenize a single Logseq block string into inline nodes.
///
/// Conservative: unknown patterns fall back to `Inline::Text`.
pub fn tokenize_inline(input: &str) -> (r: Vec<Inline>)
    ensures
        inlines_view(r@) == tokenize(input@),
        is_coalesced(inlines_view(r@)),
{
    let cs = chars_of(input);
    proof {
        lemma_coalesce_is_coalesced(raw_from(input@, 0));
    }
    tokenize_chars(&cs)
}

/// Characters that can start an inline construct.
pub open spec fn is_markup_start(c: char) -> bool {
    c == '`' || c == '{' || c == '[' || c == '(' || c == '#'
}

proof fn lemma_plain_from(s: Seq<char>, i: int)
    requires
        0 < i <= s.len(),
        forall|k: int| 0 <= k < s.len() ==> !is_markup_start(#[trigger] s[k]),
    ensures
        coalesce_into(seq![SpecInline::Text { value: s.take(i) }], raw_from(s, i)) == seq![SpecInline::Text { value: s }],
    decreases s.len() - i,
{
    if i == s.len() {
        assert(s.take(i) =~= s);
    } else {
        assert(!matches_at(s, lit_embed_open(), i)) by {
            if matches_at(s, lit_embed_open(), i) {
                assert(s.subrange(i, i + 8)[0] == s[i]);
            }
        }
        assert(!matches_at(s, lit_open_page(), i)) by {
            if matches_at(s, lit_open_page(), i) {
                assert(s.subrange(i, i + 2)[0] == s[i]);
            }
        }
        assert(!matches_at(s, lit_open_block(), i)) by {
            if matches_at(s, lit_open_block(), i) {
                assert(s.subrange(i, i + 2)[0] == s[i]);
            }
        }
        assert(first_token_at(s, i) is None);
        lemma_coalesce_into_cons(
            seq![SpecInline::Text { value: s.take(i) }],
            SpecInline::Text { value: seq![s[i]] },
            raw_from(s, i + 1),
        );
        assert(s.take(i) + seq![s[i]] =~= s.take(i + 1));
        assert(coalesce_step(seq![SpecInline::Text { value: s.take(i) }], SpecInline::Text { value: seq![s[i]] })
            =~= seq![SpecInline::Text { value: s.take(i + 1) }]);
        lemma_plain_from(s, i + 1);
    }
}

/// Text without any character that can start an inline construct is kept
/// verbatim as a single text node (and empty text yields no node).
pub proof fn law_plain_text_is_one_node(s: Seq<char>)
    requires
        forall|k: int| 0 <= k < s.len() ==> !is_markup_start(#[trigger] s[k]),
    ensures
        tokenize(s) == if s.len() == 0 {
            Seq::<SpecInline>::empty()
        } else {
            seq![SpecInline::Text { value: s }]
        },
{
    if s.len() > 0 {
        assert(!matches_at(s, lit_embed_open(), 0)) by {
            if matches_at(s, lit_embed_open(), 0) {
                assert(s.subrange(0, 8)[0] == s[0]);
            }
        }
        assert(!matches_at(s, lit_open_page(), 0)) by {
            if matches_at(s, lit_open_page(), 0) {
                assert(s.subrange(0, 2)[0] == s[0]);
            }
        }
        assert(!matches_at(s, lit_open_block(), 0)) by {
            if matches_at(s, lit_open_block(), 0) {
                assert(s.subrange(0, 2)[0] == s[0]);
            }
        }
        assert(first_token_at(s, 0) is None);
        lemma_coalesce_into_cons(Seq::empty(), SpecInline::Text { value: seq![s[0]] }, raw_from(s, 1));
        assert(s.take(1) =~= seq![s[0]]);
        assert(coalesce_step(Seq::empty(), SpecInline::Text { value: seq![s[0]] })
            =~= seq![SpecInline::Text { value: s.take(1) }]);
        lemma_plain_from(s, 1);
    }
}


proof fn lemma_no_match_at(s: Seq<char>, p: Seq<char>, i: int, k: int)
    requires
        0 <= k < p.len(),
        0 <= i + k < s.len(),
        s[i + k] != p[k],
    ensures
        !matches_at(s, p, i),
{
    if matches_at(s, p, i) {
        assert(s.subrange(i, i + p.len())[k] == s[i + k]);
    }
}

/// No construct starts at a character that cannot open one.
proof fn lemma_no_token_at(s: Seq<char>, i: int)
    requires
        0 <= i < s.len(),
        !is_markup_start(s[i]),
    ensures
        first_token_at(s, i) is None,
{
    lemma_no_match_at(s, lit_embed_open(), i, 0);
    lemma_no_match_at(s, lit_open_page(), i, 0);
    lemma_no_match_at(s, lit_open_block(), i, 0);
}

proof fn lemma_word_end(s: Seq<char>, j: int, e: int)
    requires
        0 <= j <= e <= s.len(),
        forall|k: int| j <= k < e ==> !is_ws(#[trigger] s[k]) && !is_tag_stop(s[k]),
        e == s.len() || is_ws(s[e]) || is_tag_stop(s[e]),
    ensures
        word_end(s, j) == e,
    decreases e - j,
{
    if j < e {
        lemma_word_end(s, j + 1, e);
    }
}

/// A `#word` tag ends before punctuation: `#w` followed by any of
/// `, . ; : ! ? ) ] } " '` is the tag `w` and then that character as text,
/// for every word `w` without whitespace or such a character (and not
/// opening `[[`).
pub proof fn law_word_tag_ends_at_punctuation(w: Seq<char>, c: char)
    requires
        w.len() > 0,
        w[0] != '[',
        forall|k: int|
            0 <= k < w.len() ==> !is_ws(#[trigger] w[k]) && w[k] != ',' && w[k] != '.' && w[k] != ';' && w[k]
                != ':' && w[k] != '!' && w[k] != '?' && w[k] != ')' && w[k] != ']' && w[k] != '}' && w[k] != '"'
                && w[k] != '\'',
        c == ',' || c == '.' || c == ';' || c == ':' || c == '!' || c == '?' || c == ')' || c == ']' || c == '}'
            || c == '"' || c == '\'',
    ensures
        tokenize(seq!['#'] + w + seq![c]) == seq![
            SpecInline::Tag { title: w, original: w },
            SpecInline::Text { value: seq![c] },
        ],
{
    let s = seq!['#'] + w + seq![c];
    let n = w.len() as int;
    assert(s.len() == n + 2);
    assert(s[0] == '#');
    assert forall|k: int| 0 <= k < n implies s[k + 1] == w[k] by {}
    assert(s[n + 1] == c);
    // the tag at 0
    assert(s[1] == w[0]);
    lemma_no_match_at(s, lit_embed_open(), 0, 0);
    lemma_no_match_at(s, lit_open_page(), 0, 0);
    lemma_no_match_at(s, lit_open_block(), 0, 0);
    lemma_no_match_at(s, lit_tag_page(), 0, 1);
    assert forall|k: int| 1 <= k < n + 1 implies !is_ws(#[trigger] s[k]) && !is_tag_stop(s[k]) by {
        assert(s[k] == w[k - 1]);
    }
    lemma_word_end(s, 1, n + 1);
    assert(s.subrange(1, n + 1) =~= w);
    assert(crate::text::trim_start(w) == w);
    assert(w.last() == w[n - 1]);
    assert(crate::text::trim_end(w) == w);
    let tag = SpecInline::Tag { title: w, original: w };
    assert(first_token_at(s, 0) == Some((tag, n + 1)));
    lemma_raw_token(s, 0, tag, n + 1);
    // the punctuation after it
    lemma_no_token_at(s, n + 1);
    lemma_raw_char(s, n + 1);
    assert(raw_from(s, n + 2) =~= Seq::<SpecInline>::empty());
    let t = SpecInline::Text { value: seq![c] };
    assert(raw_from(s, 0) =~= seq![tag] + (seq![t] + Seq::<SpecInline>::empty()));
    lemma_coalesce_into_cons(Seq::empty(), tag, seq![t] + Seq::<SpecInline>::empty());
    lemma_coalesce_into_cons(seq![tag], t, Seq::<SpecInline>::empty());
    assert(coalesce_step(Seq::<SpecInline>::empty(), tag) =~= seq![tag]);
    assert(coalesce_step(seq![tag], t) =~= seq![tag, t]);
}

proof fn lemma_paren_plain(s: Seq<char>, i: int, e: int)
    requires
        0 <= i <= e < s.len(),
        forall|k: int| i <= k < e ==> #[trigger] s[k] != '(' && s[k] != ')',
        s[e] == ')',
    ensures
        paren_scan(s, i, 1) == Some(e),
    decreases e - i,
{
    if i < e {
        lemma_paren_plain(s, i + 1, e);
    }
}

proof fn lemma_first_char(st: Seq<char>, p: Seq<char>)
    requires
        matches_at(st, p, 0),
        p.len() > 0,
    ensures
        st.len() > 0 && st[0] == p[0],
{
    assert(st.subrange(0, p.len() as int)[0] == st[0]);
}

/// A target whose trimmed text starts with a URL scheme or a path prefix.
proof fn lemma_path_target(t: Seq<char>)
    requires
        ({
            let tt = crate::text::trim(t);
            ||| matches_at(tt, seq!['h', 't', 't', 'p', ':', '/', '/'], 0)
            ||| matches_at(tt, seq!['h', 't', 't', 'p', 's', ':', '/', '/'], 0)
            ||| matches_at(tt, seq!['f', 'i', 'l', 'e', ':'], 0)
            ||| matches_at(tt, seq!['/'], 0)
            ||| matches_at(tt, seq!['.', '/'], 0)
            ||| matches_at(tt, seq!['.', '.', '/'], 0)
        }),
    ensures
        page_ref_of(t) is None,
        block_ref_of(t) is None,
        is_url(t),
{
    let tt = crate::text::trim(t);
    if matches_at(tt, seq!['h', 't', 't', 'p', ':', '/', '/'], 0) {
        lemma_first_char(tt, seq!['h', 't', 't', 'p', ':', '/', '/']);
    } else if matches_at(tt, seq!['h', 't', 't', 'p', 's', ':', '/', '/'], 0) {
        lemma_first_char(tt, seq!['h', 't', 't', 'p', 's', ':', '/', '/']);
    } else if matches_at(tt, seq!['f', 'i', 'l', 'e', ':'], 0) {
        lemma_first_char(tt, seq!['f', 'i', 'l', 'e', ':']);
    } else if matches_at(tt, seq!['/'], 0) {
        lemma_first_char(tt, seq!['/']);
    } else if matches_at(tt, seq!['.', '/'], 0) {
        lemma_first_char(tt, seq!['.', '/']);
    } else {
        lemma_first_char(tt, seq!['.', '.', '/']);
    }
    lemma_no_match_at(tt, lit_open_page(), 0, 0);
    lemma_no_match_at(tt, lit_open_block(), 0, 0);
}

/// Where the brackets of `[label](target)` close, for a label without `]`
/// and a target without parentheses.
proof fn lemma_link_shape(label: Seq<char>, t: Seq<char>)
    requires
        forall|k: int| 0 <= k < label.len() ==> #[trigger] label[k] != ']',
        forall|k: int| 0 <= k < t.len() ==> #[trigger] t[k] != '(' && t[k] != ')',
    ensures
        ({
            let s = seq!['['] + label + seq![']', '('] + t + seq![')'];
            let cb = label.len() as int + 1;
            let cp = label.len() as int + 3 + t.len() as int;
            &&& s.len() == cp + 1
            &&& s[0] == '['
            &&& find_from(s, seq![']'], 1) == Some(cb)
            &&& s[cb + 1] == '('
            &&& matching_paren(s, cb + 1) == Some(cp)
            &&& s.subrange(1, cb) == label
            &&& s.subrange(cb + 2, cp) == t
        }),
{
    let s = seq!['['] + label + seq![']', '('] + t + seq![')'];
    let l = label.len() as int;
    let m = t.len() as int;
    let cb = l + 1;
    let cp = l + 3 + m;
    assert(s.len() == cp + 1);
    assert forall|k: int| 0 <= k < l implies s[k + 1] == label[k] by {}
    assert(s[cb] == ']');
    assert(s[cb + 1] == '(');
    assert forall|k: int| 0 <= k < m implies s[cb + 2 + k] == t[k] by {}
    assert(s[cp] == ')');
    lemma_find_from(s, seq![']'], 1);
    assert(s.subrange(cb, cb + 1) =~= seq![']']);
    assert(matches_at(s, seq![']'], cb));
    match find_from(s, seq![']'], 1) {
        Some(j) => {
            if j < cb {
                assert(s.subrange(j, j + 1)[0] == s[j]);
                assert(s[j] == label[j - 1]);
            }
        },
        None => {},
    }
    assert forall|k: int| cb + 2 <= k < cp implies #[trigger] s[k] != '(' && s[k] != ')' by {
        assert(s[k] == t[k - cb - 2]);
    }
    lemma_paren_plain(s, cb + 2, cp);
    assert(s.subrange(1, cb) =~= label);
    assert(s.subrange(cb + 2, cp) =~= t);
}

/// A markdown link `[label](target)` whose target (trimmed) starts with
/// `http://`, `https://`, `file:`, `/`, `./` or `../` is a link to exactly that
/// target, its label tokenized in turn, for every label without `]` and every
/// target without parentheses; parent-relative asset paths included.
pub proof fn law_link_to_url_or_path(label: Seq<char>, t: Seq<char>)
    requires
        forall|k: int| 0 <= k < label.len() ==> #[trigger] label[k] != ']',
        forall|k: int| 0 <= k < t.len() ==> #[trigger] t[k] != '(' && t[k] != ')',
        ({
            let tt = crate::text::trim(t);
            ||| matches_at(tt, seq!['h', 't', 't', 'p', ':', '/', '/'], 0)
            ||| matches_at(tt, seq!['h', 't', 't', 'p', 's', ':', '/', '/'], 0)
            ||| matches_at(tt, seq!['f', 'i', 'l', 'e', ':'], 0)
            ||| matches_at(tt, seq!['/'], 0)
            ||| matches_at(tt, seq!['.', '/'], 0)
            ||| matches_at(tt, seq!['.', '.', '/'], 0)
        }),
    ensures
        tokenize(seq!['['] + label + seq![']', '('] + t + seq![')']) == seq![
            SpecInline::Link { label: tokenize(label), url: t },
        ],
{
    let s = seq!['['] + label + seq![']', '('] + t + seq![')'];
    let cp = label.len() as int + 3 + t.len() as int;
    lemma_link_shape(label, t);
    lemma_path_target(t);
    let link = SpecInline::Link { label: tokenize(label), url: t };
    assert(labeled_link_at(s, 0) == Some((link, cp + 1)));
    lemma_no_match_at(s, lit_embed_open(), 0, 0);
    assert(first_token_at(s, 0) == Some((link, cp + 1)));
    lemma_raw_token(s, 0, link, cp + 1);
    assert(raw_from(s, cp + 1) =~= Seq::<SpecInline>::empty());
    assert(raw_from(s, 0) =~= seq![link] + Seq::<SpecInline>::empty());
    lemma_coalesce_into_cons(Seq::empty(), link, Seq::<SpecInline>::empty());
    assert(coalesce_step(Seq::<SpecInline>::empty(), link) =~= seq![link]);
}

proof fn lemma_text_from(s: Seq<char>, i: int)
    requires
        0 < i <= s.len(),
        forall|k: int| i <= k < s.len() ==> #[trigger] first_token_at(s, k) is None,
    ensures
        coalesce_into(seq![SpecInline::Text { value: s.take(i) }], raw_from(s, i)) == seq![SpecInline::Text { value: s }],
    decreases s.len() - i,
{
    if i == s.len() {
        assert(s.take(i) =~= s);
    } else {
        assert(first_token_at(s, i) is None);
        lemma_raw_char(s, i);
        lemma_coalesce_into_cons(
            seq![SpecInline::Text { value: s.take(i) }],
            SpecInline::Text { value: seq![s[i]] },
            raw_from(s, i + 1),
        );
        assert(s.take(i) + seq![s[i]] =~= s.take(i + 1));
        assert(coalesce_step(seq![SpecInline::Text { value: s.take(i) }], SpecInline::Text { value: seq![s[i]] })
            =~= seq![SpecInline::Text { value: s.take(i + 1) }]);
        lemma_text_from(s, i + 1);
    }
}

/// A bracketed text followed by a parenthesized target that is no URL or
/// path (its trimmed text starts with none of `http://`, `https://`, `file:`,
/// `/`, `./`, `../`) stays plain text, when neither part holds inline markup
/// and the target holds no parenthesis.
pub proof fn law_link_needs_url_or_path(label: Seq<char>, t: Seq<char>)
    requires
        forall|k: int| 0 <= k < label.len() ==> #[trigger] label[k] != ']' && !is_markup_start(label[k]),
        forall|k: int| 0 <= k < t.len() ==> #[trigger] t[k] != '(' && t[k] != ')' && !is_markup_start(t[k]),
        ({
            let tt = crate::text::trim(t);
            &&& !matches_at(tt, seq!['h', 't', 't', 'p', ':', '/', '/'], 0)
            &&& !matches_at(tt, seq!['h', 't', 't', 'p', 's', ':', '/', '/'], 0)
            &&& !matches_at(tt, seq!['f', 'i', 'l', 'e', ':'], 0)
            &&& !matches_at(tt, seq!['/'], 0)
            &&& !matches_at(tt, seq!['.', '/'], 0)
            &&& !matches_at(tt, seq!['.', '.', '/'], 0)
        }),
    ensures
        tokenize(seq!['['] + label + seq![']', '('] + t + seq![')']) == seq![
            SpecInline::Text { value: seq!['['] + label + seq![']', '('] + t + seq![')'] },
        ],
{
    let s = seq!['['] + label + seq![']', '('] + t + seq![')'];
    let l = label.len() as int;
    let cb = l + 1;
    let cp = l + 3 + t.len() as int;
    lemma_link_shape(label, t);
    assert forall|k: int| 0 <= k < l implies s[k + 1] == label[k] by {}
    assert forall|k: int| 0 <= k < t.len() implies s[cb + 2 + k] == t[k] by {}
    assert(s[cb] == ']' && s[cp] == ')');
    // the target is no reference and no URL
    let tt = crate::text::trim(t);
    assert(!is_url(t));
    crate::text::lemma_trim_piece(t);
    assert(page_ref_of(t) is None) by {
        if matches_at(tt, lit_open_page(), 0) {
            lemma_first_char(tt, lit_open_page());
            let j = choose|j: int| 0 <= j < t.len() && tt[0] == t[j];
            assert(!is_markup_start(t[j]));
        }
    }
    assert(block_ref_of(t) is None) by {
        if matches_at(tt, lit_open_block(), 0) {
            lemma_first_char(tt, lit_open_block());
            let j = choose|j: int| 0 <= j < t.len() && tt[0] == t[j];
            assert(!is_markup_start(t[j]));
        }
    }
    assert(labeled_link_at(s, 0) is None);
    // no construct starts anywhere
    assert forall|k: int| 0 <= k < s.len() implies #[trigger] first_token_at(s, k) is None by {
        if k == 0 {
            lemma_no_match_at(s, lit_embed_open(), 0, 0);
            lemma_no_match_at(s, lit_open_page(), 0, 1);
            lemma_no_match_at(s, lit_open_block(), 0, 0);
        } else if k == cb + 1 {
            lemma_no_match_at(s, lit_embed_open(), k, 0);
            lemma_no_match_at(s, lit_open_page(), k, 0);
            lemma_no_match_at(s, lit_open_block(), k, 1);
        } else {
            if k <= l {
                assert(s[k] == label[k - 1]);
            } else if k > cb + 1 && k < cp {
                assert(s[k] == t[k - cb - 2]);
            }
            lemma_no_token_at(s, k);
        }
    }
    lemma_raw_char(s, 0);
    lemma_coalesce_into_cons(Seq::empty(), SpecInline::Text { value: seq![s[0]] }, raw_from(s, 1));
    assert(s.take(1) =~= seq![s[0]]);
    assert(coalesce_step(Seq::<SpecInline>::empty(), SpecInline::Text { value: seq![s[0]] })
        =~= seq![SpecInline::Text { value: s.take(1) }]);
    lemma_text_from(s, 1);
}

} // verus!
