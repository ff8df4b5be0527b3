use crate::ast::{inline_view, inlines_view, Inline, SpecInline};
use crate::text::{chars_of, is_whitespace, is_ws, matches_at, matches_at_exec, slice_of, string_from_chars};
use crate::tokenize::{
    coalesce, coalesce_into, coalesce_step, is_coalesced, lemma_coalesce_into_unfold,
    lemma_coalesce_is_coalesced, push_text, tokenize, tokenize_inline,
};
use vstd::prelude::*;

verus! {

pub open spec fn lit_http() -> Seq<char> {
    seq!['h', 't', 't', 'p', ':', '/', '/']
}

pub open spec fn lit_https() -> Seq<char> {
    seq!['h', 't', 't', 'p', 's', ':', '/', '/']
}

/// A token that is promoted to a link: it begins with `http://` or `https://`.
pub open spec fn is_bare_url(token: Seq<char>) -> bool {
    matches_at(token, lit_http(), 0) || matches_at(token, lit_https(), 0)
}

/// Index of the first whitespace character at or after `k` (or the length).
pub open spec fn next_ws(s: Seq<char>, k: int) -> int
    decreases s.len() - k,
{
    if k < 0 || k >= s.len() || is_ws(s[k]) {
        k
    } else {
        next_ws(s, k + 1)
    }
}

/// The pieces of `s` from position `k` on, split after every whitespace
/// character; a piece whose leading non-whitespace token is a bare URL becomes a
/// link (label and target both the token) followed by its whitespace, while the
/// other pieces accumulate in `buf` and are emitted as one text node.
pub open spec fn url_nodes_from(s: Seq<char>, k: int, buf: Seq<char>) -> Seq<SpecInline>
    decreases s.len() - k,
{
    if k < 0 || k >= s.len() {
        if buf.len() > 0 {
            seq![SpecInline::Text { value: buf }]
        } else {
            Seq::empty()
        }
    } else {
        let w = next_ws(s, k);
        let p = if w < s.len() { w + 1 } else { s.len() as int };
        let token = s.subrange(k, w);
        let ws = s.subrange(w, p);
        if p <= k {
            Seq::empty()
        } else if is_bare_url(token) {
            (if buf.len() > 0 { seq![SpecInline::Text { value: buf }] } else { Seq::empty() })
                + seq![SpecInline::Link { label: seq![SpecInline::Text { value: token }], url: token }]
                + (if ws.len() > 0 { seq![SpecInline::Text { value: ws }] } else { Seq::empty() })
                + url_nodes_from(s, p, Seq::empty())
        } else {
            url_nodes_from(s, p, buf + s.subrange(k, p))
        }
    }
}

pub open spec fn url_nodes(s: Seq<char>) -> Seq<SpecInline> {
    url_nodes_from(s, 0, Seq::empty())
}

/// Text nodes are split around bare URLs; other nodes are kept.
pub open spec fn expand_urls(ns: Seq<SpecInline>) -> Seq<SpecInline>
    decreases ns.len(),
{
    if ns.len() == 0 {
        Seq::empty()
    } else {
        expand_urls(ns.drop_last()) + match ns.last() {
            SpecInline::Text { value } => url_nodes(value),
            other => seq![other],
        }
    }
}

/// The inline nodes of a property value.
pub open spec fn property_value(v: Seq<char>) -> Seq<SpecInline> {
    coalesce(expand_urls(tokenize(v)))
}

proof fn lemma_next_ws(s: Seq<char>, k: int)
    requires
        0 <= k <= s.len(),
    ensures
        k <= next_ws(s, k) <= s.len(),
        forall|j: int| k <= j < next_ws(s, k) ==> !is_ws(#[trigger] s[j]),
        next_ws(s, k) < s.len() ==> is_ws(s[next_ws(s, k)]),
    decreases s.len() - k,
{
    if k < s.len() && !is_ws(s[k]) {
        lemma_next_ws(s, k + 1);
    }
}

/// No `http://` or `https://` occurs anywhere in `x`.
pub open spec fn has_no_url(x: Seq<char>) -> bool {
    forall|k: int| 0 <= k ==> !matches_at(x, lit_http(), k) && !matches_at(x, lit_https(), k)
}

proof fn lemma_url_nodes_plain(x: Seq<char>, k: int, buf: Seq<char>)
    requires
        0 <= k <= x.len(),
        has_no_url(x),
    ensures
        url_nodes_from(x, k, buf) == if buf.len() + x.len() - k > 0 {
            seq![SpecInline::Text { value: buf + x.subrange(k, x.len() as int) }]
        } else {
            Seq::empty()
        },
    decreases x.len() - k,
{
    if k == x.len() {
        assert(buf + x.subrange(k, x.len() as int) =~= buf);
    } else {
        lemma_next_ws(x, k);
        let w = next_ws(x, k);
        let p = if w < x.len() { w + 1 } else { x.len() as int };
        let token = x.subrange(k, w);
        assert(!is_bare_url(token)) by {
            if matches_at(token, lit_http(), 0) {
                assert(token.subrange(0, 7) =~= x.subrange(k, k + 7));
                assert(matches_at(x, lit_http(), k));
            }
            if matches_at(token, lit_https(), 0) {
                assert(token.subrange(0, 8) =~= x.subrange(k, k + 8));
                assert(matches_at(x, lit_https(), k));
            }
        }
        lemma_url_nodes_plain(x, p, buf + x.subrange(k, p));
        assert(buf + x.subrange(k, p) + x.subrange(p, x.len() as int) =~= buf + x.subrange(k, x.len() as int));
    }
}

proof fn lemma_expand_plain(ns: Seq<SpecInline>)
    requires
        forall|i: int| 0 <= i < ns.len() && (#[trigger] ns[i] is Text) ==> ns[i]->Text_value.len() > 0
            && has_no_url(ns[i]->Text_value),
    ensures
        expand_urls(ns) == ns,
    decreases ns.len(),
{
    if ns.len() > 0 {
        assert forall|i: int| 0 <= i < ns.drop_last().len() && (#[trigger] ns.drop_last()[i] is Text) implies ns.drop_last()[i]->Text_value.len() > 0
            && has_no_url(ns.drop_last()[i]->Text_value) by {
            assert(ns.drop_last()[i] == ns[i]);
        }
        lemma_expand_plain(ns.drop_last());
        let last = ns.last();
        assert(ns[ns.len() - 1] == last);
        if let SpecInline::Text { value } = last {
            lemma_url_nodes_plain(value, 0, Seq::empty());
            assert(Seq::<char>::empty() + value.subrange(0, value.len() as int) =~= value);
        }
        assert(ns.drop_last().push(last) =~= ns);
    }
}

/// The text a node of a split stands for: a text node its value, a link its
/// target.
pub open spec fn piece_source(n: SpecInline) -> Seq<char> {
    match n {
        SpecInline::Text { value } => value,
        SpecInline::Link { url, .. } => url,
        _ => Seq::empty(),
    }
}

/// The texts that a sequence of split pieces stands for, concatenated.
pub open spec fn pieces_source(ns: Seq<SpecInline>) -> Seq<char>
    decreases ns.len(),
{
    if ns.len() == 0 {
        Seq::empty()
    } else {
        piece_source(ns[0]) + pieces_source(ns.drop_first())
    }
}

/// A piece of a split: a non-empty text node, or a link whose label is its
/// target as text and whose target is a bare URL without whitespace.
pub open spec fn is_url_piece(n: SpecInline) -> bool {
    match n {
        SpecInline::Text { value } => value.len() > 0,
        SpecInline::Link { label, url } => label == seq![SpecInline::Text { value: url }] && is_bare_url(url)
            && forall|j: int| 0 <= j < url.len() ==> !is_ws(#[trigger] url[j]),
        _ => false,
    }
}

proof fn lemma_pieces_source_concat(a: Seq<SpecInline>, b: Seq<SpecInline>)
    ensures
        pieces_source(a + b) == pieces_source(a) + pieces_source(b),
    decreases a.len(),
{
    if a.len() == 0 {
        assert(a + b =~= b);
    } else {
        lemma_pieces_source_concat(a.drop_first(), b);
        assert((a + b).drop_first() =~= a.drop_first() + b);
        assert((a + b)[0] == a[0]);
    }
}

proof fn lemma_opt_text(v: Seq<char>)
    ensures
        pieces_source(if v.len() > 0 { seq![SpecInline::Text { value: v }] } else { Seq::empty() }) == v,
{
    assert(pieces_source(Seq::<SpecInline>::empty()) =~= Seq::<char>::empty());
    if v.len() > 0 {
        assert(seq![SpecInline::Text { value: v }].drop_first() =~= Seq::<SpecInline>::empty());
        assert(v + Seq::<char>::empty() =~= v);
    } else {
        assert(v =~= Seq::<char>::empty());
    }
}

proof fn lemma_url_nodes_from_pieces(s: Seq<char>, k: int, buf: Seq<char>)
    requires
        0 <= k <= s.len(),
    ensures
        pieces_source(url_nodes_from(s, k, buf)) == buf + s.subrange(k, s.len() as int),
        forall|i: int| 0 <= i < url_nodes_from(s, k, buf).len() ==> is_url_piece(#[trigger] url_nodes_from(s, k, buf)[i]),
    decreases s.len() - k,
{
    if k >= s.len() {
        lemma_opt_text(buf);
        assert(buf + s.subrange(k, s.len() as int) =~= buf);
    } else {
        lemma_next_ws(s, k);
        let w = next_ws(s, k);
        let p = if w < s.len() { w + 1 } else { s.len() as int };
        let token = s.subrange(k, w);
        let ws = s.subrange(w, p);
        if is_bare_url(token) {
            let a = if buf.len() > 0 { seq![SpecInline::Text { value: buf }] } else { Seq::empty() };
            let l = seq![SpecInline::Link { label: seq![SpecInline::Text { value: token }], url: token }];
            let c = if ws.len() > 0 { seq![SpecInline::Text { value: ws }] } else { Seq::empty() };
            let rest = url_nodes_from(s, p, Seq::empty());
            lemma_url_nodes_from_pieces(s, p, Seq::empty());
            let r = a + l + c + rest;
            assert(url_nodes_from(s, k, buf) == r);
            lemma_pieces_source_concat(a + l + c, rest);
            lemma_pieces_source_concat(a + l, c);
            lemma_pieces_source_concat(a, l);
            lemma_opt_text(buf);
            lemma_opt_text(ws);
            assert(l.drop_first() =~= Seq::<SpecInline>::empty());
            assert(pieces_source(Seq::<SpecInline>::empty()) =~= Seq::<char>::empty());
            assert(pieces_source(l) =~= token);
            assert(buf + token + ws + (Seq::<char>::empty() + s.subrange(p, s.len() as int)) =~= buf + s.subrange(k, s.len() as int));
            assert forall|i: int| 0 <= i < r.len() implies is_url_piece(#[trigger] r[i]) by {
                if i < a.len() {
                    assert(r[i] == a[i]);
                } else if i < a.len() + 1 {
                    assert(r[i] == l[0]);
                    assert forall|j: int| 0 <= j < token.len() implies !is_ws(#[trigger] token[j]) by {
                        assert(token[j] == s[k + j]);
                    }
                } else if i < a.len() + 1 + c.len() {
                    assert(r[i] == c[i - a.len() - 1]);
                } else {
                    assert(r[i] == rest[i - a.len() - 1 - c.len()]);
                }
            }
        } else {
            lemma_url_nodes_from_pieces(s, p, buf + s.subrange(k, p));
            assert(buf + s.subrange(k, p) + s.subrange(p, s.len() as int) =~= buf + s.subrange(k, s.len() as int));
        }
    }
}

/// Splitting a text around bare URLs loses nothing: the pieces, read back
/// (text as itself, a link as its target), give the text again; every piece is
/// a non-empty text or a link labelled with its own target, a bare URL
/// without whitespace.
pub proof fn law_url_split_pieces(s: Seq<char>)
    ensures
        pieces_source(url_nodes(s)) == s,
        forall|i: int| 0 <= i < url_nodes(s).len() ==> is_url_piece(#[trigger] url_nodes(s)[i]),
{
    lemma_url_nodes_from_pieces(s, 0, Seq::empty());
    assert(Seq::<char>::empty() + s.subrange(0, s.len() as int) =~= s);
}

/// A link read back as the text of its target; other nodes are kept.
pub open spec fn unlink_node(n: SpecInline) -> SpecInline {
    match n {
        SpecInline::Link { url, .. } => SpecInline::Text { value: url },
        other => other,
    }
}

pub open spec fn unlink(ns: Seq<SpecInline>) -> Seq<SpecInline> {
    ns.map_values(|n: SpecInline| unlink_node(n))
}

proof fn lemma_coalesce_into_concat(acc: Seq<SpecInline>, a: Seq<SpecInline>, b: Seq<SpecInline>)
    ensures
        coalesce_into(acc, a + b) == coalesce_into(coalesce_into(acc, a), b),
    decreases a.len(),
{
    if a.len() == 0 {
        assert(a + b =~= b);
    } else {
        assert((a + b).drop_first() =~= a.drop_first() + b);
        assert((a + b)[0] == a[0]);
        lemma_coalesce_into_concat(coalesce_step(acc, a[0]), a.drop_first(), b);
    }
}

proof fn lemma_coalesce_push(a: Seq<SpecInline>, y: SpecInline)
    ensures
        coalesce(a.push(y)) == coalesce_step(coalesce(a), y),
{
    assert(a.push(y) =~= a + seq![y]);
    lemma_coalesce_into_concat(Seq::empty(), a, seq![y]);
    lemma_coalesce_single(coalesce(a), y);
}

proof fn lemma_coalesce_single(c: Seq<SpecInline>, y: SpecInline)
    ensures
        coalesce_into(c, seq![y]) == coalesce_step(c, y),
{
    assert(seq![y].drop_first() =~= Seq::<SpecInline>::empty());
    assert(seq![y][0] == y);
    assert(coalesce_into(coalesce_step(c, y), Seq::<SpecInline>::empty()) == coalesce_step(c, y));
}

proof fn lemma_push_text_twice(c: Seq<SpecInline>, u: Seq<char>, v: Seq<char>)
    ensures
        push_text(push_text(c, u), v) == push_text(c, u + v),
{
    if c.len() > 0 && c.last() is Text {
        let l = c.last()->Text_value;
        assert(c.drop_last().push(SpecInline::Text { value: l + u }).drop_last() =~= c.drop_last());
        assert(l + u + v =~= l + (u + v));
    } else {
        assert(c.push(SpecInline::Text { value: u }).drop_last() =~= c);
    }
}

proof fn lemma_unlink_step(acc: Seq<SpecInline>, x: SpecInline)
    ensures
        coalesce(unlink(coalesce_step(acc, x))) == coalesce_step(coalesce(unlink(acc)), unlink_node(x)),
{
    match x {
        SpecInline::Text { value } => {
            if value.len() > 0 {
                if acc.len() > 0 && acc.last() is Text {
                    let l = acc.last()->Text_value;
                    let front = acc.drop_last();
                    let acc2 = front.push(SpecInline::Text { value: l + value });
                    assert(unlink(acc2) =~= unlink(front).push(SpecInline::Text { value: l + value }));
                    assert(unlink(acc) =~= unlink(front).push(SpecInline::Text { value: l }));
                    lemma_coalesce_push(unlink(front), SpecInline::Text { value: l + value });
                    lemma_coalesce_push(unlink(front), SpecInline::Text { value: l });
                    let c = coalesce(unlink(front));
                    if l.len() > 0 {
                        lemma_push_text_twice(c, l, value);
                    } else {
                        assert(l + value =~= value);
                    }
                } else {
                    assert(unlink(acc.push(x)) =~= unlink(acc).push(x));
                    lemma_coalesce_push(unlink(acc), x);
                }
            }
        },
        _ => {
            assert(unlink(acc.push(x)) =~= unlink(acc).push(unlink_node(x)));
            lemma_coalesce_push(unlink(acc), unlink_node(x));
        },
    }
}

proof fn lemma_unlink_coalesce_into(acc: Seq<SpecInline>, e: Seq<SpecInline>)
    ensures
        coalesce(unlink(coalesce_into(acc, e))) == coalesce_into(coalesce(unlink(acc)), unlink(e)),
    decreases e.len(),
{
    if e.len() == 0 {
        assert(unlink(e) =~= Seq::<SpecInline>::empty());
    } else {
        lemma_unlink_coalesce_into(coalesce_step(acc, e[0]), e.drop_first());
        lemma_unlink_step(acc, e[0]);
        assert(unlink(e).drop_first() =~= unlink(e.drop_first()));
        assert(unlink(e)[0] == unlink_node(e[0]));
    }
}

proof fn lemma_pieces_coalesce(acc: Seq<SpecInline>, ns: Seq<SpecInline>)
    requires
        forall|i: int| 0 <= i < ns.len() ==> is_url_piece(#[trigger] ns[i]),
    ensures
        coalesce_into(acc, unlink(ns)) == if pieces_source(ns).len() > 0 {
            push_text(acc, pieces_source(ns))
        } else {
            acc
        },
    decreases ns.len(),
{
    if ns.len() == 0 {
        assert(unlink(ns) =~= Seq::<SpecInline>::empty());
    } else {
        let x = ns[0];
        assert(is_url_piece(x));
        let src = piece_source(x);
        assert(src.len() > 0) by {
            if let SpecInline::Link { url, .. } = x {
                if matches_at(url, lit_http(), 0) {
                } else {
                    assert(matches_at(url, lit_https(), 0));
                }
            }
        }
        assert(unlink(ns)[0] == SpecInline::Text { value: src });
        assert(unlink(ns).drop_first() =~= unlink(ns.drop_first()));
        assert forall|i: int| 0 <= i < ns.drop_first().len() implies is_url_piece(#[trigger] ns.drop_first()[i]) by {
            assert(ns.drop_first()[i] == ns[i + 1]);
        }
        let acc2 = push_text(acc, src);
        lemma_pieces_coalesce(acc2, ns.drop_first());
        let rest = pieces_source(ns.drop_first());
        if rest.len() > 0 {
            lemma_push_text_twice(acc, src, rest);
        } else {
            assert(src + rest =~= src);
        }
    }
}

proof fn lemma_unlink_expand(t: Seq<SpecInline>)
    requires
        forall|i: int| 0 <= i < t.len() ==> !(#[trigger] t[i] is Link),
    ensures
        coalesce(unlink(expand_urls(t))) == coalesce(t),
    decreases t.len(),
{
    if t.len() == 0 {
        assert(unlink(expand_urls(t)) =~= t);
    } else {
        let front = t.drop_last();
        let x = t.last();
        assert(t[t.len() - 1] == x);
        assert forall|i: int| 0 <= i < front.len() implies !(#[trigger] front[i] is Link) by {
            assert(front[i] == t[i]);
        }
        lemma_unlink_expand(front);
        let a = expand_urls(front);
        let b = match x {
            SpecInline::Text { value } => url_nodes(value),
            other => seq![other],
        };
        assert(expand_urls(t) == a + b);
        assert(unlink(a + b) =~= unlink(a) + unlink(b));
        lemma_coalesce_into_concat(Seq::empty(), unlink(a), unlink(b));
        assert(coalesce(unlink(expand_urls(t))) == coalesce_into(coalesce(front), unlink(b)));
        assert(t =~= front.push(x));
        lemma_coalesce_push(front, x);
        assert(coalesce(t) == coalesce_step(coalesce(front), x));
        match x {
            SpecInline::Text { value } => {
                law_url_split_pieces(value);
                lemma_pieces_coalesce(coalesce(front), url_nodes(value));
            },
            _ => {
                assert(unlink(b) =~= seq![x]);
                lemma_coalesce_single(coalesce(front), x);
            },
        }
    }
}

/// Reading the links of a property value back as text (a link as its target)
/// and merging adjacent text gives the value's inline nodes as block text
/// would have them, where those hold no link: bare-URL links only split text.
pub proof fn law_property_value_unlinks_to_inline_text(v: Seq<char>)
    requires
        forall|i: int| 0 <= i < tokenize(v).len() ==> !(#[trigger] tokenize(v)[i] is Link),
    ensures
        coalesce(unlink(property_value(v))) == tokenize(v),
{
    let t = tokenize(v);
    let e = expand_urls(t);
    lemma_unlink_coalesce_into(Seq::empty(), e);
    assert(unlink(Seq::<SpecInline>::empty()) =~= Seq::<SpecInline>::empty());
    lemma_unlink_expand(t);
    lemma_coalesce_is_coalesced(crate::tokenize::raw_from(v, 0));
    crate::tokenize::lemma_coalesce_idempotent(t);
}

/// Every whitespace-free text that starts with `http://` or `https://` is a
/// bare URL, whatever follows (no dot in the host needed): on its own it
/// becomes one link labelled with itself, and as a whole property value
/// (without inline markup) it parses to that link.
pub proof fn law_url_token_is_link(v: Seq<char>)
    requires
        matches_at(v, seq!['h', 't', 't', 'p', ':', '/', '/'], 0) || matches_at(
            v,
            seq!['h', 't', 't', 'p', 's', ':', '/', '/'],
            0,
        ),
        forall|k: int| 0 <= k < v.len() ==> !is_ws(#[trigger] v[k]),
    ensures
        url_nodes(v) == seq![SpecInline::Link { label: seq![SpecInline::Text { value: v }], url: v }],
        (forall|k: int| 0 <= k < v.len() ==> !crate::tokenize::is_markup_start(#[trigger] v[k]))
            ==> property_value(v) == seq![SpecInline::Link { label: seq![SpecInline::Text { value: v }], url: v }],
{
    assert(lit_http() == seq!['h', 't', 't', 'p', ':', '/', '/']);
    assert(lit_https() == seq!['h', 't', 't', 'p', 's', ':', '/', '/']);
    assert(is_bare_url(v));
    assert(v.len() >= 7);
    lemma_next_ws(v, 0);
    assert(next_ws(v, 0) == v.len());
    assert(v.subrange(0, v.len() as int) =~= v);
    assert(url_nodes_from(v, v.len() as int, Seq::empty()) =~= Seq::<SpecInline>::empty());
    assert(v.subrange(v.len() as int, v.len() as int) =~= Seq::<char>::empty());
    assert(is_bare_url(v.subrange(0, v.len() as int)));
    let link = SpecInline::Link { label: seq![SpecInline::Text { value: v }], url: v };
    assert(url_nodes(v) =~= seq![link]);
    if forall|k: int| 0 <= k < v.len() ==> !crate::tokenize::is_markup_start(#[trigger] v[k]) {
        law_bare_url_value_is_link(v);
    }
}

/// A value that is one bare URL (no whitespace, no inline markup) becomes a
/// single link whose label and target are that URL.
pub proof fn law_bare_url_value_is_link(v: Seq<char>)
    requires
        is_bare_url(v),
        forall|k: int| 0 <= k < v.len() ==> !is_ws(#[trigger] v[k]),
        forall|k: int| 0 <= k < v.len() ==> !crate::tokenize::is_markup_start(#[trigger] v[k]),
    ensures
        property_value(v) == seq![SpecInline::Link { label: seq![SpecInline::Text { value: v }], url: v }],
{
    assert(v.len() >= 7) by {
        if matches_at(v, lit_http(), 0) {
        } else {
            assert(matches_at(v, lit_https(), 0));
        }
    }
    crate::tokenize::law_plain_text_is_one_node(v);
    let t = SpecInline::Text { value: v };
    assert(seq![t].drop_last() =~= Seq::<SpecInline>::empty());
    lemma_next_ws(v, 0);
    assert(next_ws(v, 0) == v.len());
    assert(v.subrange(0, v.len() as int) =~= v);
    let link = SpecInline::Link { label: seq![SpecInline::Text { value: v }], url: v };
    assert(url_nodes_from(v, v.len() as int, Seq::empty()) =~= Seq::<SpecInline>::empty());
    assert(v.subrange(v.len() as int, v.len() as int) =~= Seq::<char>::empty());
    assert(is_bare_url(v.subrange(0, v.len() as int)));
    assert(url_nodes(v) =~= seq![link]);
    assert(expand_urls(Seq::<SpecInline>::empty()) =~= Seq::<SpecInline>::empty());
    assert(expand_urls(seq![t]) =~= seq![link]);
    assert(seq![link].drop_first() =~= Seq::<SpecInline>::empty());
    assert(coalesce_step(Seq::empty(), link) =~= seq![link]);
    assert(coalesce_into(seq![link], Seq::empty()) == seq![link]);
    assert(coalesce(seq![link]) =~= seq![link]);
}

/// A property value whose text holds no `http://` or `https://` parses
/// exactly like block text.
pub proof fn law_value_without_urls_is_inline_text(v: Seq<char>)
    requires
        forall|i: int| 0 <= i < tokenize(v).len() && (#[trigger] tokenize(v)[i] is Text) ==> has_no_url(
            tokenize(v)[i]->Text_value,
        ),
    ensures
        property_value(v) == tokenize(v),
{
    let ns = tokenize(v);
    crate::tokenize::lemma_coalesce_is_coalesced(crate::tokenize::raw_from(v, 0));
    lemma_expand_plain(ns);
    crate::tokenize::lemma_coalesce_idempotent(ns);
}

fn text_node(v: &[char]) -> (r: Inline)
    ensures
        inline_view(r) == (SpecInline::Text { value: v@ }),
{
    Inline::Text { value: string_from_chars(v) }
}

/// Split a text into text and link nodes around bare URLs.
fn split_text_with_urls(s: &[char]) -> (r: Vec<Inline>)
    ensures
        inlines_view(r@) == url_nodes(s@),
        pieces_source(inlines_view(r@)) == s@,
        forall|i: int| 0 <= i < r@.len() ==> is_url_piece(#[trigger] inlines_view(r@)[i]),
{
    proof {
        law_url_split_pieces(s@);
    }
    let http = vec!['h', 't', 't', 'p', ':', '/', '/'];
    let https = vec!['h', 't', 't', 'p', 's', ':', '/', '/'];
    proof {
        assert(http@ =~= lit_http());
        assert(https@ =~= lit_https());
    }
    let mut out: Vec<Inline> = Vec::new();
    let mut buf: Vec<char> = Vec::new();
    let mut k: usize = 0;
    proof {
        assert(inlines_view(out@) =~= Seq::<SpecInline>::empty());
    }
    while k < s.len()
        invariant
            k <= s.len(),
            http@ == lit_http(),
            https@ == lit_https(),
            url_nodes(s@) == inlines_view(out@) + url_nodes_from(s@, k as int, buf@),
        decreases s.len() - k,
    {
        let mut w: usize = k;
        while w < s.len() && !is_whitespace(s[w])
            invariant
                k <= w <= s.len(),
                next_ws(s@, k as int) == next_ws(s@, w as int),
            decreases s.len() - w,
        {
            w = w + 1;
        }
        let p: usize = if w < s.len() { w + 1 } else { s.len() };
        let token = slice_of(s, k, w);
        let ws = slice_of(s, w, p);
        let ghost before = inlines_view(out@);
        let ghost old_buf = buf@;
        if matches_at_exec(&token, &http, 0) || matches_at_exec(&token, &https, 0) {
            if buf.len() > 0 {
                out.push(text_node(&buf));
                buf = Vec::new();
            }
            let label_text = text_node(&token);
            let mut label: Vec<Inline> = Vec::new();
            label.push(label_text);
            out.push(Inline::Link { label, url: string_from_chars(&token) });
            if ws.len() > 0 {
                out.push(text_node(&ws));
            }
            proof {
                assert(inlines_view(label@) =~= seq![SpecInline::Text { value: token@ }]);
                assert(buf@ =~= Seq::<char>::empty());
                let pre = if old_buf.len() > 0 {
                    seq![SpecInline::Text { value: old_buf }]
                } else {
                    Seq::empty()
                };
                let post = if ws@.len() > 0 {
                    seq![SpecInline::Text { value: ws@ }]
                } else {
                    Seq::empty()
                };
                assert(inlines_view(out@) =~= before + pre + seq![
                    SpecInline::Link { label: seq![SpecInline::Text { value: token@ }], url: token@ },
                ] + post);
            }
        } else {
            let part = slice_of(s, k, p);
            let mut i: usize = 0;
            while i < part.len()
                invariant
                    i <= part@.len(),
                    buf@ == old_buf + part@.take(i as int),
                decreases part@.len() - i,
            {
                buf.push(part[i]);
                i = i + 1;
                assert(buf@ =~= old_buf + part@.take(i as int));
            }
            assert(part@.take(part@.len() as int) =~= part@);
        }
        k = p;
    }
    if buf.len() > 0 {
        let ghost before = inlines_view(out@);
        out.push(text_node(&buf));
        assert(inlines_view(out@) =~= before + seq![SpecInline::Text { value: buf@ }]);
    } else {
        assert(inlines_view(out@) =~= inlines_view(out@) + Seq::<SpecInline>::empty());
    }
    out
}

/// Replace every text node by its split around bare URLs, then coalesce.
fn split_bare_urls(nodes: Vec<Inline>) -> (r: Vec<Inline>)
    ensures
        inlines_view(r@) == coalesce(expand_urls(inlines_view(nodes@))),
{
    let ghost ns = inlines_view(nodes@);
    let mut out: Vec<Inline> = Vec::new();
    proof {
        assert(inlines_view(out@) =~= Seq::<SpecInline>::empty());
        assert(ns.take(0) =~= Seq::<SpecInline>::empty());
    }
    for n in it: nodes
        invariant
            it.seq() == nodes@,
            ns == inlines_view(nodes@),
            inlines_view(out@) == expand_urls(ns.take(it.index() as int)),
    {
        let ghost k = it.index() as int;
        let ghost before = inlines_view(out@);
        proof {
            assert(ns.take(k + 1).drop_last() =~= ns.take(k));
            assert(ns.take(k + 1).last() == ns[k]);
        }
        match n {
            Inline::Text { value } => {
                let cs = chars_of(value.as_str());
                let mut piece = split_text_with_urls(&cs);
                let ghost pv = inlines_view(piece@);
                out.append(&mut piece);
                proof {
                    assert(inlines_view(out@) =~= before + pv);
                }
            },
            other => {
                out.push(other);
                proof {
                    assert(inlines_view(out@) =~= before + seq![inline_view(other)]);
                }
            },
        }
    }
    proof {
        assert(ns.take(ns.len() as int) =~= ns);
    }
    coalesce_text(out)
}

/// Merge adjacent text nodes and drop empty ones.
fn coalesce_text(nodes: Vec<Inline>) -> (r: Vec<Inline>)
    ensures
        inlines_view(r@) == coalesce(inlines_view(nodes@)),
{
    let ghost ns = inlines_view(nodes@);
    let mut out: Vec<Inline> = Vec::new();
    proof {
        assert(inlines_view(out@) =~= Seq::<SpecInline>::empty());
        assert(ns.skip(0) =~= ns);
    }
    for n in it: nodes
        invariant
            it.seq() == nodes@,
            ns == inlines_view(nodes@),
            coalesce(ns) == coalesce_into(inlines_view(out@), ns.skip(it.index() as int)),
    {
        proof {
            lemma_coalesce_into_unfold(inlines_view(out@), ns, it.index() as int);
        }
        let ghost before = inlines_view(out@);
        match n {
            Inline::Text { value } => {
                if !value.as_str().is_empty() {
                    let len = out.len();
                    let mut merged = false;
                    if len > 0 {
                        if let Inline::Text { value: v } = &mut out[len - 1] {
                            v.append(value.as_str());
                            merged = true;
                        }
                    }
                    if !merged {
                        out.push(Inline::Text { value });
                    }
                    proof {
                        assert(inlines_view(out@) =~= coalesce_step(before, SpecInline::Text { value: value@ }));
                    }
                }
            },
            other => {
                out.push(other);
                proof {
                    assert(inlines_view(out@) =~= before.push(inline_view(other)));
                }
            },
        }
    }
    proof {
        assert(ns.skip(ns.len() as int) =~= Seq::<SpecInline>::empty());
    }
    out
}

/// Parse a property value into inline nodes: the inline grammar of block
/// text, plus bare `http://` / `https://` URLs turned into link nodes.
pub fn parse_property_value(value: &str) -> (r: Vec<Inline>)
    ensures
        inlines_view(r@) == property_value(value@),
        is_coalesced(inlines_view(r@)),
{
    proof {
        lemma_coalesce_is_coalesced(expand_urls(tokenize(value@)));
    }
    let nodes = tokenize_inline(value);
    split_bare_urls(nodes)
}

} // verus!
