use crate::engine::{DialogLinkCondition, LinkView, NodeView, links_from_owner};
use crate::parser::{
    body_end, ident_end, is_ident_char, is_ws, link_sep_len, next_stop, node_term_len,
    parsed_link, parsed_links, parsed_node, trim_end, ws_end,
};
use crate::writer::{joined_links, link_entry, node_block};
use vstd::prelude::*;

verus! {

proof fn lemma_ws_end_stops(s: Seq<char>, p: int, q: int, end: int)
    requires
        0 <= p <= q <= end <= s.len(),
        forall|i: int| p <= i < q ==> is_ws(#[trigger] s[i]),
        q == end || !is_ws(s[q]),
    ensures
        ws_end(s, p, end) == q,
    decreases q - p,
{
    if p < q {
        lemma_ws_end_stops(s, p + 1, q, end);
    }
}

proof fn lemma_ident_end_stops(s: Seq<char>, p: int, q: int, end: int)
    requires
        0 <= p <= q <= end <= s.len(),
        forall|i: int| p <= i < q ==> is_ident_char(#[trigger] s[i]),
        q == end || !is_ident_char(s[q]),
    ensures
        ident_end(s, p, end) == q,
    decreases q - p,
{
    if p < q {
        lemma_ident_end_stops(s, p + 1, q, end);
    }
}

proof fn lemma_trim_end_stops(s: Seq<char>, a: int, b: int, c: int)
    requires
        0 <= a < c <= b <= s.len(),
        !is_ws(s[c - 1]),
        forall|i: int| c <= i < b ==> is_ws(#[trigger] s[i]),
    ensures
        trim_end(s, a, b) == c,
    decreases b - c,
{
    if c < b {
        lemma_trim_end_stops(s, a, b - 1, c);
    }
}

proof fn lemma_next_stop_at(s: Seq<char>, a: int, q: int)
    requires
        0 <= a <= q < s.len(),
        s[q] == '|' || s[q] == '=',
        forall|i: int| a <= i < q ==> #[trigger] s[i] != '|' && s[i] != '=',
    ensures
        next_stop(s, a) == q,
    decreases q - a,
{
    if a < q {
        lemma_next_stop_at(s, a + 1, q);
    }
}

/// Neither a link separator nor a node terminator begins at `i`.
spec fn no_sep_at(s: Seq<char>, i: int) -> bool {
    link_sep_len(s, i) == 0 && node_term_len(s, i) == 0
}

proof fn lemma_body_end_at(s: Seq<char>, p: int, q: int)
    requires
        0 <= p <= q < s.len(),
        link_sep_len(s, q) > 0 || node_term_len(s, q) > 0,
        forall|i: int| p <= i < q ==> #[trigger] no_sep_at(s, i),
    ensures
        body_end(s, p) == q,
    decreases q - p,
{
    if p < q {
        assert(no_sep_at(s, p));
        lemma_body_end_at(s, p + 1, q);
    }
}

proof fn lemma_no_sep_at(s: Seq<char>, i: int)
    requires
        0 <= i < s.len(),
        s[i] != '\n' && s[i] != '\r' && s[i] != '=',
    ensures
        link_sep_len(s, i) == 0,
        node_term_len(s, i) == 0,
{
    assert(s.subrange(i, i + 1)[0] == s[i]);
    if i + 4 <= s.len() {
        assert(s.subrange(i, i + 4)[0] == s[i]);
    }
    if i + 5 <= s.len() {
        assert(s.subrange(i, i + 5)[0] == s[i]);
    }
    if i + 7 <= s.len() {
        assert(s.subrange(i, i + 7)[0] == s[i]);
    }
}

proof fn lemma_at(s: Seq<char>, o: int, t: Seq<char>, j: int)
    requires
        0 <= o,
        o + t.len() <= s.len(),
        s.subrange(o, o + t.len()) == t,
        0 <= j < t.len(),
    ensures
        s[o + j] == t[j],
{
    assert(s.subrange(o, o + t.len())[j] == s[o + j]);
}

/// Text that the writer and the parser agree on: not empty, without surrounding
/// whitespace, and without a line break, `=` or `|`.
pub open spec fn is_plain_text(t: Seq<char>) -> bool {
    &&& t.len() > 0
    &&& !is_ws(t[0])
    &&& !is_ws(t[t.len() - 1])
    &&& forall|i: int|
        0 <= i < t.len() ==> #[trigger] t[i] != '\n' && t[i] != '\r' && t[i] != '=' && t[i]
            != '|'
}

/// A non-empty run of identifier characters.
pub open spec fn is_identifier(t: Seq<char>) -> bool {
    t.len() > 0 && forall|i: int| 0 <= i < t.len() ==> is_ident_char(#[trigger] t[i])
}

/// A link whose target and text the format can carry.
pub open spec fn is_writable_link(l: LinkView) -> bool {
    is_identifier(l.to) && is_plain_text(l.text)
}

/// A node whose id, text and links the format can carry.
pub open spec fn is_writable_node(n: NodeView) -> bool {
    &&& is_identifier(n.id)
    &&& is_plain_text(n.text)
    &&& links_from_owner(n)
    &&& forall|k: int| 0 <= k < n.links.len() ==> is_writable_link(#[trigger] n.links[k])
}

/// The link with its condition dropped, as the format reads it back.
pub open spec fn unconditional(l: LinkView) -> LinkView {
    LinkView { condition: DialogLinkCondition::Always, ..l }
}

/// The links with their conditions dropped.
pub open spec fn unconditional_links(ls: Seq<LinkView>) -> Seq<LinkView> {
    ls.map_values(|l: LinkView| unconditional(l))
}

/// Where the `k`-th entry begins in the written choice list.
pub open spec fn entry_start(ls: Seq<LinkView>, k: int) -> int {
    if k == 0 {
        0
    } else {
        joined_links(ls.take(k)).len() as int + 3
    }
}

proof fn lemma_joined_step(ls: Seq<LinkView>, m: int)
    requires
        0 <= m < ls.len(),
    ensures
        m == 0 ==> joined_links(ls.take(m + 1)) == link_entry(ls[m]),
        m > 0 ==> joined_links(ls.take(m + 1)) == joined_links(ls.take(m)) + " | "@ + link_entry(
            ls[m],
        ),
{
    assert(ls.take(m + 1).drop_last() =~= ls.take(m));
    assert(ls.take(m + 1).last() == ls[m]);
    assert(ls.take(m + 1).len() == m + 1);
}

proof fn lemma_joined_prefix(ls: Seq<LinkView>, m: int)
    requires
        0 <= m <= ls.len(),
    ensures
        joined_links(ls.take(m)).len() <= joined_links(ls).len(),
        joined_links(ls).subrange(0, joined_links(ls.take(m)).len() as int) == joined_links(
            ls.take(m),
        ),
    decreases ls.len() - m,
{
    let j = joined_links(ls);
    if m == ls.len() {
        assert(ls.take(m) =~= ls);
        assert(j.subrange(0, j.len() as int) =~= j);
    } else {
        lemma_joined_prefix(ls, m + 1);
        lemma_joined_step(ls, m);
        let p = joined_links(ls.take(m));
        let q = joined_links(ls.take(m + 1));
        if m == 0 {
            assert(ls.take(0) =~= Seq::<LinkView>::empty());
            assert(j.subrange(0, 0) =~= p);
        } else {
            assert(q.subrange(0, p.len() as int) =~= p);
            assert(j.subrange(0, p.len() as int) =~= q.subrange(0, p.len() as int));
        }
    }
}

proof fn lemma_entry_in_list(ls: Seq<LinkView>, k: int)
    requires
        0 <= k < ls.len(),
    ensures
        ({
            let j = joined_links(ls);
            let st = entry_start(ls, k);
            let e = link_entry(ls[k]);
            &&& 0 <= st
            &&& st + e.len() <= j.len()
            &&& j.subrange(st, st + e.len()) == e
            &&& k + 1 < ls.len() ==> st + e.len() + 3 <= j.len() && j.subrange(
                st + e.len(),
                st + e.len() + 3,
            ) == " | "@ && entry_start(ls, k + 1) == st + e.len() + 3
            &&& k + 1 == ls.len() ==> st + e.len() == j.len()
        }),
{
    reveal_strlit(" | ");
    let j = joined_links(ls);
    let st = entry_start(ls, k);
    let e = link_entry(ls[k]);
    lemma_joined_step(ls, k);
    lemma_joined_prefix(ls, k + 1);
    let q = joined_links(ls.take(k + 1));
    assert(q.len() == st + e.len());
    assert(q.subrange(st, st + e.len()) =~= e);
    assert(j.subrange(st, st + e.len()) =~= q.subrange(st, st + e.len()));
    if k + 1 < ls.len() {
        lemma_joined_step(ls, k + 1);
        lemma_joined_prefix(ls, k + 2);
        let r = joined_links(ls.take(k + 2));
        let ql = q.len() as int;
        assert(r.subrange(ql, ql + 3) =~= " | "@);
        assert(j.subrange(ql, ql + 3) =~= r.subrange(ql, ql + 3));
    } else {
        assert(ls.take(k + 1) =~= ls);
    }
}

proof fn lemma_entry_chars(l: LinkView)
    ensures
        ({
            let e = link_entry(l);
            let n = l.to.len() as int;
            &&& e.len() == n + l.text.len() + 3
            &&& e[0] == '{'
            &&& forall|j: int| 0 <= j < n ==> e[1 + j] == #[trigger] l.to[j]
            &&& e[1 + n] == '}'
            &&& e[2 + n] == ' '
            &&& forall|j: int| 0 <= j < l.text.len() ==> e[3 + n + j] == #[trigger] l.text[j]
            &&& e.subrange(1, 1 + n) == l.to
            &&& e.subrange(3 + n, e.len() as int) == l.text
        }),
{
    reveal_strlit("{");
    reveal_strlit("} ");
    let e = link_entry(l);
    let n = l.to.len() as int;
    assert(e.subrange(1, 1 + n) =~= l.to);
    assert(e.subrange(3 + n, e.len() as int) =~= l.text);
}

/// Where the parser resumes for the `k`-th entry of a choice list written at `c`.
spec fn entry_resume(ls: Seq<LinkView>, c: int, k: int) -> int {
    if k == 0 {
        c
    } else {
        c + entry_start(ls, k) - 1
    }
}

proof fn lemma_entry_reads_back(s: Seq<char>, pos: int, st: int, l: LinkView, id: Seq<char>)
    requires
        is_writable_link(l),
        l.from == id,
        0 <= pos <= st,
        st + link_entry(l).len() + 1 < s.len(),
        s.subrange(st, st + link_entry(l).len()) == link_entry(l),
        forall|i: int| pos <= i < st ==> #[trigger] s[i] == ' ',
        is_ws(s[st + link_entry(l).len()]),
        s[st + link_entry(l).len() + 1] == '|' || s[st + link_entry(l).len() + 1] == '=',
    ensures
        next_stop(s, pos) == st + link_entry(l).len() + 1,
        parsed_link(s, pos, st + link_entry(l).len() + 1, id) == Ok::<LinkView, int>(
            unconditional(l),
        ),
{
    let e = link_entry(l);
    let n = l.to.len() as int;
    let stop = st + e.len() + 1;
    lemma_entry_chars(l);
    assert forall|j: int| 0 <= j < e.len() implies #[trigger] e[j] == s[st + j] by {
        lemma_at(s, st, e, j);
    }
    assert(s[st] == e[0]);
    assert(s[st + 1 + n] == e[1 + n]);
    assert(s[st + 2 + n] == e[2 + n]);
    assert(l.text[0] == e[3 + n + 0]);
    assert(s[st + 3 + n] == l.text[0]);
    let last = l.text.len() - 1;
    assert(l.text[last] == e[3 + n + last]);
    assert(s[st + e.len() - 1] == l.text[last]);
    assert forall|i: int| pos <= i < stop implies #[trigger] s[i] != '|' && s[i] != '=' by {
        if st <= i < st + e.len() {
            let j = i - st;
            assert(s[i] == e[j]);
            if 1 <= j < 1 + n {
                assert(e[1 + (j - 1)] == l.to[j - 1]);
                assert(is_ident_char(l.to[j - 1]));
            } else if 3 + n <= j {
                assert(e[3 + n + (j - 3 - n)] == l.text[j - 3 - n]);
            }
        }
    }
    lemma_next_stop_at(s, pos, stop);
    lemma_ws_end_stops(s, pos, st, stop);
    assert forall|i: int| st + 1 <= i < st + 1 + n implies is_ident_char(#[trigger] s[i]) by {
        assert(e[1 + (i - st - 1)] == l.to[i - st - 1]);
        assert(s[st + (1 + (i - st - 1))] == e[1 + (i - st - 1)]);
    }
    lemma_ident_end_stops(s, st + 1, st + 1 + n, stop);
    lemma_ws_end_stops(s, st + 2 + n, st + 3 + n, stop);
    lemma_trim_end_stops(s, st + 3 + n, stop, st + e.len());
    assert(s.subrange(st + 1, st + 1 + n) =~= l.to);
    assert forall|i: int| 0 <= i < l.text.len() implies #[trigger] s.subrange(
        st + 3 + n,
        st + e.len(),
    )[i] == l.text[i] by {
        assert(e[3 + n + i] == l.text[i]);
        assert(s[st + (3 + n + i)] == e[3 + n + i]);
    }
    assert(s.subrange(st + 3 + n, st + e.len()) =~= l.text);
}

proof fn lemma_links_read_back(
    s: Seq<char>,
    c: int,
    ls: Seq<LinkView>,
    id: Seq<char>,
    k: int,
    acc: Seq<LinkView>,
)
    requires
        0 <= k < ls.len(),
        forall|i: int| 0 <= i < ls.len() ==> is_writable_link(#[trigger] ls[i]),
        forall|i: int| 0 <= i < ls.len() ==> (#[trigger] ls[i]).from == id,
        0 <= c,
        c + joined_links(ls).len() + 2 <= s.len(),
        s.subrange(c, c + joined_links(ls).len()) == joined_links(ls),
        is_ws(s[c + joined_links(ls).len()]),
        s[c + joined_links(ls).len() + 1] == '=',
        k > 0 ==> s[entry_resume(ls, c, k)] == ' ',
    ensures
        parsed_links(s, entry_resume(ls, c, k), id, acc) == Ok::<(Seq<LinkView>, int), int>(
            (acc + unconditional_links(ls.skip(k)), c + joined_links(ls).len()
                + 1),
        ),
    decreases ls.len() - k,
{
    reveal_strlit(" | ");
    let jl = joined_links(ls);
    let es = entry_start(ls, k);
    let st = c + es;
    let l = ls[k];
    let e = link_entry(l);
    let stop = st + e.len() + 1;
    let pos = entry_resume(ls, c, k);
    lemma_entry_in_list(ls, k);
    assert forall|j: int| 0 <= j < e.len() implies #[trigger] s.subrange(st, st + e.len())[j]
        == e[j] by {
        lemma_at(s, c, jl, es + j);
        lemma_at(jl, es, e, j);
    }
    assert(s.subrange(st, st + e.len()) =~= e);
    if k + 1 < ls.len() {
        lemma_at(s, c, jl, es + e.len());
        lemma_at(s, c, jl, es + e.len() + 1);
        lemma_at(jl, es + e.len(), " | "@, 0);
        lemma_at(jl, es + e.len(), " | "@, 1);
        assert(s[st + e.len()] == ' ');
        assert(s[stop] == '|');
    } else {
        assert(stop == c + jl.len() + 1);
    }
    assert forall|i: int| pos <= i < st implies #[trigger] s[i] == ' ' by {
        assert(i == pos);
    }
    lemma_entry_reads_back(s, pos, st, l, id);
    let rest = unconditional_links(ls.skip(k));
    if k + 1 < ls.len() {
        lemma_at(s, c, jl, es + e.len() + 2);
        lemma_at(jl, es + e.len(), " | "@, 2);
        lemma_links_read_back(s, c, ls, id, k + 1, acc.push(unconditional(l)));
        assert(acc.push(unconditional(l)) + unconditional_links(ls.skip(k + 1)) =~= acc + rest);
    } else {
        assert(acc.push(unconditional(l)) =~= acc + rest);
    }
}

spec fn links_part(n: NodeView) -> Seq<char> {
    if n.links.len() == 0 {
        Seq::empty()
    } else {
        "\n---\n"@ + joined_links(n.links)
    }
}

proof fn lemma_block_layout(n: NodeView)
    ensures
        ({
            let b = node_block(n);
            let bi = 6 + n.id.len() as int;
            let tb = bi + 1 + n.text.len() as int;
            let tl = tb + links_part(n).len() as int;
            &&& b.len() == tl + 6
            &&& b.subrange(0, 5) == seq!['N', 'a', 'm', 'e', ':']
            &&& b[5] == ' '
            &&& b.subrange(6, bi) == n.id
            &&& b[bi] == '\n'
            &&& b.subrange(bi + 1, tb) == n.text
            &&& b.subrange(tb, tl) == links_part(n)
            &&& b.subrange(tl, tl + 6) == seq!['\n', '=', '=', '=', '\n', '\n']
            &&& n.links.len() > 0 ==> b.subrange(tb, tb + 5) == seq!['\n', '-', '-', '-', '\n']
                && b.subrange(tb + 5, tl) == joined_links(n.links) && tl == tb + 5 + joined_links(
                n.links,
            ).len()
        }),
{
    reveal_strlit("\n---\n");
    reveal_strlit("Name: ");
    reveal_strlit("\n");
    reveal_strlit("\n===\n\n");
    let b = node_block(n);
    let bi = 6 + n.id.len() as int;
    let tb = bi + 1 + n.text.len() as int;
    let tl = tb + links_part(n).len() as int;
    assert(b == "Name: "@ + n.id + "\n"@ + n.text + links_part(n) + "\n===\n\n"@);
    assert(b.subrange(0, 5) =~= seq!['N', 'a', 'm', 'e', ':']);
    assert(b.subrange(6, bi) =~= n.id);
    assert(b.subrange(bi + 1, tb) =~= n.text);
    assert(b.subrange(tb, tl) =~= links_part(n));
    assert(b.subrange(tl, tl + 6) =~= seq!['\n', '=', '=', '=', '\n', '\n']);
    if n.links.len() > 0 {
        assert(b.subrange(tb, tb + 5) =~= seq!['\n', '-', '-', '-', '\n']);
        assert(b.subrange(tb + 5, tl) =~= joined_links(n.links));
    }
}

proof fn lemma_header_reads(s: Seq<char>, o: int, id: Seq<char>)
    requires
        is_identifier(id),
        0 <= o,
        o + 6 + id.len() as int + 1 < s.len(),
        s.subrange(o, o + 5) == seq!['N', 'a', 'm', 'e', ':'],
        s[o + 5] == ' ',
        s.subrange(o + 6, o + 6 + id.len() as int) == id,
        s[o + 6 + id.len() as int] == '\n',
        !is_ws(s[o + 6 + id.len() as int + 1]),
    ensures
        ws_end(s, o, s.len() as int) == o,
        ws_end(s, o + 5, s.len() as int) == o + 6,
        ident_end(s, o + 6, s.len() as int) == o + 6 + id.len() as int,
        ws_end(s, o + 6 + id.len() as int, s.len() as int) == o + 6 + id.len() as int + 1,
{
    let len = s.len() as int;
    let bi = o + 6 + id.len() as int;
    assert(s.subrange(o, o + 5)[0] == s[o]);
    lemma_ws_end_stops(s, o, o, len);
    lemma_at(s, o + 6, id, 0);
    lemma_ws_end_stops(s, o + 5, o + 6, len);
    assert forall|i: int| o + 6 <= i < bi implies is_ident_char(#[trigger] s[i]) by {
        lemma_at(s, o + 6, id, i - o - 6);
    }
    lemma_ident_end_stops(s, o + 6, bi, len);
    lemma_ws_end_stops(s, bi, bi + 1, len);
}

proof fn lemma_plain_body(s: Seq<char>, ta: int, text: Seq<char>)
    requires
        is_plain_text(text),
        0 <= ta,
        ta + text.len() <= s.len(),
        s.subrange(ta, ta + text.len()) == text,
    ensures
        !is_ws(s[ta]),
        !is_ws(s[ta + text.len() - 1]),
        forall|i: int| ta <= i < ta + text.len() ==> #[trigger] no_sep_at(s, i),
{
    lemma_at(s, ta, text, 0);
    lemma_at(s, ta, text, text.len() - 1);
    assert forall|i: int| ta <= i < ta + text.len() implies #[trigger] no_sep_at(s, i) by {
        lemma_at(s, ta, text, i - ta);
        lemma_no_sep_at(s, i);
    }
}

/// The shared premises of the two ways a written node block ends.
spec fn block_start(s: Seq<char>, o: int, id: Seq<char>, text: Seq<char>) -> bool {
    let ta = o + 6 + id.len() as int + 1;
    &&& 0 <= o
    &&& is_identifier(id)
    &&& is_plain_text(text)
    &&& ta + text.len() < s.len()
    &&& s.subrange(o, o + 5) == seq!['N', 'a', 'm', 'e', ':']
    &&& s[o + 5] == ' '
    &&& s.subrange(o + 6, o + 6 + id.len() as int) == id
    &&& s[o + 6 + id.len() as int] == '\n'
    &&& s.subrange(ta, ta + text.len()) == text
}

#[verifier::rlimit(40)]
proof fn lemma_block_without_links(s: Seq<char>, o: int, id: Seq<char>, text: Seq<char>)
    requires
        block_start(s, o, id, text),
        o + 6 + id.len() + 1 + text.len() + 6 <= s.len(),
        s.subrange(
            o + 6 + id.len() as int + 1 + text.len() as int,
            o + 6 + id.len() as int + 1 + text.len() as int + 6,
        ) == seq!['\n', '=', '=', '=', '\n', '\n'],
    ensures
        parsed_node(s, o) == Ok::<(NodeView, int), int>(
            (
                NodeView { id, text, links: Seq::empty() },
                o + 6 + id.len() as int + 1 + text.len() as int + 5,
            ),
        ),
{
    let ta = o + 6 + id.len() as int + 1;
    let tb = ta + text.len() as int;
    lemma_plain_body(s, ta, text);
    lemma_header_reads(s, o, id);
    let tail = seq!['\n', '=', '=', '=', '\n', '\n'];
    lemma_at(s, tb, tail, 0);
    lemma_at(s, tb, tail, 1);
    lemma_at(s, tb, tail, 4);
    assert(s.subrange(tb, tb + 2)[1] == '=');
    assert(s.subrange(tb + 1, tb + 6)[3] == '\n');
    assert(s.subrange(tb + 1, tb + 5) =~= seq!['=', '=', '=', '\n']);
    assert(link_sep_len(s, tb) == 0 && node_term_len(s, tb) == 0);
    assert(no_sep_at(s, tb));
    lemma_body_end_at(s, ta, tb + 1);
    lemma_trim_end_stops(s, ta, tb + 1, tb);
    assert(s.subrange(tb + 1, tb + 2)[0] == '=');
    assert(link_sep_len(s, tb + 1) == 0);
    assert(node_term_len(s, tb + 1) == 4);
}

#[verifier::rlimit(40)]
proof fn lemma_block_with_links(
    s: Seq<char>,
    o: int,
    id: Seq<char>,
    text: Seq<char>,
    ls: Seq<LinkView>,
)
    requires
        block_start(s, o, id, text),
        ls.len() > 0,
        forall|i: int| 0 <= i < ls.len() ==> is_writable_link(#[trigger] ls[i]),
        forall|i: int| 0 <= i < ls.len() ==> (#[trigger] ls[i]).from == id,
        o + 6 + id.len() + 1 + text.len() + 5 + joined_links(ls).len() + 6 <= s.len(),
        s.subrange(
            o + 6 + id.len() as int + 1 + text.len() as int,
            o + 6 + id.len() as int + 1 + text.len() as int + 5,
        ) == seq!['\n', '-', '-', '-', '\n'],
        s.subrange(
            o + 6 + id.len() as int + 1 + text.len() as int + 5,
            o + 6 + id.len() as int + 1 + text.len() as int + 5 + joined_links(ls).len() as int,
        ) == joined_links(ls),
        s.subrange(
            o + 6 + id.len() as int + 1 + text.len() as int + 5 + joined_links(ls).len() as int,
            o + 6 + id.len() as int + 1 + text.len() as int + 5 + joined_links(ls).len() as int + 6,
        ) == seq!['\n', '=', '=', '=', '\n', '\n'],
    ensures
        parsed_node(s, o) == Ok::<(NodeView, int), int>(
            (
                NodeView { id, text, links: unconditional_links(ls) },
                o + 6 + id.len() as int + 1 + text.len() as int + 5 + joined_links(ls).len() as int
                    + 5,
            ),
        ),
{
    let ta = o + 6 + id.len() as int + 1;
    let tb = ta + text.len() as int;
    let c = tb + 5;
    let tl = c + joined_links(ls).len() as int;
    lemma_plain_body(s, ta, text);
    lemma_header_reads(s, o, id);
    let sep = seq!['\n', '-', '-', '-', '\n'];
    let tail = seq!['\n', '=', '=', '=', '\n', '\n'];
    lemma_at(s, tb, sep, 0);
    assert(s.subrange(tb, tb + 7)[0] == '\n');
    assert(link_sep_len(s, tb) == 5);
    lemma_body_end_at(s, ta, tb);
    lemma_trim_end_stops(s, ta, tb, tb);
    lemma_at(s, tl, tail, 0);
    lemma_at(s, tl, tail, 1);
    lemma_at(s, tl, tail, 4);
    lemma_links_read_back(s, c, ls, id, 0, Seq::empty());
    assert(Seq::<LinkView>::empty() + unconditional_links(ls.skip(0)) =~= unconditional_links(ls));
    let e = tl + 1;
    assert(s.subrange(e, e + 5)[3] == '\n');
    assert(s.subrange(e, e + 4) =~= seq!['=', '=', '=', '\n']);
    assert(node_term_len(s, e) == 4);
}

/// `b` stands in `s` from position `o` on.
spec fn placed(s: Seq<char>, o: int, b: Seq<char>) -> bool {
    &&& 0 <= o
    &&& o + b.len() <= s.len()
    &&& forall|i: int| 0 <= i < b.len() ==> #[trigger] b[i] == s[o + i]
}

proof fn lemma_subrange_of(s: Seq<char>, o: int, b: Seq<char>, x: int, y: int)
    requires
        placed(s, o, b),
        0 <= x <= y <= b.len(),
    ensures
        s.subrange(o + x, o + y) == b.subrange(x, y),
{
    assert forall|i: int| 0 <= i < y - x implies #[trigger] s.subrange(o + x, o + y)[i] == b.subrange(
        x,
        y,
    )[i] by {
        assert(b[x + i] == s[o + (x + i)]);
    }
    assert(s.subrange(o + x, o + y) =~= b.subrange(x, y));
}

/// The node with its links' conditions dropped.
pub open spec fn unconditional_node(n: NodeView) -> NodeView {
    NodeView { links: unconditional_links(n.links), ..n }
}

proof fn lemma_block_head(s: Seq<char>, o: int, n: NodeView)
    requires
        is_writable_node(n),
        placed(s, o, node_block(n)),
    ensures
        block_start(s, o, n.id, n.text),
{
    let b = node_block(n);
    let bi = 6 + n.id.len() as int;
    let tb = bi + 1 + n.text.len() as int;
    lemma_block_layout(n);
    lemma_subrange_of(s, o, b, 0, 5);
    lemma_subrange_of(s, o, b, 6, bi);
    lemma_subrange_of(s, o, b, bi + 1, tb);
    assert(b[5] == s[o + 5]);
    assert(b[bi] == s[o + bi]);
}

proof fn lemma_block_tail_plain(s: Seq<char>, o: int, n: NodeView)
    requires
        n.links.len() == 0,
        placed(s, o, node_block(n)),
    ensures
        ({
            let tb = o + 6 + n.id.len() as int + 1 + n.text.len() as int;
            &&& o + node_block(n).len() == tb + 6
            &&& s.subrange(tb, tb + 6) == seq!['\n', '=', '=', '=', '\n', '\n']
        }),
{
    let b = node_block(n);
    let tb = 6 + n.id.len() as int + 1 + n.text.len() as int;
    lemma_block_layout(n);
    assert(links_part(n).len() == 0);
    lemma_subrange_of(s, o, b, tb, tb + 6);
}

#[verifier::rlimit(80)]
proof fn lemma_block_tail_links(s: Seq<char>, o: int, n: NodeView)
    requires
        n.links.len() > 0,
        placed(s, o, node_block(n)),
    ensures
        ({
            let tb = o + 6 + n.id.len() as int + 1 + n.text.len() as int;
            let jl = joined_links(n.links);
            let tl = tb + 5 + jl.len() as int;
            &&& o + node_block(n).len() == tl + 6
            &&& s.subrange(tb, tb + 5) == seq!['\n', '-', '-', '-', '\n']
            &&& s.subrange(tb + 5, tl) == jl
            &&& s.subrange(tl, tl + 6) == seq!['\n', '=', '=', '=', '\n', '\n']
        }),
{
    let b = node_block(n);
    let tb = 6 + n.id.len() as int + 1 + n.text.len() as int;
    let tl = tb + 5 + joined_links(n.links).len() as int;
    lemma_block_layout(n);
    lemma_subrange_of(s, o, b, tb, tb + 5);
    lemma_subrange_of(s, o, b, tb + 5, tl);
    lemma_subrange_of(s, o, b, tl, tl + 6);
}

proof fn lemma_block_at(s: Seq<char>, o: int, n: NodeView)
    requires
        is_writable_node(n),
        placed(s, o, node_block(n)),
    ensures
        parsed_node(s, o) == Ok::<(NodeView, int), int>(
            (unconditional_node(n), o + node_block(n).len() - 1),
        ),
{
    let ls = n.links;
    lemma_block_head(s, o, n);
    if ls.len() == 0 {
        lemma_block_tail_plain(s, o, n);
        assert(unconditional_links(ls) =~= Seq::empty());
        lemma_block_without_links(s, o, n.id, n.text);
    } else {
        assert forall|i: int| 0 <= i < ls.len() implies (#[trigger] ls[i]).from == n.id by {
            assert(links_from_owner(n));
        }
        lemma_block_tail_links(s, o, n);
        lemma_block_with_links(s, o, n.id, n.text, ls);
    }
}

/// A node block as the writer writes it reads back, through the parser, as the
/// same node with every link unconditional, ending at the blank line after it.
pub proof fn lemma_node_block_reads_back(n: NodeView)
    requires
        is_writable_node(n),
    ensures
        parsed_node(node_block(n), 0) == Ok::<(NodeView, int), int>(
            (unconditional_node(n), node_block(n).len() - 1),
        ),
{
    let b = node_block(n);
    assert(placed(b, 0, b));
    lemma_block_at(b, 0, n);
}

} // verus!
