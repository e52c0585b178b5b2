use crate::engine::{
    Dialog, DialogBuilder, DialogError, DialogLink, DialogLinkCondition, DialogNode, DialogNodeId,
    DialogView, LinkView, NodeView, first_missing_at, invalid_link, link_views, links_from_owner,
    node_views, nodes_with, targets_present,
};
use vstd::prelude::*;
use vstd::string::StrSliceExecFns;

verus! {

/// Why a text could not be read as a dialogue.
#[derive(Debug, PartialEq, Eq)]
pub enum DialogParseError {
    /// The text is well formed but a link names a node that is never defined.
    DialogBuildError(DialogError),
    /// The text stops matching the grammar at this character position.
    SyntaxError(usize),
}

pub open spec fn is_ws(c: char) -> bool {
    c == ' ' || c == '\t' || c == '\n' || c == '\r'
}

pub open spec fn is_ident_char(c: char) -> bool {
    ('A' <= c && c <= 'Z') || ('a' <= c && c <= 'z') || ('0' <= c && c <= '9')
}

/// The first position from `p` that is `end` or holds no whitespace.
pub open spec fn ws_end(s: Seq<char>, p: int, end: int) -> int
    decreases end - p,
{
    if p < end && is_ws(s[p]) {
        ws_end(s, p + 1, end)
    } else {
        p
    }
}

/// The first position from `p` that is `end` or holds no identifier character.
pub open spec fn ident_end(s: Seq<char>, p: int, end: int) -> int
    decreases end - p,
{
    if p < end && is_ident_char(s[p]) {
        ident_end(s, p + 1, end)
    } else {
        p
    }
}

/// The end of `[a, b)` once trailing whitespace is dropped.
pub open spec fn trim_end(s: Seq<char>, a: int, b: int) -> int
    decreases b - a,
{
    if a < b && is_ws(s[b - 1]) {
        trim_end(s, a, b - 1)
    } else {
        b
    }
}

pub open spec fn matches_at(s: Seq<char>, p: int, t: Seq<char>) -> bool {
    0 <= p && p + t.len() <= s.len() && s.subrange(p, p + t.len()) == t
}

/// Length of the link separator (a line `---`, with its line breaks) at `p`, or 0.
pub open spec fn link_sep_len(s: Seq<char>, p: int) -> int {
    if matches_at(s, p, seq!['\r', '\n', '-', '-', '-', '\r', '\n']) {
        7
    } else if matches_at(s, p, seq!['\n', '-', '-', '-', '\n']) {
        5
    } else {
        0
    }
}

/// Length of the node terminator (`===` and a line break) at `p`, or 0.
pub open spec fn node_term_len(s: Seq<char>, p: int) -> int {
    if matches_at(s, p, seq!['=', '=', '=', '\r', '\n']) {
        5
    } else if matches_at(s, p, seq!['=', '=', '=', '\n']) {
        4
    } else {
        0
    }
}

/// The first position from `p` where a link separator or a node terminator
/// begins, or the length of `s` when there is none.
pub open spec fn body_end(s: Seq<char>, p: int) -> int
    decreases s.len() - p,
{
    if p >= s.len() {
        s.len() as int
    } else if link_sep_len(s, p) > 0 || node_term_len(s, p) > 0 {
        p
    } else {
        body_end(s, p + 1)
    }
}

/// The first position from `a` that holds `|` or `=`, or the length of `s`.
pub open spec fn next_stop(s: Seq<char>, a: int) -> int
    decreases s.len() - a,
{
    if a >= s.len() {
        s.len() as int
    } else if s[a] == '|' || s[a] == '=' {
        a
    } else {
        next_stop(s, a + 1)
    }
}

/// The choice `{target} text` written in `[a, b)`, as a link from `from`, or
/// the position where it stops matching.
pub open spec fn parsed_link(s: Seq<char>, a: int, b: int, from: Seq<char>) -> Result<
    LinkView,
    int,
> {
    let a1 = ws_end(s, a, b);
    if !(a1 < b && s[a1] == '{') {
        Err(a1)
    } else {
        let a2 = ident_end(s, a1 + 1, b);
        if a2 == a1 + 1 || !(a2 < b && s[a2] == '}') {
            Err(a2)
        } else {
            let t0 = ws_end(s, a2 + 1, b);
            let t1 = trim_end(s, t0, b);
            Ok(
                LinkView {
                    from,
                    to: s.subrange(a1 + 1, a2),
                    text: s.subrange(t0, t1),
                    condition: DialogLinkCondition::Always,
                },
            )
        }
    }
}

/// The choices from `a` on, separated by `|` and ended by `=`, appended to
/// `acc`, with the position of that `=`; or the position where they stop matching.
pub open spec fn parsed_links(s: Seq<char>, a: int, from: Seq<char>, acc: Seq<LinkView>) -> Result<
    (Seq<LinkView>, int),
    int,
>
    decreases s.len() - a,
{
    let stop = next_stop(s, a);
    if stop >= s.len() {
        Err(s.len() as int)
    } else if stop < a {
        // never taken: `next_stop` is at least `a`; it keeps the recursion well founded
        Err(a)
    } else {
        match parsed_link(s, a, stop, from) {
            Err(e) => Err(e),
            Ok(l) => if s[stop] == '|' {
                parsed_links(s, stop + 1, from, acc.push(l))
            } else {
                Ok((acc.push(l), stop))
            },
        }
    }
}

/// The node block from `p` on, with the position just after its terminator;
/// or the position where it stops matching.
pub open spec fn parsed_node(s: Seq<char>, p: int) -> Result<(NodeView, int), int> {
    let len = s.len() as int;
    let name_at = ws_end(s, p, len);
    if !matches_at(s, name_at, seq!['N', 'a', 'm', 'e', ':']) {
        Err(name_at)
    } else {
        let id_at = ws_end(s, name_at + 5, len);
        let id_end = ident_end(s, id_at, len);
        if id_end == id_at {
            Err(id_at)
        } else {
            let id = s.subrange(id_at, id_end);
            let body_at = ws_end(s, id_end, len);
            let q = body_end(s, body_at);
            if q >= len {
                Err(q)
            } else {
                let text = s.subrange(body_at, trim_end(s, body_at, q));
                if link_sep_len(s, q) > 0 {
                    match parsed_links(s, q + link_sep_len(s, q), id, Seq::empty()) {
                        Err(e) => Err(e),
                        Ok((links, e)) => if node_term_len(s, e) > 0 {
                            Ok((NodeView { id, text, links }, e + node_term_len(s, e)))
                        } else {
                            Err(e)
                        },
                    }
                } else {
                    Ok((NodeView { id, text, links: Seq::empty() }, q + node_term_len(s, q)))
                }
            }
        }
    }
}

/// The node blocks from `p` to the end of `s`, appended to `acc`; or the
/// position where they stop matching.
pub open spec fn parsed_nodes(s: Seq<char>, p: int, acc: Seq<NodeView>) -> Result<
    Seq<NodeView>,
    int,
>
    decreases s.len() - p,
{
    match parsed_node(s, p) {
        Err(e) => Err(e),
        Ok((n, after)) => {
            let next = ws_end(s, after, s.len() as int);
            if next >= s.len() {
                Ok(acc.push(n))
            } else if next <= p {
                // never taken: a block is never empty; it keeps the recursion well founded
                Err(next)
            } else {
                parsed_nodes(s, next, acc.push(n))
            }
        },
    }
}

/// The node set after inserting the nodes in order, the first one first.
pub open spec fn collected_nodes(ns: Seq<NodeView>) -> Seq<NodeView>
    decreases ns.len(),
{
    if ns.len() <= 1 {
        ns
    } else {
        nodes_with(collected_nodes(ns.drop_last()), ns.last())
    }
}

pub fn is_alphanumeric(ch: char) -> (r: bool)
    ensures
        r == is_ident_char(ch),
{
    ('A' <= ch && ch <= 'Z') || ('a' <= ch && ch <= 'z') || ('0' <= ch && ch <= '9')
}

pub fn is_whitespace(ch: char) -> (r: bool)
    ensures
        r == is_ws(ch),
{
    ch == ' ' || ch == '\t' || ch == '\n' || ch == '\r'
}

/// Skips whitespace from `p`, stopping at `end`.
fn trim(chars: &Vec<char>, p: usize, end: usize) -> (r: usize)
    requires
        p <= end <= chars@.len(),
    ensures
        r == ws_end(chars@, p as int, end as int),
        p <= r <= end,
{
    let mut i = p;
    while i < end && is_whitespace(chars[i])
        invariant
            p <= i <= end <= chars@.len(),
            ws_end(chars@, p as int, end as int) == ws_end(chars@, i as int, end as int),
        decreases end - i,
    {
        i += 1;
    }
    i
}

/// Skips identifier characters from `p`, stopping at `end`.
fn identifier(chars: &Vec<char>, p: usize, end: usize) -> (r: usize)
    requires
        p <= end <= chars@.len(),
    ensures
        r == ident_end(chars@, p as int, end as int),
        p <= r <= end,
{
    let mut i = p;
    while i < end && is_alphanumeric(chars[i])
        invariant
            p <= i <= end <= chars@.len(),
            ident_end(chars@, p as int, end as int) == ident_end(chars@, i as int, end as int),
        decreases end - i,
    {
        i += 1;
    }
    i
}

fn trailing(chars: &Vec<char>, a: usize, b: usize) -> (r: usize)
    requires
        a <= b <= chars@.len(),
    ensures
        r == trim_end(chars@, a as int, b as int),
        a <= r <= b,
{
    let mut j = b;
    while j > a && is_whitespace(chars[j - 1])
        invariant
            a <= j <= b <= chars@.len(),
            trim_end(chars@, a as int, b as int) == trim_end(chars@, a as int, j as int),
        decreases j - a,
    {
        j -= 1;
    }
    j
}

fn matches(chars: &Vec<char>, p: usize, t: &Vec<char>) -> (r: bool)
    requires
        p <= chars@.len(),
    ensures
        r == matches_at(chars@, p as int, t@),
{
    if t.len() > chars.len() - p {
        return false;
    }
    let mut k: usize = 0;
    while k < t.len()
        invariant
            p + t@.len() <= chars@.len() <= usize::MAX,
            k <= t@.len(),
            forall|j: int| 0 <= j < k ==> chars@[p + j] == t@[j],
        decreases t@.len() - k,
    {
        if chars[p + k] != t[k] {
            assert(chars@.subrange(p as int, p + t@.len())[k as int] != t@[k as int]);
            return false;
        }
        k += 1;
    }
    assert(chars@.subrange(p as int, p + t@.len()) =~= t@);
    true
}

fn link_separator(chars: &Vec<char>, p: usize) -> (r: usize)
    requires
        p <= chars@.len(),
    ensures
        r == link_sep_len(chars@, p as int),
{
    if matches(chars, p, &vec!['\r', '\n', '-', '-', '-', '\r', '\n']) {
        7
    } else if matches(chars, p, &vec!['\n', '-', '-', '-', '\n']) {
        5
    } else {
        0
    }
}

fn node_separator(chars: &Vec<char>, p: usize) -> (r: usize)
    requires
        p <= chars@.len(),
    ensures
        r == node_term_len(chars@, p as int),
{
    if matches(chars, p, &vec!['=', '=', '=', '\r', '\n']) {
        5
    } else if matches(chars, p, &vec!['=', '=', '=', '\n']) {
        4
    } else {
        0
    }
}

fn find_body_end(chars: &Vec<char>, p: usize) -> (r: usize)
    requires
        p <= chars@.len(),
    ensures
        r == body_end(chars@, p as int),
        p <= r <= chars@.len(),
        r < chars@.len() ==> link_sep_len(chars@, r as int) > 0 || node_term_len(chars@, r as int) > 0,
{
    let mut i = p;
    while i < chars.len()
        invariant
            p <= i <= chars@.len(),
            body_end(chars@, p as int) == body_end(chars@, i as int),
        decreases chars@.len() - i,
    {
        if link_separator(chars, i) > 0 || node_separator(chars, i) > 0 {
            return i;
        }
        i += 1;
    }
    i
}

fn find_stop(chars: &Vec<char>, a: usize) -> (r: usize)
    requires
        a <= chars@.len(),
    ensures
        r == next_stop(chars@, a as int),
        a <= r <= chars@.len(),
{
    let mut i = a;
    while i < chars.len()
        invariant
            a <= i <= chars@.len(),
            next_stop(chars@, a as int) == next_stop(chars@, i as int),
        decreases chars@.len() - i,
    {
        if chars[i] == '|' || chars[i] == '=' {
            return i;
        }
        i += 1;
    }
    i
}

/// The characters of `input` in `[a, b)`.
fn text_between(input: &str, a: usize, b: usize) -> (r: String)
    requires
        a <= b <= input@.len(),
    ensures
        r@ == input@.subrange(a as int, b as int),
{
    input.substring_char(a, b).to_owned()
}

/// Reads the choice written in `[a, b)` as a link from `from`.
fn parse_link(input: &str, chars: &Vec<char>, a: usize, b: usize, from: &DialogNodeId) -> (r: Result<
    DialogLink,
    usize,
>)
    requires
        chars@ == input@,
        a <= b <= chars@.len(),
    ensures
        match parsed_link(chars@, a as int, b as int, from@) {
            Ok(l) => r is Ok && r->Ok_0@ == l,
            Err(e) => r is Err && r->Err_0 == e,
        },
{
    let a1 = trim(chars, a, b);
    if !(a1 < b && chars[a1] == '{') {
        return Err(a1);
    }
    let a2 = identifier(chars, a1 + 1, b);
    if a2 == a1 + 1 || !(a2 < b && chars[a2] == '}') {
        return Err(a2);
    }
    let t0 = trim(chars, a2 + 1, b);
    let t1 = trailing(chars, t0, b);
    let target = text_between(input, a1 + 1, a2);
    let text = text_between(input, t0, t1);
    Ok(DialogLink::new(from.as_str(), target.as_str(), text.as_str(), DialogLinkCondition::Always))
}

/// Reads the choices from `a` on, up to the `=` that ends them.
fn parse_links(input: &str, chars: &Vec<char>, a: usize, from: &DialogNodeId) -> (r: Result<
    (Vec<DialogLink>, usize),
    usize,
>)
    requires
        chars@ == input@,
        a <= chars@.len(),
    ensures
        match parsed_links(chars@, a as int, from@, Seq::empty()) {
            Ok((ls, e)) => r is Ok && link_views(r->Ok_0.0@) == ls && r->Ok_0.1 == e && a <= e
                < chars@.len() && forall|k: int| 0 <= k < ls.len() ==> #[trigger] ls[k].from == from@,
            Err(e) => r is Err && r->Err_0 == e,
        },
{
    let mut links: Vec<DialogLink> = Vec::new();
    let mut i = a;
    proof {
        assert(link_views(links@) =~= Seq::empty());
    }
    while i <= chars.len()
        invariant
            chars@ == input@,
            a <= i <= chars@.len(),
            parsed_links(chars@, a as int, from@, Seq::empty()) == parsed_links(
                chars@,
                i as int,
                from@,
                link_views(links@),
            ),
            forall|k: int| 0 <= k < links@.len() ==> #[trigger] links@[k]@.from == from@,
        decreases chars@.len() - i,
    {
        let stop = find_stop(chars, i);
        if stop >= chars.len() {
            return Err(chars.len());
        }
        match parse_link(input, chars, i, stop, from) {
            Err(e) => {
                return Err(e);
            },
            Ok(link) => {
                let ghost before = links@;
                links.push(link);
                proof {
                    assert(link_views(links@) =~= link_views(before).push(link@));
                }
                if chars[stop] == '|' {
                    i = stop + 1;
                } else {
                    let ghost ls = link_views(links@);
                    assert forall|k: int| 0 <= k < ls.len() implies #[trigger] ls[k].from == from@ by {
                        assert(ls[k] == links@[k]@);
                    }
                    return Ok((links, stop));
                }
            },
        }
    }
    Err(i)
}

/// Reads the node block from `p` on.
fn parse_node(input: &str, chars: &Vec<char>, p: usize) -> (r: Result<(DialogNode, usize), usize>)
    requires
        chars@ == input@,
        p <= chars@.len(),
    ensures
        match parsed_node(chars@, p as int) {
            Ok((n, after)) => r is Ok && r->Ok_0.0@ == n && r->Ok_0.1 == after && p < after <= chars@.len()
                && links_from_owner(n),
            Err(e) => r is Err && r->Err_0 == e,
        },
{
    let len = chars.len();
    let name_at = trim(chars, p, len);
    if !matches(chars, name_at, &vec!['N', 'a', 'm', 'e', ':']) {
        return Err(name_at);
    }
    let id_at = trim(chars, name_at + 5, len);
    let id_end = identifier(chars, id_at, len);
    if id_end == id_at {
        return Err(id_at);
    }
    let id = text_between(input, id_at, id_end);
    let body_at = trim(chars, id_end, len);
    let q = find_body_end(chars, body_at);
    if q >= len {
        return Err(q);
    }
    let t1 = trailing(chars, body_at, q);
    let text = text_between(input, body_at, t1);
    let sep = link_separator(chars, q);
    if sep > 0 {
        let from = DialogNodeId::new(id.as_str());
        match parse_links(input, chars, q + sep, &from) {
            Err(e) => Err(e),
            Ok((links, e)) => {
                let term = node_separator(chars, e);
                if term > 0 {
                    proof {
                        assert forall|k: int| 0 <= k < links@.len() implies #[trigger] links@[k]@.from
                            == id@ by {
                            assert(link_views(links@)[k] == links@[k]@);
                        }
                    }
                    Ok((DialogNode::new_with_links(id.as_str(), text.as_str(), links), e + term))
                } else {
                    Err(e)
                }
            },
        }
    } else {
        let term = node_separator(chars, q);
        Ok((DialogNode::new(id.as_str(), text.as_str()), q + term))
    }
}

/// Reads node blocks from the start of the text to its end.
fn parse_nodes(input: &str, chars: &Vec<char>) -> (r: Result<Vec<DialogNode>, usize>)
    requires
        chars@ == input@,
    ensures
        match parsed_nodes(chars@, 0, Seq::empty()) {
            Ok(ns) => r is Ok && node_views(r->Ok_0@) == ns && ns.len() > 0 && forall|i: int|
                0 <= i < ns.len() ==> links_from_owner(#[trigger] ns[i]),
            Err(e) => r is Err && r->Err_0 == e,
        },
{
    let mut nodes: Vec<DialogNode> = Vec::new();
    let mut p: usize = 0;
    proof {
        assert(node_views(nodes@) =~= Seq::empty());
    }
    while p <= chars.len()
        invariant
            chars@ == input@,
            p <= chars@.len(),
            parsed_nodes(chars@, 0, Seq::empty()) == parsed_nodes(
                chars@,
                p as int,
                node_views(nodes@),
            ),
            forall|i: int| 0 <= i < nodes@.len() ==> links_from_owner(#[trigger] nodes@[i]@),
        decreases chars@.len() - p,
    {
        match parse_node(input, chars, p) {
            Err(e) => {
                return Err(e);
            },
            Ok((node, after)) => {
                let ghost before = nodes@;
                nodes.push(node);
                let ghost ns = node_views(nodes@);
                proof {
                    assert(ns =~= node_views(before).push(node@));
                    assert forall|i: int| 0 <= i < ns.len() implies links_from_owner(
                        #[trigger] ns[i],
                    ) by {
                        assert(ns[i] == nodes@[i]@);
                    }
                }
                let next = trim(chars, after, chars.len());
                if next >= chars.len() {
                    return Ok(nodes);
                }
                p = next;
            },
        }
    }
    Err(p)
}

/// Reads a dialogue written in the authoring format. The first node block is the
/// start node; a later block with the same id replaces an earlier one. Body and
/// choice texts are trimmed of surrounding whitespace, and every link read is
/// unconditional. A well-formed text whose links name an undefined node gives
/// the builder's error.
pub fn parse(input: &str) -> (r: Result<Dialog, DialogParseError>)
    ensures
        match parsed_nodes(input@, 0, Seq::empty()) {
            Err(e) => r is Err && r->Err_0 == DialogParseError::SyntaxError(e as usize),
            Ok(ns) => {
                let nodes = collected_nodes(ns);
                &&& r is Ok <==> targets_present(nodes)
                &&& r is Ok ==> r->Ok_0.wf() && r->Ok_0@ == (DialogView {
                    start: ns[0].id,
                    nodes,
                })
                &&& !targets_present(nodes) ==> r is Err && r->Err_0 is DialogBuildError
                    && exists|i: int, k: int|
                    first_missing_at(nodes, i, k) && invalid_link(
                        r->Err_0->DialogBuildError_0,
                    ) == (None::<Seq<char>>, Some(#[trigger] nodes[i].links[k].to))
            },
        },
{
    let chars = to_chars(input);
    let mut rest = match parse_nodes(input, &chars) {
        Ok(nodes) => nodes,
        Err(e) => {
            return Err(DialogParseError::SyntaxError(e));
        },
    };
    let ghost ns = node_views(rest@);
    let ghost all = rest@;
    let total = rest.len();
    let first = rest.remove(0);
    proof {
        assert(ns.len() == all.len());
        assert(ns[0] == all[0]@);
        assert(node_views(rest@) =~= ns.skip(1));
    }
    let mut builder = DialogBuilder::new(first);
    let mut k: usize = 1;
    proof {
        assert(ns.take(1) =~= seq![ns[0]]);
    }
    while rest.len() > 0
        invariant
            0 < ns.len() <= usize::MAX,
            forall|i: int| 0 <= i < ns.len() ==> links_from_owner(#[trigger] ns[i]),
            1 <= k <= ns.len(),
            node_views(rest@) == ns.skip(k as int),
            builder.wf(),
            builder@.start == ns[0].id,
            builder@.dangling.len() == 0,
            builder@.nodes == collected_nodes(ns.take(k as int)),
        decreases rest@.len(),
    {
        let ghost before = rest@;
        let node = rest.remove(0);
        proof {
            assert(node_views(before).len() == before.len());
            assert(node_views(before)[0] == before[0]@);
            assert(ns.skip(k as int)[0] == ns[k as int]);
            assert(node@ == ns[k as int]);
            assert(node_views(rest@) =~= node_views(before).drop_first());
            assert(node_views(rest@) =~= ns.skip(k + 1));
            assert(ns.take(k + 1).drop_last() =~= ns.take(k as int));
        }
        builder = builder.add_node(node);
        k += 1;
    }
    proof {
        assert(ns.take(k as int) =~= ns);
    }
    match builder.build() {
        Ok(dialog) => Ok(dialog),
        Err(e) => Err(DialogParseError::DialogBuildError(e)),
    }
}

/// The characters of `input`, in order.
fn to_chars(input: &str) -> (r: Vec<char>)
    ensures
        r@ == input@,
{
    let n = input.unicode_len();
    let mut chars: Vec<char> = Vec::new();
    let mut i: usize = 0;
    while i < n
        invariant
            n == input@.len(),
            i <= n,
            chars@ == input@.take(i as int),
        decreases n - i,
    {
        chars.push(input.get_char(i));
        proof {
            assert(input@.take(i + 1) =~= input@.take(i as int).push(input@[i as int]));
        }
        i += 1;
    }
    assert(input@.take(n as int) =~= input@);
    chars
}

} // verus!
