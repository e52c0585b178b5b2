use crate::engine::{
    Dialog, DialogNode, DialogNodeId, DialogView, LinkView, NodeView, link_views, node_of, node_views,
};
use vstd::prelude::*;
use vstd::string::{StrSliceExecFns, StringExecFns};

verus! {

/// One choice as written: `{target} text`.
pub open spec fn link_entry(l: LinkView) -> Seq<char> {
    "{"@ + l.to + "} "@ + l.text
}

/// The choices of a node as written: entries joined by ` | `.
pub open spec fn joined_links(links: Seq<LinkView>) -> Seq<char>
    decreases links.len(),
{
    if links.len() == 0 {
        Seq::empty()
    } else if links.len() == 1 {
        link_entry(links[0])
    } else {
        joined_links(links.drop_last()) + " | "@ + link_entry(links.last())
    }
}

/// A node block as written: header, body text, the choices after a link
/// separator when there are any, then the node terminator and a blank line.
pub open spec fn node_block(n: NodeView) -> Seq<char> {
    "Name: "@ + n.id + "\n"@ + n.text + (if n.links.len() == 0 {
        Seq::empty()
    } else {
        "\n---\n"@ + joined_links(n.links)
    }) + "\n===\n\n"@
}

/// The nodes other than `start`, in the order given.
pub open spec fn other_nodes(nodes: Seq<NodeView>, start: Seq<char>) -> Seq<NodeView>
    decreases nodes.len(),
{
    if nodes.len() == 0 {
        Seq::empty()
    } else {
        other_nodes(nodes.drop_last(), start) + (if nodes.last().id == start {
            Seq::empty()
        } else {
            seq![nodes.last()]
        })
    }
}

/// `a` comes before `b` in lexicographic order of character codes (a proper
/// prefix comes first).
pub open spec fn id_less(a: Seq<char>, b: Seq<char>) -> bool
    decreases a.len(),
{
    if b.len() == 0 {
        false
    } else if a.len() == 0 {
        true
    } else if a[0] != b[0] {
        a[0] < b[0]
    } else {
        id_less(a.drop_first(), b.drop_first())
    }
}

/// Position of the first node whose id is smallest.
pub open spec fn min_id_index(ns: Seq<NodeView>) -> int
    decreases ns.len(),
{
    if ns.len() <= 1 {
        0
    } else {
        let m = min_id_index(ns.drop_last());
        if id_less(ns.last().id, ns[m].id) {
            ns.len() - 1
        } else {
            m
        }
    }
}

proof fn lemma_min_id_index_in_range(ns: Seq<NodeView>)
    requires
        ns.len() > 0,
    ensures
        0 <= min_id_index(ns) < ns.len(),
    decreases ns.len(),
{
    if ns.len() > 1 {
        lemma_min_id_index_in_range(ns.drop_last());
    }
}

/// The nodes in ascending order of id.
#[verifier::opaque]
pub open spec fn sorted_by_id(ns: Seq<NodeView>) -> Seq<NodeView>
    decreases ns.len(),
{
    if ns.len() == 0 {
        Seq::empty()
    } else {
        let m = min_id_index(ns);
        if 0 <= m < ns.len() {
            seq![ns[m]] + sorted_by_id(ns.remove(m))
        } else {
            // never taken: `min_id_index` is a position of `ns`
            Seq::empty()
        }
    }
}

/// The blocks of the given nodes, one after the other.
pub open spec fn blocks_text(bs: Seq<NodeView>) -> Seq<char>
    decreases bs.len(),
{
    if bs.len() == 0 {
        Seq::empty()
    } else {
        blocks_text(bs.drop_last()) + node_block(bs.last())
    }
}

/// A dialogue as written: the start node first, then every other node in
/// ascending order of id, whatever the order in which the nodes were added.
pub open spec fn dialog_text(d: DialogView) -> Seq<char> {
    node_block(node_of(d.nodes, d.start)) + blocks_text(
        sorted_by_id(other_nodes(d.nodes, d.start)),
    )
}

/// Whether id `a` comes before id `b`.
fn id_precedes(a: &DialogNodeId, b: &DialogNodeId) -> (r: bool)
    ensures
        r == id_less(a@, b@),
{
    let sa = a.as_str();
    let sb = b.as_str();
    let la = sa.unicode_len();
    let lb = sb.unicode_len();
    let mut i: usize = 0;
    assert(a@.skip(0) =~= a@ && b@.skip(0) =~= b@);
    while i < la && i < lb
        invariant
            la == a@.len(),
            lb == b@.len(),
            sa@ == a@,
            sb@ == b@,
            i <= la,
            i <= lb,
            id_less(a@, b@) == id_less(a@.skip(i as int), b@.skip(i as int)),
        decreases la - i,
    {
        let ca = sa.get_char(i);
        let cb = sb.get_char(i);
        assert(a@.skip(i as int)[0] == ca && b@.skip(i as int)[0] == cb);
        if ca != cb {
            return ca < cb;
        }
        assert(a@.skip(i as int).drop_first() =~= a@.skip(i + 1));
        assert(b@.skip(i as int).drop_first() =~= b@.skip(i + 1));
        i += 1;
    }
    i < lb
}

/// The views of the nodes at the given positions.
pub open spec fn picked(ns: Seq<NodeView>, idx: Seq<usize>) -> Seq<NodeView> {
    idx.map_values(|i: usize| ns[i as int])
}

/// Position, among `rest`, of the first node whose id is smallest.
fn min_position(nodes: &Vec<DialogNode>, rest: &Vec<usize>) -> (r: usize)
    requires
        rest@.len() > 0,
        forall|j: int| 0 <= j < rest@.len() ==> #[trigger] rest@[j] < nodes@.len(),
    ensures
        r == min_id_index(picked(node_views(nodes@), rest@)),
        r < rest@.len(),
{
    let ghost pv = picked(node_views(nodes@), rest@);
    let mut best: usize = 0;
    let mut j: usize = 1;
    while j < rest.len()
        invariant
            pv == picked(node_views(nodes@), rest@),
            forall|k: int| 0 <= k < rest@.len() ==> #[trigger] rest@[k] < nodes@.len(),
            1 <= j <= rest@.len(),
            best < j,
            best == min_id_index(pv.take(j as int)),
        decreases rest@.len() - j,
    {
        assert(pv.take(j + 1).drop_last() =~= pv.take(j as int));
        assert(pv[j as int] == nodes@[rest@[j as int] as int]@);
        assert(pv[best as int] == nodes@[rest@[best as int] as int]@);
        if id_precedes(&nodes[rest[j]].id(), &nodes[rest[best]].id()) {
            best = j;
        }
        j += 1;
    }
    assert(pv.take(rest@.len() as int) =~= pv);
    best
}

/// Writes a dialogue in the authoring format: the start node first, then the
/// other nodes in ascending order of id. Link conditions are not written.
pub fn serialize_dialog(dialog: &Dialog) -> (r: String)
    requires
        dialog.wf(),
    ensures
        r@ == dialog_text(dialog@),
{
    let start = dialog.start_node();
    let mut output = serialize_node(start);
    let nodes = dialog.all_nodes();
    let ghost ns = dialog@.nodes;
    let ghost head = output@;
    let mut rest: Vec<usize> = Vec::new();
    let mut i: usize = 0;
    while i < nodes.len()
        invariant
            ns == node_views(nodes@),
            start@.id == dialog@.start,
            i <= ns.len(),
            picked(ns, rest@) == other_nodes(ns.take(i as int), dialog@.start),
            forall|j: int| 0 <= j < rest@.len() ==> #[trigger] rest@[j] < i,
        decreases ns.len() - i,
    {
        let node = &nodes[i];
        assert(node@ == ns[i as int]);
        assert(ns.take(i as int + 1).drop_last() =~= ns.take(i as int));
        if !(node.id() == start.id()) {
            let ghost before = rest@;
            rest.push(i);
            assert(picked(ns, rest@) =~= picked(ns, before).push(ns[i as int]));
        } else {
            assert(other_nodes(ns.take(i as int + 1), dialog@.start) =~= other_nodes(
                ns.take(i as int),
                dialog@.start,
            ));
        }
        i += 1;
    }
    assert(ns.take(ns.len() as int) =~= ns);
    let ghost others = other_nodes(ns, dialog@.start);
    let ghost taken: Seq<NodeView> = Seq::empty();
    assert(taken + sorted_by_id(others) =~= sorted_by_id(others));
    assert(head + blocks_text(taken) =~= head);
    while rest.len() > 0
        invariant
            ns == node_views(nodes@),
            forall|j: int| 0 <= j < rest@.len() ==> #[trigger] rest@[j] < ns.len(),
            sorted_by_id(others) == taken + sorted_by_id(picked(ns, rest@)),
            output@ == head + blocks_text(taken),
        decreases rest@.len(),
    {
        let ghost pv = picked(ns, rest@);
        let m = min_position(nodes, &rest);
        proof {
            lemma_min_id_index_in_range(pv);
            reveal(sorted_by_id);
        }
        let idx = rest.remove(m);
        let ghost x = pv[m as int];
        assert(picked(ns, rest@) =~= pv.remove(m as int));
        assert(sorted_by_id(pv) == seq![x] + sorted_by_id(pv.remove(m as int)));
        assert(nodes@[idx as int]@ == x);
        let block = serialize_node(&nodes[idx]);
        output.append(block.as_str());
        proof {
            assert(taken.push(x).drop_last() =~= taken);
            assert(taken + (seq![x] + sorted_by_id(pv.remove(m as int))) =~= taken.push(x)
                + sorted_by_id(pv.remove(m as int)));
            taken = taken.push(x);
        }
    }
    assert(sorted_by_id(picked(ns, rest@)) =~= Seq::<NodeView>::empty()) by {
        reveal(sorted_by_id);
    }
    assert(taken + Seq::<NodeView>::empty() =~= taken);
    output
}

/// Writes one node block.
pub fn serialize_node(node: &DialogNode) -> (r: String)
    ensures
        r@ == node_block(node@),
{
    let mut output = String::new();
    output.append("Name: ");
    output.append(node.id().as_str());
    output.append("\n");
    output.append(node.text().as_plain_str());
    let links = node.links();
    let ghost ls = node@.links;
    if links.len() > 0 {
        output.append("\n---\n");
        let ghost head = output@;
        let mut k: usize = 0;
        while k < links.len()
            invariant
                ls == link_views(links@),
                k <= ls.len(),
                output@ == head + joined_links(ls.take(k as int)),
            decreases ls.len() - k,
        {
            let link = &links[k];
            assert(link@ == ls[k as int]);
            assert(ls.take(k as int + 1).drop_last() =~= ls.take(k as int));
            if k > 0 {
                output.append(" | ");
            }
            output.append("{");
            output.append(link.to().as_str());
            output.append("} ");
            output.append(link.text().as_plain_str());
            k += 1;
        }
        assert(ls.take(ls.len() as int) =~= ls);
    }
    output.append("\n===\n\n");
    output
}

} // verus!
