use vstd::prelude::*;

verus! {

/// Identifier of a node; unique within a dialogue.
#[derive(Debug, Eq)]
pub struct DialogNodeId {
    id: String,
}

impl View for DialogNodeId {
    type V = Seq<char>;

    closed spec fn view(&self) -> Seq<char> {
        self.id@
    }
}

impl DialogNodeId {
    pub fn new(id: &str) -> (r: DialogNodeId)
        ensures
            r@ == id@,
    {
        DialogNodeId { id: id.to_owned() }
    }

    pub fn as_str(&self) -> (r: &str)
        ensures
            r@ == self@,
    {
        self.id.as_str()
    }
}

impl Clone for DialogNodeId {
    fn clone(&self) -> (r: DialogNodeId)
        ensures
            r@ == self@,
    {
        DialogNodeId { id: self.id.clone() }
    }
}

impl PartialEq for DialogNodeId {
    fn eq(&self, other: &DialogNodeId) -> (r: bool)
        ensures
            r == (self@ == other@),
    {
        self.id == other.id
    }
}

impl vstd::std_specs::cmp::PartialEqSpecImpl for DialogNodeId {
    open spec fn obeys_eq_spec() -> bool {
        true
    }

    open spec fn eq_spec(&self, other: &DialogNodeId) -> bool {
        self@ == other@
    }
}

/// The text of a node or of a link. Plain text is the only kind so far.
#[derive(Debug)]
pub enum DialogText {
    PlainText(String),
}

impl View for DialogText {
    type V = Seq<char>;

    open spec fn view(&self) -> Seq<char> {
        match self {
            DialogText::PlainText(s) => s@,
        }
    }
}

impl DialogText {
    pub fn new(text: &str) -> (r: DialogText)
        ensures
            r@ == text@,
    {
        DialogText::PlainText(text.to_owned())
    }

    pub fn as_plain_str(&self) -> (r: &str)
        ensures
            r@ == self@,
    {
        match self {
            DialogText::PlainText(plain_text) => plain_text.as_str(),
        }
    }
}

impl Clone for DialogText {
    fn clone(&self) -> (r: DialogText)
        ensures
            r@ == self@,
    {
        match self {
            DialogText::PlainText(s) => DialogText::PlainText(s.clone()),
        }
    }
}

/// When a link may be offered as a choice.
#[derive(PartialEq, Eq, Structural, Clone, Copy, Debug)]
pub enum DialogLinkCondition {
    /// Always offered.
    Always,
    /// Offered only while this (node, link index) pair has never been chosen in the session.
    OnlyIfNotYetChosen,
}

/// What a link is, as plain values.
pub struct LinkView {
    pub from: Seq<char>,
    pub to: Seq<char>,
    pub text: Seq<char>,
    pub condition: DialogLinkCondition,
}

/// What a node is, as plain values.
pub struct NodeView {
    pub id: Seq<char>,
    pub text: Seq<char>,
    pub links: Seq<LinkView>,
}

/// A directed, conditioned edge from one node to another, carrying the choice text.
#[derive(Debug)]
pub struct DialogLink {
    from: DialogNodeId,
    to: DialogNodeId,
    text: DialogText,
    condition: DialogLinkCondition,
}

impl View for DialogLink {
    type V = LinkView;

    closed spec fn view(&self) -> LinkView {
        LinkView { from: self.from@, to: self.to@, text: self.text@, condition: self.condition }
    }
}

impl Clone for DialogLink {
    fn clone(&self) -> (r: DialogLink)
        ensures
            r@ == self@,
    {
        DialogLink {
            from: self.from.clone(),
            to: self.to.clone(),
            text: self.text.clone(),
            condition: self.condition,
        }
    }
}

impl DialogLink {
    pub fn new(from: &str, to: &str, text: &str, condition: DialogLinkCondition) -> (r: DialogLink)
        ensures
            r@ == (LinkView { from: from@, to: to@, text: text@, condition }),
    {
        DialogLink {
            from: DialogNodeId::new(from),
            to: DialogNodeId::new(to),
            text: DialogText::new(text),
            condition,
        }
    }

    pub fn from(&self) -> (r: &DialogNodeId)
        ensures
            r@ == self@.from,
    {
        &self.from
    }

    pub fn to(&self) -> (r: &DialogNodeId)
        ensures
            r@ == self@.to,
    {
        &self.to
    }

    pub fn condition(&self) -> (r: &DialogLinkCondition)
        ensures
            *r == self@.condition,
    {
        &self.condition
    }

    pub fn text(&self) -> (r: &DialogText)
        ensures
            r@ == self@.text,
    {
        &self.text
    }
}

/// The views of a sequence of links.
pub open spec fn link_views(links: Seq<DialogLink>) -> Seq<LinkView> {
    links.map_values(|l: DialogLink| l@)
}

/// Every link of the node starts at the node itself.
pub open spec fn links_from_owner(n: NodeView) -> bool {
    forall|k: int| 0 <= k < n.links.len() ==> #[trigger] n.links[k].from == n.id
}

/// A unit of dialogue text and its outgoing links, in presentation order.
#[derive(Debug)]
pub struct DialogNode {
    id: DialogNodeId,
    text: DialogText,
    links: Vec<DialogLink>,
}

impl View for DialogNode {
    type V = NodeView;

    closed spec fn view(&self) -> NodeView {
        NodeView { id: self.id@, text: self.text@, links: link_views(self.links@) }
    }
}

impl DialogNode {
    pub fn new(id: &str, text: &str) -> (r: DialogNode)
        ensures
            r@ == (NodeView { id: id@, text: text@, links: Seq::empty() }),
    {
        let links: Vec<DialogLink> = Vec::new();
        let r = DialogNode { id: DialogNodeId::new(id), text: DialogText::new(text), links };
        proof {
            assert(link_views(links@) =~= Seq::empty());
        }
        r
    }

    /// A node with the given links, each of which must start at `id`.
    pub fn new_with_links(id: &str, text: &str, links: Vec<DialogLink>) -> (r: DialogNode)
        requires
            forall|k: int| 0 <= k < links@.len() ==> #[trigger] links@[k]@.from == id@,
        ensures
            r@ == (NodeView { id: id@, text: text@, links: link_views(links@) }),
            links_from_owner(r@),
    {
        DialogNode { id: DialogNodeId::new(id), text: DialogText::new(text), links }
    }

    pub fn id(&self) -> (r: &DialogNodeId)
        ensures
            r@ == self@.id,
    {
        &self.id
    }

    pub fn text(&self) -> (r: &DialogText)
        ensures
            r@ == self@.text,
    {
        &self.text
    }

    pub fn links(&self) -> (r: &Vec<DialogLink>)
        ensures
            link_views(r@) == self@.links,
    {
        &self.links
    }

    /// Appends a link that starts at this node.
    pub fn add_link(&mut self, link: DialogLink)
        requires
            link@.from == old(self)@.id,
        ensures
            final(self)@ == (NodeView { links: old(self)@.links.push(link@), ..old(self)@ }),
    {
        self.links.push(link);
        proof {
            assert(link_views(self.links@) =~= link_views(old(self).links@).push(link@));
        }
    }
}

/// A node with this id is among `nodes`.
pub open spec fn has_node(nodes: Seq<NodeView>, id: Seq<char>) -> bool {
    exists|i: int| 0 <= i < nodes.len() && #[trigger] nodes[i].id == id
}

/// No two nodes share an id.
pub open spec fn ids_unique(nodes: Seq<NodeView>) -> bool {
    forall|i: int, j: int|
        0 <= i < nodes.len() && 0 <= j < nodes.len() && #[trigger] nodes[i].id == #[trigger] nodes[j].id
            ==> i == j
}

/// Every node's links start at that node.
pub open spec fn all_links_from_owner(nodes: Seq<NodeView>) -> bool {
    forall|i: int| 0 <= i < nodes.len() ==> links_from_owner(#[trigger] nodes[i])
}

/// Every link of every node leads to a node that is present.
pub open spec fn targets_present(nodes: Seq<NodeView>) -> bool {
    forall|i: int, k: int|
        0 <= i < nodes.len() && 0 <= k < nodes[i].links.len() ==> has_node(
            nodes,
            #[trigger] nodes[i].links[k].to,
        )
}

/// The node with the given id (meaningful where exactly one has it).
pub open spec fn node_of(nodes: Seq<NodeView>, id: Seq<char>) -> NodeView {
    nodes[choose|i: int| 0 <= i < nodes.len() && nodes[i].id == id]
}

/// The views of a sequence of nodes.
pub open spec fn node_views(nodes: Seq<DialogNode>) -> Seq<NodeView> {
    nodes.map_values(|n: DialogNode| n@)
}

/// The nodes after inserting `n`: it replaces the node with the same id in place,
/// or is appended when there is none.
pub open spec fn nodes_with(nodes: Seq<NodeView>, n: NodeView) -> Seq<NodeView> {
    if has_node(nodes, n.id) {
        nodes.update(choose|i: int| 0 <= i < nodes.len() && nodes[i].id == n.id, n)
    } else {
        nodes.push(n)
    }
}

/// Position of the node with the given id, if any.
fn find_node(nodes: &Vec<DialogNode>, id: &DialogNodeId) -> (r: Option<usize>)
    ensures
        match r {
            Some(i) => i < nodes@.len() && nodes@[i as int]@.id == id@,
            None => !has_node(node_views(nodes@), id@),
        },
{
    let mut i: usize = 0;
    while i < nodes.len()
        invariant
            i <= nodes@.len(),
            forall|j: int| 0 <= j < i ==> nodes@[j]@.id != id@,
        decreases nodes@.len() - i,
    {
        if nodes[i].id == *id {
            return Some(i);
        }
        i += 1;
    }
    proof {
        let vs = node_views(nodes@);
        assert forall|j: int| 0 <= j < vs.len() implies #[trigger] vs[j].id != id@ by {
            assert(vs[j] == nodes@[j]@);
        }
    }
    None
}

proof fn lemma_unique_index(nodes: Seq<NodeView>, i: int)
    requires
        ids_unique(nodes),
        0 <= i < nodes.len(),
    ensures
        (choose|j: int| 0 <= j < nodes.len() && nodes[j].id == nodes[i].id) == i,
        node_of(nodes, nodes[i].id) == nodes[i],
{
    let j = choose|j: int| 0 <= j < nodes.len() && nodes[j].id == nodes[i].id;
    assert(nodes[j].id == nodes[i].id);
}

/// Why a dialogue could not be built, or a choice not made.
#[derive(Debug, PartialEq, Eq)]
pub enum DialogError {
    /// A link starts at a node that is absent when the dialogue is built, or leads
    /// to one that is absent.
    InvalidLink(LinkErrorInfo),
    /// The current node has no link at this index.
    NoSuchChoice(usize),
}

/// The ends of an invalid link that are missing.
#[derive(Debug, PartialEq, Eq)]
pub struct LinkErrorInfo {
    pub missing_source: Option<DialogNodeId>,
    pub missing_target: Option<DialogNodeId>,
}

/// What an `InvalidLink` error names, as plain values.
pub open spec fn invalid_link(e: DialogError) -> (Option<Seq<char>>, Option<Seq<char>>) {
    match e {
        DialogError::InvalidLink(info) => (
            match info.missing_source {
                Some(s) => Some(s@),
                None => None,
            },
            match info.missing_target {
                Some(t) => Some(t@),
                None => None,
            },
        ),
        DialogError::NoSuchChoice(_) => (None, None),
    }
}

/// The link at `(i, k)` has an absent target, and every link before it, in
/// node order and then link order, has its target present.
pub open spec fn first_missing_at(nodes: Seq<NodeView>, i: int, k: int) -> bool {
    &&& 0 <= i < nodes.len()
    &&& 0 <= k < nodes[i].links.len()
    &&& !has_node(nodes, nodes[i].links[k].to)
    &&& forall|a: int, b: int|
        0 <= a < i && 0 <= b < nodes[a].links.len() ==> has_node(
            nodes,
            #[trigger] nodes[a].links[b].to,
        )
    &&& forall|b: int| 0 <= b < k ==> has_node(nodes, #[trigger] nodes[i].links[b].to)
}

/// What a dialogue is, as plain values.
pub struct DialogView {
    pub start: Seq<char>,
    pub nodes: Seq<NodeView>,
}

/// An immutable graph of nodes and links whose ids and link targets are consistent.
pub struct Dialog {
    start_node: DialogNodeId,
    nodes: Vec<DialogNode>,
}

impl View for Dialog {
    type V = DialogView;

    closed spec fn view(&self) -> DialogView {
        DialogView { start: self.start_node@, nodes: node_views(self.nodes@) }
    }
}

impl DialogView {
    /// Unique ids, a present start node, links on their source node, present targets.
    pub open spec fn wf(self) -> bool {
        &&& ids_unique(self.nodes)
        &&& has_node(self.nodes, self.start)
        &&& all_links_from_owner(self.nodes)
        &&& targets_present(self.nodes)
    }
}

impl Dialog {
    pub open spec fn wf(&self) -> bool {
        self@.wf()
    }

    pub fn start_node(&self) -> (r: &DialogNode)
        requires
            self.wf(),
        ensures
            r@ == node_of(self@.nodes, self@.start),
    {
        self.get_node(&self.start_node)
    }

    /// A traversal session positioned at the start node, with an empty history.
    pub fn start(&self) -> (r: DialogExecutor)
        requires
            self.wf(),
        ensures
            r.wf(),
            r.dialog_view() == self@,
            r@ == (ExecView { current: self@.start, history: Seq::empty() }),
    {
        DialogExecutor::new(self)
    }

    pub fn get_node(&self, id: &DialogNodeId) -> (r: &DialogNode)
        requires
            self.wf(),
            has_node(self@.nodes, id@),
        ensures
            r@ == node_of(self@.nodes, id@),
            r@.id == id@,
    {
        match find_node(&self.nodes, id) {
            Some(i) => {
                proof {
                    lemma_unique_index(self@.nodes, i as int);
                }
                &self.nodes[i]
            },
            None => {
                proof {
                    assert(false);
                }
                &self.nodes[0]
            },
        }
    }

    /// Every node, in the order of first insertion.
    pub fn all_nodes(&self) -> (r: &Vec<DialogNode>)
        ensures
            node_views(r@) == self@.nodes,
    {
        &self.nodes
    }
}

/// A session's position and history, as plain values.
pub struct ExecView {
    pub current: Seq<char>,
    pub history: Seq<(Seq<char>, usize)>,
}

/// A link may be offered: it is unconditional, or its (node, index) pair was never chosen.
pub open spec fn is_available(
    node: NodeView,
    history: Seq<(Seq<char>, usize)>,
    i: int,
) -> bool {
    node.links[i].condition == DialogLinkCondition::Always || !history.contains(
        (node.id, i as usize),
    )
}

/// The offered links among the first `n`, as (index, text), in link order.
pub open spec fn available_upto(
    node: NodeView,
    history: Seq<(Seq<char>, usize)>,
    n: nat,
) -> Seq<(usize, Seq<char>)>
    decreases n,
{
    if n == 0 {
        Seq::empty()
    } else {
        let prev = available_upto(node, history, (n - 1) as nat);
        if is_available(node, history, n - 1) {
            prev.push(((n - 1) as usize, node.links[n - 1].text))
        } else {
            prev
        }
    }
}

/// The links of `node` offered under `history`, as (index, text), in link order.
pub open spec fn available_choices(
    node: NodeView,
    history: Seq<(Seq<char>, usize)>,
) -> Seq<(usize, Seq<char>)> {
    available_upto(node, history, node.links.len())
}

proof fn lemma_available_upto_entries(node: NodeView, history: Seq<(Seq<char>, usize)>, n: nat)
    requires
        n <= node.links.len() <= usize::MAX,
    ensures
        forall|j: int|
            0 <= j < available_upto(node, history, n).len() ==> {
                let e = #[trigger] available_upto(node, history, n)[j];
                &&& e.0 < n
                &&& is_available(node, history, e.0 as int)
                &&& e.1 == node.links[e.0 as int].text
            },
        forall|i: int|
            0 <= i < n && is_available(node, history, i) ==> exists|j: int|
                0 <= j < available_upto(node, history, n).len() && (#[trigger] available_upto(
                    node,
                    history,
                    n,
                )[j]).0 == i,
    decreases n,
{
    if n > 0 {
        let m = (n - 1) as nat;
        lemma_available_upto_entries(node, history, m);
        let prev = available_upto(node, history, m);
        let cur = available_upto(node, history, n);
        assert forall|i: int| 0 <= i < n && is_available(node, history, i) implies exists|j: int|
            0 <= j < cur.len() && (#[trigger] cur[j]).0 == i by {
            if i < m {
                let j = choose|j: int| 0 <= j < prev.len() && (#[trigger] prev[j]).0 == i;
                assert(cur[j] == prev[j]);
            } else {
                assert(cur[cur.len() - 1].0 == i);
            }
        }
    }
}

/// A node whose links are all unconditional offers every link, in link order,
/// whatever the history.
pub proof fn lemma_unconditional_links_all_offered(
    node: NodeView,
    history: Seq<(Seq<char>, usize)>,
)
    requires
        node.links.len() <= usize::MAX,
        forall|k: int|
            0 <= k < node.links.len() ==> #[trigger] node.links[k].condition
                == DialogLinkCondition::Always,
    ensures
        available_choices(node, history).len() == node.links.len(),
        forall|k: int|
            0 <= k < node.links.len() ==> #[trigger] available_choices(node, history)[k] == (
                k as usize,
                node.links[k].text,
            ),
{
    lemma_unconditional_upto(node, history, node.links.len());
}

proof fn lemma_unconditional_upto(node: NodeView, history: Seq<(Seq<char>, usize)>, n: nat)
    requires
        n <= node.links.len(),
        forall|k: int|
            0 <= k < node.links.len() ==> #[trigger] node.links[k].condition
                == DialogLinkCondition::Always,
    ensures
        available_upto(node, history, n).len() == n,
        forall|k: int|
            0 <= k < n ==> #[trigger] available_upto(node, history, n)[k] == (
                k as usize,
                node.links[k].text,
            ),
    decreases n,
{
    if n > 0 {
        lemma_unconditional_upto(node, history, (n - 1) as nat);
        assert(node.links[n - 1].condition == DialogLinkCondition::Always);
    }
}

/// A link that is offered only if not yet chosen, at index `i` of `node`, is
/// offered exactly when `(node, i)` is absent from the history.
pub proof fn lemma_gated_link_offered_iff_not_chosen(
    node: NodeView,
    history: Seq<(Seq<char>, usize)>,
    i: int,
)
    requires
        node.links.len() <= usize::MAX,
        0 <= i < node.links.len(),
        node.links[i].condition == DialogLinkCondition::OnlyIfNotYetChosen,
    ensures
        (exists|j: int|
            0 <= j < available_choices(node, history).len() && (
            #[trigger] available_choices(node, history)[j]).0 == i) <==> !history.contains(
            (node.id, i as usize),
        ),
{
    lemma_available_upto_entries(node, history, node.links.len());
    let avail = available_choices(node, history);
    if exists|j: int| 0 <= j < avail.len() && (#[trigger] avail[j]).0 == i {
        let j = choose|j: int| 0 <= j < avail.len() && (#[trigger] avail[j]).0 == i;
        assert(is_available(node, history, avail[j].0 as int));
    }
    if !history.contains((node.id, i as usize)) {
        assert(is_available(node, history, i));
    }
}

/// Once a link that is offered only if not yet chosen has been chosen at its
/// node, no later history of the session offers it at that node again.
pub proof fn lemma_chosen_gated_link_stays_hidden(
    node: NodeView,
    history: Seq<(Seq<char>, usize)>,
    later: Seq<(Seq<char>, usize)>,
    i: int,
)
    requires
        node.links.len() <= usize::MAX,
        0 <= i < node.links.len(),
        node.links[i].condition == DialogLinkCondition::OnlyIfNotYetChosen,
        history.contains((node.id, i as usize)),
        history.is_prefix_of(later),
    ensures
        forall|j: int|
            0 <= j < available_choices(node, later).len() ==> (#[trigger] available_choices(
                node,
                later,
            )[j]).0 != i,
{
    let a = choose|a: int| 0 <= a < history.len() && history[a] == (node.id, i as usize);
    assert(later[a] == history[a]);
    assert(later.contains((node.id, i as usize)));
    lemma_gated_link_offered_iff_not_chosen(node, later, i);
}

/// One traversal session over a dialogue: the current node and every choice made.
pub struct DialogExecutor<'d> {
    dialog: &'d Dialog,
    current: DialogNodeId,
    path: Vec<(DialogNodeId, usize)>,
}

impl<'d> View for DialogExecutor<'d> {
    type V = ExecView;

    closed spec fn view(&self) -> ExecView {
        ExecView {
            current: self.current@,
            history: self.path@.map_values(|p: (DialogNodeId, usize)| (p.0@, p.1)),
        }
    }
}

impl<'d> DialogExecutor<'d> {
    pub closed spec fn dialog_view(&self) -> DialogView {
        self.dialog@
    }

    /// The node at the current position.
    pub open spec fn node(&self) -> NodeView {
        node_of(self.dialog_view().nodes, self@.current)
    }

    pub open spec fn wf(&self) -> bool {
        self.dialog_view().wf() && has_node(self.dialog_view().nodes, self@.current)
    }

    pub fn new(dialog: &'d Dialog) -> (r: DialogExecutor<'d>)
        requires
            dialog.wf(),
        ensures
            r.wf(),
            r.dialog_view() == dialog@,
            r@ == (ExecView { current: dialog@.start, history: Seq::empty() }),
    {
        let path: Vec<(DialogNodeId, usize)> = Vec::new();
        let r = DialogExecutor { dialog, current: dialog.start_node().id().clone(), path };
        proof {
            assert(r@.history =~= Seq::empty());
        }
        r
    }

    pub fn current_node(&self) -> (r: &DialogNode)
        requires
            self.wf(),
        ensures
            r@ == self.node(),
            r@.id == self@.current,
    {
        self.dialog.get_node(&self.current)
    }

    /// The id of the current node.
    pub fn current(&self) -> (r: &DialogNodeId)
        ensures
            r@ == self@.current,
    {
        &self.current
    }

    /// Every choice made in the session, oldest first, as (node id, link index).
    pub fn history(&self) -> (r: &Vec<(DialogNodeId, usize)>)
        ensures
            r@.map_values(|p: (DialogNodeId, usize)| (p.0@, p.1)) == self@.history,
    {
        &self.path
    }

    /// Whether `(id, index)` appears anywhere in the history.
    fn chosen_before(&self, id: &DialogNodeId, index: usize) -> (r: bool)
        ensures
            r == self@.history.contains((id@, index)),
    {
        let ghost h = self@.history;
        let mut j: usize = 0;
        while j < self.path.len()
            invariant
                h == self@.history,
                j <= h.len(),
                forall|a: int| 0 <= a < j ==> h[a] != (id@, index),
            decreases h.len() - j,
        {
            let entry = &self.path[j];
            assert(h[j as int] == (entry.0@, entry.1));
            if entry.1 == index && entry.0 == *id {
                return true;
            }
            j += 1;
        }
        false
    }

    /// The links of the current node that may be chosen now, in link order, each
    /// with its index among all of the node's links.
    pub fn choices(&self) -> (r: DialogExecChoices)
        requires
            self.wf(),
        ensures
            r@ == available_choices(self.node(), self@.history),
    {
        let node = self.current_node();
        let ghost nv = node@;
        let mut entries: Vec<(usize, DialogText)> = Vec::new();
        let mut k: usize = 0;
        while k < node.links.len()
            invariant
                nv == node@,
                nv == self.node(),
                k <= nv.links.len(),
                choice_views(entries@) == available_upto(nv, self@.history, k as nat),
            decreases nv.links.len() - k,
        {
            let link = &node.links[k];
            assert(link@ == nv.links[k as int]);
            if link.condition == DialogLinkCondition::Always || !self.chosen_before(&node.id, k) {
                let ghost before = entries@;
                entries.push((k, link.text.clone()));
                proof {
                    assert(choice_views(entries@) =~= choice_views(before).push(
                        (k, nv.links[k as int].text),
                    ));
                }
            }
            k += 1;
        }
        DialogExecChoices { entries }
    }

    /// Takes the link at `index` among all of the current node's links: records
    /// (current node, index) in the history and moves to the link's target. An
    /// index with no link is refused and changes nothing.
    pub fn select(&mut self, index: usize) -> (r: Result<(), DialogError>)
        requires
            old(self).wf(),
        ensures
            final(self).wf(),
            final(self).dialog_view() == old(self).dialog_view(),
            index < old(self).node().links.len() ==> r is Ok && final(self)@ == (ExecView {
                current: old(self).node().links[index as int].to,
                history: old(self)@.history.push((old(self)@.current, index)),
            }),
            index >= old(self).node().links.len() ==> r == Err::<(), DialogError>(
                DialogError::NoSuchChoice(index),
            ) && final(self)@ == old(self)@,
    {
        let node = self.dialog.get_node(&self.current);
        if index >= node.links.len() {
            return Err(DialogError::NoSuchChoice(index));
        }
        let ghost old_history = self@.history;
        let ghost nodes = self.dialog@.nodes;
        let next = node.links[index].to.clone();
        proof {
            assert(node.links@[index as int]@ == node@.links[index as int]);
            let i = choose|i: int| 0 <= i < nodes.len() && nodes[i].id == self@.current;
            assert(has_node(nodes, nodes[i].links[index as int].to));
        }
        self.path.push((node.id.clone(), index));
        self.current = next;
        proof {
            assert(self@.history =~= old_history.push((old(self)@.current, index)));
        }
        Ok(())
    }
}

/// The views of a list of choice entries.
pub open spec fn choice_views(entries: Seq<(usize, DialogText)>) -> Seq<(usize, Seq<char>)> {
    entries.map_values(|e: (usize, DialogText)| (e.0, e.1@))
}

/// A snapshot of the choices offered at one moment of a session.
pub struct DialogExecChoices {
    entries: Vec<(usize, DialogText)>,
}

impl View for DialogExecChoices {
    type V = Seq<(usize, Seq<char>)>;

    closed spec fn view(&self) -> Seq<(usize, Seq<char>)> {
        choice_views(self.entries@)
    }
}

impl DialogExecChoices {
    pub fn new(entries: Vec<(usize, DialogText)>) -> (r: DialogExecChoices)
        ensures
            r@ == choice_views(entries@),
    {
        DialogExecChoices { entries }
    }

    /// Every offered choice, as (index among all links, text).
    pub fn all(&self) -> (r: &Vec<(usize, DialogText)>)
        ensures
            choice_views(r@) == self@,
    {
        &self.entries
    }

    /// The offered choice whose link index is `index`, if one is offered.
    pub fn get(&self, index: usize) -> (r: Option<DialogExecChoice>)
        ensures
            match r {
                Some(c) => exists|j: int|
                    0 <= j < self@.len() && self@[j].0 == index && #[trigger] self@[j] == c@ && (
                    forall|a: int| 0 <= a < j ==> self@[a].0 != index),
                None => forall|j: int| 0 <= j < self@.len() ==> #[trigger] self@[j].0 != index,
            },
    {
        let mut j: usize = 0;
        while j < self.entries.len()
            invariant
                j <= self@.len(),
                forall|a: int| 0 <= a < j ==> self@[a].0 != index,
            decreases self@.len() - j,
        {
            let entry = &self.entries[j];
            assert(self@[j as int] == (entry.0, entry.1@));
            if entry.0 == index {
                return Some(DialogExecChoice { index, text: entry.1.clone() });
            }
            j += 1;
        }
        None
    }
}

/// One offered choice: the link's index among all links of its node, and its text.
pub struct DialogExecChoice {
    index: usize,
    text: DialogText,
}

impl View for DialogExecChoice {
    type V = (usize, Seq<char>);

    closed spec fn view(&self) -> (usize, Seq<char>) {
        (self.index, self.text@)
    }
}

impl DialogExecChoice {
    pub fn new(index: usize, text: DialogText) -> (r: DialogExecChoice)
        ensures
            r@ == (index, text@),
    {
        DialogExecChoice { index, text }
    }

    pub fn index(&self) -> (r: usize)
        ensures
            r == self@.0,
    {
        self.index
    }

    pub fn text(&self) -> (r: &DialogText)
        ensures
            r@ == self@.1,
    {
        &self.text
    }

    /// Takes this choice in the session.
    pub fn select(self, executor: &mut DialogExecutor) -> (r: Result<(), DialogError>)
        requires
            old(executor).wf(),
        ensures
            final(executor).wf(),
            final(executor).dialog_view() == old(executor).dialog_view(),
            self@.0 < old(executor).node().links.len() ==> r is Ok && final(executor)@ == (
            ExecView {
                current: old(executor).node().links[self@.0 as int].to,
                history: old(executor)@.history.push((old(executor)@.current, self@.0)),
            }),
            self@.0 >= old(executor).node().links.len() ==> r == Err::<(), DialogError>(
                DialogError::NoSuchChoice(self@.0),
            ) && final(executor)@ == old(executor)@,
    {
        executor.select(self.index)
    }
}

/// The nodes after appending `l` to the links of its source node.
pub open spec fn with_link(nodes: Seq<NodeView>, l: LinkView) -> Seq<NodeView> {
    nodes_with(
        nodes,
        NodeView { links: node_of(nodes, l.from).links.push(l), ..node_of(nodes, l.from) },
    )
}

/// The nodes after attaching each of `ls`, in order, to its source node.
pub open spec fn attached(nodes: Seq<NodeView>, ls: Seq<LinkView>) -> Seq<NodeView>
    decreases ls.len(),
{
    if ls.len() == 0 {
        nodes
    } else {
        with_link(attached(nodes, ls.drop_last()), ls.last())
    }
}

/// Every link of `ls` starts at a node of `nodes`.
pub open spec fn sources_present(nodes: Seq<NodeView>, ls: Seq<LinkView>) -> bool {
    forall|j: int| 0 <= j < ls.len() ==> has_node(nodes, #[trigger] ls[j].from)
}

/// `ls[j]` is the first link of `ls` whose source is not among `nodes`.
pub open spec fn first_absent_source(nodes: Seq<NodeView>, ls: Seq<LinkView>, j: int) -> bool {
    &&& 0 <= j < ls.len()
    &&& !has_node(nodes, ls[j].from)
    &&& forall|k: int| 0 <= k < j ==> has_node(nodes, #[trigger] ls[k].from)
}

proof fn lemma_with_link_ids(nodes: Seq<NodeView>, l: LinkView)
    requires
        ids_unique(nodes),
        has_node(nodes, l.from),
    ensures
        forall|x: Seq<char>| #[trigger] has_node(with_link(nodes, l), x) == has_node(nodes, x),
        ids_unique(with_link(nodes, l)),
{
    let i = choose|i: int| 0 <= i < nodes.len() && nodes[i].id == l.from;
    lemma_unique_index(nodes, i);
    let n = NodeView { links: node_of(nodes, l.from).links.push(l), ..node_of(nodes, l.from) };
    let r = with_link(nodes, l);
    assert(r == nodes.update(i, n));
    assert forall|x: Seq<char>| #[trigger] has_node(r, x) == has_node(nodes, x) by {
        if has_node(nodes, x) {
            let j = choose|j: int| 0 <= j < nodes.len() && #[trigger] nodes[j].id == x;
            assert(r[j].id == x);
        }
        if has_node(r, x) {
            let j = choose|j: int| 0 <= j < r.len() && #[trigger] r[j].id == x;
            assert(nodes[j].id == x);
        }
    }
    assert forall|a: int, b: int|
        0 <= a < r.len() && 0 <= b < r.len() && #[trigger] r[a].id == #[trigger] r[b].id implies a
        == b by {
        assert(r[a].id == nodes[a].id && r[b].id == nodes[b].id);
    }
}

/// What a builder holds, as plain values.
pub struct BuilderView {
    pub start: Seq<char>,
    pub nodes: Seq<NodeView>,
    /// Links added while no node had their source id, in order of addition;
    /// `build` attaches each to its source node if that node was added since.
    pub dangling: Seq<LinkView>,
}

/// Accumulates nodes and links; `build` validates them into a `Dialog`.
pub struct DialogBuilder {
    start_node: DialogNodeId,
    nodes: Vec<DialogNode>,
    dangling: Vec<DialogLink>,
}

impl View for DialogBuilder {
    type V = BuilderView;

    closed spec fn view(&self) -> BuilderView {
        BuilderView {
            start: self.start_node@,
            nodes: node_views(self.nodes@),
            dangling: link_views(self.dangling@),
        }
    }
}

impl DialogBuilder {
    /// Node ids are unique, the start node is present, and links sit on their source node.
    pub open spec fn wf(&self) -> bool {
        &&& ids_unique(self@.nodes)
        &&& has_node(self@.nodes, self@.start)
        &&& all_links_from_owner(self@.nodes)
    }

    /// A builder holding only the start node.
    pub fn new(start_node: DialogNode) -> (r: DialogBuilder)
        requires
            links_from_owner(start_node@),
        ensures
            r.wf(),
            r@ == (BuilderView {
                start: start_node@.id,
                nodes: seq![start_node@],
                dangling: Seq::empty(),
            }),
    {
        let start_node_id = start_node.id.clone();
        let mut nodes: Vec<DialogNode> = Vec::new();
        nodes.push(start_node);
        let dangling: Vec<DialogLink> = Vec::new();
        let r = DialogBuilder { start_node: start_node_id, nodes, dangling };
        proof {
            assert(node_views(nodes@) =~= seq![start_node@]);
            assert(link_views(dangling@) =~= Seq::empty());
            assert(node_views(nodes@)[0].id == start_node@.id);
        }
        r
    }

    /// Inserts the node, replacing the one with the same id if there is one.
    pub fn add_node(self, node: DialogNode) -> (r: DialogBuilder)
        requires
            self.wf(),
            links_from_owner(node@),
        ensures
            r.wf(),
            r@ == (BuilderView { nodes: nodes_with(self@.nodes, node@), ..self@ }),
    {
        let mut b = self;
        let ghost old_nodes = b@.nodes;
        match find_node(&b.nodes, &node.id) {
            Some(i) => {
                proof {
                    lemma_unique_index(old_nodes, i as int);
                }
                b.nodes.set(i, node);
                proof {
                    assert(node_views(b.nodes@) =~= old_nodes.update(i as int, node@));
                }
            },
            None => {
                b.nodes.push(node);
                proof {
                    assert(node_views(b.nodes@) =~= old_nodes.push(node@));
                }
            },
        }
        proof {
            let ns = b@.nodes;
            let si = choose|j: int| 0 <= j < old_nodes.len() && old_nodes[j].id == b@.start;
            assert(ns[si].id == b@.start);
            assert forall|a: int, b: int|
                0 <= a < ns.len() && 0 <= b < ns.len() && #[trigger] ns[a].id == #[trigger] ns[b].id
                implies a == b by {
                if a < old_nodes.len() && ns[a] != node@ {
                    assert(ns[a] == old_nodes[a]);
                }
                if b < old_nodes.len() && ns[b] != node@ {
                    assert(ns[b] == old_nodes[b]);
                }
            }
            assert forall|a: int| 0 <= a < ns.len() implies links_from_owner(#[trigger] ns[a]) by {
                if a < old_nodes.len() && ns[a] != node@ {
                    assert(ns[a] == old_nodes[a]);
                }
            }
        }
        b
    }

    /// Appends the link to its source node's links. A link whose source node is
    /// absent is kept aside until `build`.
    pub fn add_link(self, link: DialogLink) -> (r: DialogBuilder)
        requires
            self.wf(),
        ensures
            r.wf(),
            r@.start == self@.start,
            has_node(self@.nodes, link@.from) ==> r@ == (BuilderView {
                nodes: nodes_with(
                    self@.nodes,
                    NodeView {
                        links: node_of(self@.nodes, link@.from).links.push(link@),
                        ..node_of(self@.nodes, link@.from)
                    },
                ),
                ..self@
            }),
            !has_node(self@.nodes, link@.from) ==> r@ == (BuilderView {
                dangling: self@.dangling.push(link@),
                ..self@
            }),
    {
        let mut b = self;
        let ghost old_nodes = b@.nodes;
        match find_node(&b.nodes, &link.from) {
            Some(i) => {
                proof {
                    lemma_unique_index(old_nodes, i as int);
                }
                let mut node = b.nodes.remove(i);
                assert(node@ == old_nodes[i as int]);
                node.add_link(link);
                let ghost n = node@;
                b.nodes.insert(i, node);
                proof {
                    assert(node_views(b.nodes@) =~= old_nodes.update(i as int, n));
                    let ns = b@.nodes;
                    assert forall|a: int, b: int|
                        0 <= a < ns.len() && 0 <= b < ns.len() && #[trigger] ns[a].id
                            == #[trigger] ns[b].id implies a == b by {
                        assert(ns[a].id == old_nodes[a].id);
                        assert(ns[b].id == old_nodes[b].id);
                    }
                    let si = choose|j: int| 0 <= j < old_nodes.len() && old_nodes[j].id == b@.start;
                    assert(ns[si].id == b@.start);
                    assert forall|a: int| 0 <= a < ns.len() implies links_from_owner(#[trigger] ns[a]) by {
                        if a != i {
                            assert(ns[a] == old_nodes[a]);
                        } else {
                            assert(links_from_owner(old_nodes[a]));
                        }
                    }
                }
            },
            None => {
                let ghost old_dangling = b@.dangling;
                b.dangling.push(link);
                proof {
                    assert(link_views(b.dangling@) =~= old_dangling.push(link@));
                }
            },
        }
        b
    }

    /// Validates nodes that have no kept-aside links: fails on the first link, in
    /// node order and then link order, whose target is absent.
    fn finish(self) -> (r: Result<Dialog, DialogError>)
        requires
            self.wf(),
            self@.dangling.len() == 0,
        ensures
            r is Ok <==> targets_present(self@.nodes),
            r is Ok ==> r->Ok_0.wf() && r->Ok_0@ == (DialogView {
                start: self@.start,
                nodes: self@.nodes,
            }),
            !targets_present(self@.nodes) ==> r is Err && exists|i: int, k: int|
                first_missing_at(self@.nodes, i, k) && invalid_link(r->Err_0) == (
                    None::<Seq<char>>,
                    Some(#[trigger] self@.nodes[i].links[k].to),
                ),
    {
        let ghost nodes = self@.nodes;
        let mut i: usize = 0;
        while i < self.nodes.len()
            invariant
                nodes == node_views(self.nodes@),
                self@.dangling.len() == 0,
                0 <= i <= nodes.len(),
                forall|a: int, k: int|
                    0 <= a < i && 0 <= k < nodes[a].links.len() ==> has_node(
                        nodes,
                        #[trigger] nodes[a].links[k].to,
                    ),
            decreases nodes.len() - i,
        {
            let node = &self.nodes[i];
            assert(node@ == nodes[i as int]);
            let mut k: usize = 0;
            while k < node.links.len()
                invariant
                    nodes == node_views(self.nodes@),
                    self@.dangling.len() == 0,
                    0 <= i < nodes.len(),
                    node@ == nodes[i as int],
                    0 <= k <= nodes[i as int].links.len(),
                    forall|a: int, k2: int|
                        0 <= a < i && 0 <= k2 < nodes[a].links.len() ==> has_node(
                            nodes,
                            #[trigger] nodes[a].links[k2].to,
                        ),
                    forall|k2: int|
                        0 <= k2 < k ==> has_node(nodes, #[trigger] nodes[i as int].links[k2].to),
                decreases node.links@.len() - k,
            {
                let link = &node.links[k];
                assert(link@ == nodes[i as int].links[k as int]);
                match find_node(&self.nodes, &link.to) {
                    Some(j) => {
                        proof {
                            assert(nodes[j as int].id == link@.to);
                        }
                    },
                    None => {
                        let info = LinkErrorInfo {
                            missing_source: None,
                            missing_target: Some(link.to.clone()),
                        };
                        let r = Err(DialogError::InvalidLink(info));
                        proof {
                            assert(first_missing_at(nodes, i as int, k as int));
                        }
                        return r;
                    },
                }
                k += 1;
            }
            i += 1;
        }
        Ok(Dialog { start_node: self.start_node, nodes: self.nodes })
    }

    /// Validates the accumulated nodes and links into a dialogue. Each link kept
    /// aside is first attached, in order of addition, to its source node; the
    /// build fails on the first of them whose source is still absent, else on the
    /// first link, in node order and then link order, whose target is absent.
    pub fn build(self) -> (r: Result<Dialog, DialogError>)
        requires
            self.wf(),
        ensures
            r is Ok <==> (sources_present(self@.nodes, self@.dangling) && targets_present(
                attached(self@.nodes, self@.dangling),
            )),
            r is Ok ==> r->Ok_0.wf() && r->Ok_0@ == (DialogView {
                start: self@.start,
                nodes: attached(self@.nodes, self@.dangling),
            }),
            !sources_present(self@.nodes, self@.dangling) ==> r is Err && exists|j: int|
                first_absent_source(self@.nodes, self@.dangling, j) && invalid_link(r->Err_0) == (
                    Some(#[trigger] self@.dangling[j].from),
                    if has_node(self@.nodes, self@.dangling[j].to) {
                        None::<Seq<char>>
                    } else {
                        Some(self@.dangling[j].to)
                    },
                ),
            sources_present(self@.nodes, self@.dangling) && !targets_present(
                attached(self@.nodes, self@.dangling),
            ) ==> r is Err && exists|i: int, k: int|
                first_missing_at(attached(self@.nodes, self@.dangling), i, k) && invalid_link(
                    r->Err_0,
                ) == (
                    None::<Seq<char>>,
                    Some(#[trigger] attached(self@.nodes, self@.dangling)[i].links[k].to),
                ),
    {
        let ghost nodes = self@.nodes;
        let ghost dl = self@.dangling;
        let mut j: usize = 0;
        while j < self.dangling.len()
            invariant
                nodes == self@.nodes,
                dl == self@.dangling,
                j <= dl.len(),
                forall|k: int| 0 <= k < j ==> has_node(nodes, #[trigger] dl[k].from),
            decreases dl.len() - j,
        {
            let link = &self.dangling[j];
            assert(link@ == dl[j as int]);
            match find_node(&self.nodes, &link.from) {
                Some(i) => {
                    proof {
                        assert(nodes[i as int].id == link@.from);
                    }
                },
                None => {
                    let missing_target = match find_node(&self.nodes, &link.to) {
                        Some(t) => {
                            proof {
                                assert(nodes[t as int].id == link@.to);
                            }
                            None
                        },
                        None => Some(link.to.clone()),
                    };
                    let info = LinkErrorInfo {
                        missing_source: Some(link.from.clone()),
                        missing_target,
                    };
                    proof {
                        assert(first_absent_source(nodes, dl, j as int));
                    }
                    return Err(DialogError::InvalidLink(info));
                },
            }
            j += 1;
        }
        let DialogBuilder { start_node, nodes: node_list, dangling } = self;
        let mut b = DialogBuilder { start_node, nodes: node_list, dangling: Vec::new() };
        proof {
            assert(b@.dangling =~= Seq::<LinkView>::empty());
            assert(dl.take(0) =~= Seq::<LinkView>::empty());
        }
        let mut k: usize = 0;
        while k < dangling.len()
            invariant
                b.wf(),
                b@.start == self@.start,
                b@.dangling.len() == 0,
                dl == link_views(dangling@),
                k <= dl.len(),
                ids_unique(nodes),
                b@.nodes == attached(nodes, dl.take(k as int)),
                forall|x: Seq<char>| #[trigger] has_node(b@.nodes, x) == has_node(nodes, x),
                forall|k2: int| 0 <= k2 < dl.len() ==> has_node(nodes, #[trigger] dl[k2].from),
            decreases dl.len() - k,
        {
            let link = dangling[k].clone();
            assert(link@ == dl[k as int]);
            let ghost before = b@.nodes;
            assert(has_node(nodes, dl[k as int].from));
            assert(has_node(before, link@.from));
            proof {
                lemma_with_link_ids(before, link@);
            }
            b = b.add_link(link);
            proof {
                assert(dl.take(k + 1).drop_last() =~= dl.take(k as int));
                assert(dl.take(k + 1).last() == dl[k as int]);
            }
            k += 1;
        }
        proof {
            assert(dl.take(dl.len() as int) =~= dl);
        }
        b.finish()
    }
}

} // verus!
