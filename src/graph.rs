use std::collections::HashMap;
use std::collections::VecDeque;
use vstd::prelude::*;

use crate::fan_in::{
    counts_agree, counts_settled, law_drained_counts_are_exact, lemma_fresh_counts_agree,
    lemma_settled_agree, lemma_switch_keeps_counts, no_inits,
};
use crate::logic_block::{LogicBlock, LAMP, ROCK};
use crate::node::Node;
use crate::storing_block::StoringBlock;

verus! {

broadcast use vstd::std_specs::hash::group_hash_axioms;

/// Id of a node of the graph.
pub type NodeId = u32;

/// Direction of a change of a block's count of on parents.
#[derive(Debug, Copy, Clone, PartialEq, Eq, Structural)]
pub enum ChangeValue {
    IncreaseValue,
    DecreaseValue,
}

/// What a queued action does to its target node.
#[derive(Debug, Copy, Clone, PartialEq, Eq, Structural)]
pub enum NodeAction {
    /// Announce the node's initial state to its children.
    InitNode,
    /// One more parent of the node is on.
    IncreaseValue,
    /// One parent fewer of the node is on.
    DecreaseValue,
}

/// Why a graph operation was refused.
#[derive(Debug, Copy, Clone, PartialEq, Eq, Structural)]
pub enum GraphError {
    /// A node id is given twice.
    DuplicateNode,
    /// An id names no node of the graph.
    UnknownNode,
    /// A link joins two storing blocks.
    StoringBlockLink,
    /// A lamp operation or a button link names a storing block where a
    /// logic block is needed.
    NotALogicBlock,
    /// A button link names a logic block where a storing block is needed.
    NotAStoringBlock,
    /// `turn_on_lamp` on a block that is not a rock.
    NotARock,
    /// `turn_off_lamp` on a block that is not a lamp.
    NotALamp,
    /// A block would count more on parents than its mask can tell apart.
    CountOverflow,
    /// A block would count fewer than zero on parents.
    CountUnderflow,
    /// A child, source or button names no fitting node.
    DanglingReference,
    /// The links form a cycle, so propagation would never end.
    Cycle,
}

/// The actions that tell each of `children`, in order, about `a`.
pub open spec fn children_actions(children: Seq<u32>, a: NodeAction) -> Seq<(NodeAction, u32)> {
    Seq::new(children.len(), |i: int| (a, children[i]))
}

/// `id` names a logic block of `m`.
pub open spec fn is_logic_at(m: Map<u32, Node>, id: u32) -> bool {
    m.contains_key(id) && m[id] is LogicBlock
}

/// The result of processing the first queued action, if any.
pub open spec fn step(m: Map<u32, Node>, q: Seq<(NodeAction, u32)>) -> Result<
    (Map<u32, Node>, Seq<(NodeAction, u32)>),
    GraphError,
> {
    if q.len() == 0 {
        Ok((m, q))
    } else {
        let (a, id) = q[0];
        let rest = q.drop_first();
        if !m.contains_key(id) {
            Err(GraphError::UnknownNode)
        } else if a == NodeAction::InitNode {
            if m[id].spec_is_on() {
                Ok((m, rest + children_actions(m[id].children(), NodeAction::IncreaseValue)))
            } else {
                Ok((m, rest))
            }
        } else {
            match m[id] {
                Node::LogicBlock(b) => {
                    if a == NodeAction::IncreaseValue && b.value() >= 4 {
                        Err(GraphError::CountOverflow)
                    } else if a == NodeAction::DecreaseValue && b.value() == 0 {
                        Err(GraphError::CountUnderflow)
                    } else {
                        let v = if a == NodeAction::IncreaseValue {
                            (b.value() + 1) as u8
                        } else {
                            (b.value() - 1) as u8
                        };
                        let nb = b.with_value(v);
                        let m2 = m.insert(id, Node::LogicBlock(nb));
                        if nb.spec_is_on() == b.spec_is_on() {
                            Ok((m2, rest))
                        } else if nb.spec_is_on() {
                            Ok((m2, rest + children_actions(b.children_view(), NodeAction::IncreaseValue)))
                        } else {
                            Ok((m2, rest + children_actions(b.children_view(), NodeAction::DecreaseValue)))
                        }
                    }
                },
                Node::StoringBlock(s) => {
                    if !is_logic_at(m, s.source) || !is_logic_at(m, s.button_node) {
                        Err(GraphError::DanglingReference)
                    } else {
                        let now_on = if m[s.button_node].spec_is_on() {
                            m[s.source].spec_is_on()
                        } else {
                            s.is_on
                        };
                        let ns = StoringBlock {
                            is_on: now_on,
                            source: s.source,
                            button_node: s.button_node,
                            children: s.children,
                        };
                        let m2 = m.insert(id, Node::StoringBlock(ns));
                        if now_on == s.is_on {
                            Ok((m2, rest))
                        } else if now_on {
                            Ok((m2, rest + children_actions(s.children@, NodeAction::IncreaseValue)))
                        } else {
                            Ok((m2, rest + children_actions(s.children@, NodeAction::DecreaseValue)))
                        }
                    }
                },
            }
        }
    }
}

/// The state after `n` steps, or the first error met.
pub open spec fn run(m: Map<u32, Node>, q: Seq<(NodeAction, u32)>, n: nat) -> Result<
    (Map<u32, Node>, Seq<(NodeAction, u32)>),
    GraphError,
>
    decreases n,
{
    if n == 0 {
        Ok((m, q))
    } else {
        match run(m, q, (n - 1) as nat) {
            Ok((m1, q1)) => step(m1, q1),
            Err(e) => Err(e),
        }
    }
}

/// Every child, source and button names a node of the right kind.
pub open spec fn refs_resolve(m: Map<u32, Node>) -> bool {
    forall|id: u32| #[trigger] m.contains_key(id) ==> node_refs_resolve(m, id)
}

/// The children, source and button of node `id` name nodes of `m`.
pub open spec fn node_refs_resolve(m: Map<u32, Node>, id: u32) -> bool {
    &&& forall|j: int| 0 <= j < m[id].children().len() ==> m.contains_key(#[trigger] m[id].children()[j])
    &&& m[id] is StoringBlock ==> is_logic_at(m, m[id]->StoringBlock_0.source) && is_logic_at(
        m,
        m[id]->StoringBlock_0.button_node,
    )
}

/// `ranks` puts every child below its parent, and no node has `base`
/// children or more.
pub open spec fn ranking_valid(m: Map<u32, Node>, ranks: Map<u32, nat>, base: nat) -> bool {
    &&& refs_resolve(m)
    &&& base >= 1
    &&& forall|id: u32| #[trigger] m.contains_key(id) ==> node_ranked(m, ranks, base, id)
}

/// Node `id` has fewer than `base` children, all ranked below it.
pub open spec fn node_ranked(m: Map<u32, Node>, ranks: Map<u32, nat>, base: nat, id: u32) -> bool {
    &&& ranks.contains_key(id)
    &&& m[id].children().len() < base
    &&& forall|j: int|
        0 <= j < m[id].children().len() ==> ranks.contains_key(#[trigger] m[id].children()[j])
            && ranks[m[id].children()[j]] < ranks[id]
}

/// Some ranking puts every child strictly below its parent: the links form
/// no cycle.
pub open spec fn acyclic(m: Map<u32, Node>) -> bool {
    exists|ranks: Map<u32, nat>| orders_children(m, ranks)
}

/// `ranks` ranks every node of `m` above each of its children.
pub open spec fn orders_children(m: Map<u32, Node>, ranks: Map<u32, nat>) -> bool {
    forall|id: u32|
        #[trigger] m.contains_key(id) ==> ranks.contains_key(id) && forall|j: int|
            0 <= j < m[id].children().len() ==> ranks.contains_key(#[trigger] m[id].children()[j])
                && ranks[m[id].children()[j]] < ranks[id]
}

/// The levels given so far put every ranked node above its children, all
/// ranked, and below `done`.
pub open spec fn levels_valid(m: Map<u32, Node>, levels: Map<u32, u64>, done: int) -> bool {
    forall|k: u32|
        #[trigger] levels.contains_key(k) ==> m.contains_key(k) && levels[k] < done && forall|j: int|
            0 <= j < m[k].children().len() ==> levels.contains_key(#[trigger] m[k].children()[j])
                && levels[m[k].children()[j]] < levels[k]
}

/// Node `v` is ranked, or waits for a child that is not.
pub open spec fn stuck(m: Map<u32, Node>, ranked: Set<u32>, v: u32) -> bool {
    ranked.contains(v) || exists|j: int| 0 <= j < m[v].children().len() && !ranked.contains(#[trigger] m[v].children()[j])
}

/// How many of `ids` are not ranked.
pub open spec fn unranked(ids: Seq<u32>, ranked: Set<u32>) -> int
    decreases ids.len(),
{
    if ids.len() == 0 {
        0
    } else {
        unranked(ids.drop_last(), ranked) + if ranked.contains(ids.last()) {
            0int
        } else {
            1int
        }
    }
}

proof fn lemma_unranked_none(ids: Seq<u32>, ranked: Set<u32>)
    requires
        ranked == Set::<u32>::empty(),
    ensures
        unranked(ids, ranked) == ids.len(),
    decreases ids.len(),
{
    if ids.len() > 0 {
        lemma_unranked_none(ids.drop_last(), ranked);
    }
}

proof fn lemma_unranked_insert(ids: Seq<u32>, ranked: Set<u32>, id: u32)
    requires
        ids.no_duplicates(),
        ids.contains(id),
        !ranked.contains(id),
    ensures
        unranked(ids, ranked.insert(id)) == unranked(ids, ranked) - 1,
    decreases ids.len(),
{
    let init = ids.drop_last();
    assert(init.no_duplicates()) by {
        assert forall|i: int, j: int| 0 <= i < j < init.len() implies init[i] != init[j] by {
            assert(init[i] == ids[i] && init[j] == ids[j]);
        }
    }
    if ids.last() == id {
        assert(!init.contains(id)) by {
            if init.contains(id) {
                let k = choose|k: int| 0 <= k < init.len() && init[k] == id;
                assert(ids[k] == ids[ids.len() - 1]);
            }
        }
        lemma_unranked_same(init, ranked, id);
    } else {
        let k = choose|k: int| 0 <= k < ids.len() && ids[k] == id;
        assert(init[k] == id);
        lemma_unranked_insert(init, ranked, id);
    }
}

proof fn lemma_unranked_same(ids: Seq<u32>, ranked: Set<u32>, id: u32)
    requires
        !ids.contains(id),
    ensures
        unranked(ids, ranked.insert(id)) == unranked(ids, ranked),
    decreases ids.len(),
{
    if ids.len() > 0 {
        let init = ids.drop_last();
        assert(!init.contains(id)) by {
            if init.contains(id) {
                let k = choose|k: int| 0 <= k < init.len() && init[k] == id;
                assert(ids[k] == id);
            }
        }
        assert(ids[ids.len() - 1] != id);
        lemma_unranked_same(init, ranked, id);
    }
}

proof fn lemma_unranked_witness(ids: Seq<u32>, ranked: Set<u32>)
    requires
        unranked(ids, ranked) > 0,
    ensures
        exists|u: u32| ids.contains(u) && !ranked.contains(u),
    decreases ids.len(),
{
    if ids.len() > 0 {
        if ranked.contains(ids.last()) {
            lemma_unranked_witness(ids.drop_last(), ranked);
            let u = choose|u: u32| ids.drop_last().contains(u) && !ranked.contains(u);
            let k = choose|k: int| 0 <= k < ids.drop_last().len() && ids.drop_last()[k] == u;
            assert(ids[k] == u);
        } else {
            assert(ids[ids.len() - 1] == ids.last());
        }
    }
}

proof fn lemma_unranked_zero(ids: Seq<u32>, ranked: Set<u32>)
    requires
        unranked(ids, ranked) <= 0,
    ensures
        forall|k: int| 0 <= k < ids.len() ==> ranked.contains(#[trigger] ids[k]),
    decreases ids.len(),
{
    if ids.len() > 0 {
        lemma_unranked_nonneg(ids.drop_last(), ranked);
        lemma_unranked_zero(ids.drop_last(), ranked);
        assert forall|k: int| 0 <= k < ids.len() implies ranked.contains(#[trigger] ids[k]) by {
            if k < ids.len() - 1 {
                assert(ids[k] == ids.drop_last()[k]);
            }
        }
    }
}

proof fn lemma_unranked_nonneg(ids: Seq<u32>, ranked: Set<u32>)
    ensures
        unranked(ids, ranked) >= 0,
    decreases ids.len(),
{
    if ids.len() > 0 {
        lemma_unranked_nonneg(ids.drop_last(), ranked);
    }
}

/// If every unranked node waits for an unranked child, a ranking of all
/// children below their parents cannot exist.
proof fn lemma_no_sink(m: Map<u32, Node>, rk: Map<u32, nat>, ranked: Set<u32>, u: u32)
    requires
        refs_resolve(m),
        m.contains_key(u),
        !ranked.contains(u),
        forall|v: u32| m.contains_key(v) && !ranked.contains(v) ==> stuck(m, ranked, v),
    ensures
        !orders_children(m, rk),
    decreases rk[u],
{
    if orders_children(m, rk) {
        assert(stuck(m, ranked, u));
        let j = choose|j: int| 0 <= j < m[u].children().len() && !ranked.contains(#[trigger] m[u].children()[j]);
        let c = m[u].children()[j];
        assert(node_refs_resolve(m, u));
        assert(m.contains_key(c));
        lemma_no_sink(m, rk, ranked, c);
    }
}

/// Two maps hold the same nodes with the same wiring; only states differ.
pub open spec fn same_wiring(m1: Map<u32, Node>, m2: Map<u32, Node>) -> bool {
    &&& m1.dom() == m2.dom()
    &&& forall|id: u32| #[trigger] m1.contains_key(id) ==> same_node_wiring(m1[id], m2[id])
}

/// Same kind, same children, and for a storing block the same source and
/// button.
pub open spec fn same_node_wiring(a: Node, b: Node) -> bool {
    &&& a.children() == b.children()
    &&& match (a, b) {
        (Node::LogicBlock(_), Node::LogicBlock(_)) => true,
        (Node::StoringBlock(x), Node::StoringBlock(y)) => x.source == y.source && x.button_node
            == y.button_node,
        _ => false,
    }
}

/// The ids of a list of nodes to insert.
pub open spec fn entry_ids(entries: Seq<(Node, u32)>) -> Seq<u32> {
    Seq::new(entries.len(), |i: int| entries[i].1)
}

/// The targets of the links that leave `id`, in order.
pub open spec fn targets(links: Seq<(u32, u32)>, id: u32) -> Seq<u32>
    decreases links.len(),
{
    if links.len() == 0 {
        Seq::empty()
    } else if links.last().0 == id {
        targets(links.drop_last(), id).push(links.last().1)
    } else {
        targets(links.drop_last(), id)
    }
}

/// Both ends of the link are nodes of `m`, and not both storing blocks.
pub open spec fn link_ok(m: Map<u32, Node>, l: (u32, u32)) -> bool {
    &&& m.contains_key(l.0)
    &&& m.contains_key(l.1)
    &&& !(m[l.0] is StoringBlock && m[l.1] is StoringBlock)
}

/// Two nodes are of one kind and hold the same state and references;
/// their children may differ.
pub open spec fn same_state(a: Node, b: Node) -> bool {
    match (a, b) {
        (Node::LogicBlock(x), Node::LogicBlock(y)) => x.value() == y.value() && x.requirements()
            == y.requirements(),
        (Node::StoringBlock(x), Node::StoringBlock(y)) => x.is_on == y.is_on && x.source == y.source
            && x.button_node == y.button_node,
        _ => false,
    }
}

/// Init actions for `ids`, in order.
pub open spec fn init_actions(ids: Seq<u32>) -> Seq<(NodeAction, u32)> {
    Seq::new(ids.len(), |i: int| (NodeAction::InitNode, ids[i]))
}

/// `r` reports the outcome `s` of a step, with `m` and `q` the state after it.
pub open spec fn reports(
    r: Result<(), GraphError>,
    m: Map<u32, Node>,
    q: Seq<(NodeAction, u32)>,
    s: Result<(Map<u32, Node>, Seq<(NodeAction, u32)>), GraphError>,
) -> bool {
    match s {
        Ok((m2, q2)) => r is Ok && m == m2 && q == q2,
        Err(e) => r == Err::<(), GraphError>(e),
    }
}

/// Appends to `queue` one action `a` for each of `children`, in order.
fn enqueue_children(queue: &mut VecDeque<(NodeAction, NodeId)>, children: &Vec<u32>, a: NodeAction)
    ensures
        final(queue)@ == old(queue)@ + children_actions(children@, a),
{
    let mut i: usize = 0;
    while i < children.len()
        invariant
            i <= children@.len(),
            queue@ == old(queue)@ + children_actions(children@.subrange(0, i as int), a),
        decreases children@.len() - i,
    {
        queue.push_back((a, children[i]));
        assert(children_actions(children@.subrange(0, i + 1), a) =~= children_actions(
            children@.subrange(0, i as int),
            a,
        ).push((a, children@[i as int])));
        i = i + 1;
    }
    assert(children@.subrange(0, i as int) =~= children@);
}

/// A graph of logic and storing blocks keyed by id, with its queue of
/// pending actions.
pub struct Graph {
    nodes: HashMap<u32, Node>,
    order: Vec<u32>,
    actions_queue: VecDeque<(NodeAction, NodeId)>,
    ranked: bool,
    ranks: Ghost<Map<u32, nat>>,
    base: Ghost<nat>,
}

impl Graph {
    /// The nodes by id.
    pub closed spec fn node_map(&self) -> Map<u32, Node> {
        self.nodes@
    }

    /// The pending actions, first one first.
    pub closed spec fn queue(&self) -> Seq<(NodeAction, u32)> {
        self.actions_queue@
    }

    /// The node ids in the order they were inserted.
    pub closed spec fn ids(&self) -> Seq<u32> {
        self.order@
    }

    /// The id list matches the nodes one to one, and a ranking, once worked
    /// out, is valid.
    pub closed spec fn wf(&self) -> bool {
        &&& self.order@.no_duplicates()
        &&& forall|id: u32| self.nodes@.contains_key(id) <==> self.order@.contains(id)
        &&& self.ranked ==> ranking_valid(self.nodes@, self.ranks@, self.base@)
    }

    /// An empty graph.
    pub fn new() -> (r: Self)
        ensures
            r.wf(),
            r.node_map() == Map::<u32, Node>::empty(),
            r.queue() == Seq::<(NodeAction, u32)>::empty(),
            r.ids() == Seq::<u32>::empty(),
    {
        Graph {
            nodes: HashMap::new(),
            order: Vec::new(),
            actions_queue: VecDeque::new(),
            ranked: false,
            ranks: Ghost(Map::empty()),
            base: Ghost(1),
        }
    }

    /// The node with id `key`.
    pub fn get_node(&self, key: u32) -> (r: Option<&Node>)
        ensures
            match r {
                Some(n) => self.node_map().contains_key(key) && *n == self.node_map()[key],
                None => !self.node_map().contains_key(key),
            },
    {
        self.nodes.get(&key)
    }

    /// The logic block with id `key`.
    pub fn get_logical_block(&self, key: u32) -> (r: Option<&LogicBlock>)
        ensures
            match r {
                Some(b) => self.node_map().contains_key(key) && self.node_map()[key]
                    == Node::LogicBlock(*b),
                None => !is_logic_at(self.node_map(), key),
            },
    {
        match self.nodes.get(&key) {
            Some(Node::LogicBlock(node)) => Some(node),
            _ => None,
        }
    }

    /// The storing block with id `key`.
    pub fn get_storing_block(&self, key: u32) -> (r: Option<&StoringBlock>)
        ensures
            match r {
                Some(b) => self.node_map().contains_key(key) && self.node_map()[key]
                    == Node::StoringBlock(*b),
                None => !(self.node_map().contains_key(key)
                    && self.node_map()[key] is StoringBlock),
            },
    {
        match self.nodes.get(&key) {
            Some(Node::StoringBlock(node)) => Some(node),
            _ => None,
        }
    }

    /// Inserts each node under its id, in order. Refused when an id is
    /// already taken or given twice.
    #[verifier::loop_isolation(false)]
    pub fn insert_nodes(&mut self, nodes: Vec<(Node, NodeId)>) -> (r: Result<(), GraphError>)
        requires
            old(self).wf(),
        ensures
            final(self).wf(),
            final(self).queue() == old(self).queue(),
            r is Ok <==> (entry_ids(nodes@).no_duplicates() && forall|i: int|
                0 <= i < nodes@.len() ==> !old(self).node_map().contains_key(#[trigger] nodes@[i].1)),
            r is Err ==> r == Err::<(), GraphError>(GraphError::DuplicateNode),
            r is Ok ==> {
                &&& final(self).ids() == old(self).ids() + entry_ids(nodes@)
                &&& forall|k: u32| #[trigger] final(self).node_map().contains_key(k)
                    <==> old(self).node_map().contains_key(k) || entry_ids(nodes@).contains(k)
                &&& forall|k: u32| #[trigger] old(self).node_map().contains_key(k)
                    ==> final(self).node_map()[k] == old(self).node_map()[k]
                &&& forall|i: int| 0 <= i < nodes@.len()
                    ==> final(self).node_map()[#[trigger] nodes@[i].1] == nodes@[i].0
            },
    {
        let ghost entries = nodes@;
        let total = nodes.len();
        let mut nodes = nodes;
        let mut reversed: Vec<(Node, NodeId)> = Vec::new();
        while nodes.len() > 0
            invariant
                entries == nodes@ + reversed@.reverse(),
            decreases nodes@.len(),
        {
            let e = nodes.pop().unwrap();
            proof {
                assert(reversed@.push(e).reverse() =~= seq![e] + reversed@.reverse());
                assert(entries =~= nodes@ + reversed@.push(e).reverse());
            }
            reversed.push(e);
        }
        assert(entries =~= reversed@.reverse());
        self.ranked = false;
        let ghost m0 = self.nodes@;
        let ghost o0 = self.order@;
        let mut i: usize = 0;
        while reversed.len() > 0
            invariant
                total == entries.len(),
                i + reversed@.len() == entries.len(),
                reversed@.reverse() =~= entries.subrange(i as int, entries.len() as int),
                self.wf(),
                !self.ranked,
                self.queue() == old(self).queue(),
                old(self).node_map() == m0,
                old(self).ids() == o0,
                o0.no_duplicates(),
                forall|k: u32| m0.contains_key(k) <==> o0.contains(k),
                entry_ids(entries.subrange(0, i as int)).no_duplicates(),
                forall|j: int| 0 <= j < i ==> !m0.contains_key(#[trigger] entries[j].1),
                self.order@ == o0 + entry_ids(entries.subrange(0, i as int)),
                forall|k: u32| #[trigger] self.nodes@.contains_key(k) <==> m0.contains_key(k)
                    || entry_ids(entries.subrange(0, i as int)).contains(k),
                forall|k: u32| #[trigger] m0.contains_key(k) ==> self.nodes@[k] == m0[k],
                forall|j: int| 0 <= j < i ==> self.nodes@[#[trigger] entries[j].1] == entries[j].0,
            decreases reversed@.len(),
        {
            let ghost before = reversed@;
            let (node, id) = reversed.pop().unwrap();
            proof {
                assert(before.reverse()[0] == before.last());
                assert(entries[i as int] == before.reverse()[0]);
                assert(reversed@.reverse() =~= entries.subrange(i + 1, entries.len() as int)) by {
                    assert(reversed@ =~= before.drop_last());
                    assert forall|j: int| 0 <= j < reversed@.len() implies reversed@.reverse()[j]
                        == entries.subrange(i + 1, entries.len() as int)[j] by {
                        assert(before.reverse()[j + 1] == entries.subrange(i as int, entries.len() as int)[j + 1]);
                    }
                }
            }
            if self.nodes.contains_key(&id) {
                proof {
                    assert(entries[i as int].1 == id);
                    if !m0.contains_key(id) {
                        let pre = entry_ids(entries.subrange(0, i as int));
                        assert(pre.contains(id));
                        let k = choose|k: int| 0 <= k < pre.len() && pre[k] == id;
                        assert(entry_ids(entries)[k] == id);
                        assert(entry_ids(entries)[i as int] == id);
                        assert(!entry_ids(entries).no_duplicates());
                    }
                }
                return Err(GraphError::DuplicateNode);
            }
            let ghost pre = entry_ids(entries.subrange(0, i as int));
            self.nodes.insert(id, node);
            self.order.push(id);
            proof {
                assert(entry_ids(entries.subrange(0, i + 1)) =~= pre.push(id));
                assert forall|a: int, b: int| 0 <= a < b < pre.push(id).len() implies pre.push(id)[a] != pre.push(id)[b] by {
                    if b == i {
                        assert(pre.contains(pre[a]));
                    }
                }
                assert(self.order@ =~= o0 + pre.push(id));
                assert forall|k: u32| #[trigger] self.nodes@.contains_key(k) <==> self.order@.contains(k) by {
                    if self.order@.contains(k) {
                        let j = choose|j: int| 0 <= j < self.order@.len() && self.order@[j] == k;
                        if j < old(self).ids().len() + i {
                            assert(self.order@[j] == (o0 + pre)[j]);
                            assert((o0 + pre).contains(k));
                        }
                    }
                    if self.nodes@.contains_key(k) && k != id {
                        assert(m0.contains_key(k) || pre.contains(k));
                        if m0.contains_key(k) {
                            assert(o0.contains(k));
                            let j = choose|j: int| 0 <= j < o0.len() && o0[j] == k;
                            assert(self.order@[j] == k);
                        } else {
                            let j = choose|j: int| 0 <= j < pre.len() && pre[j] == k;
                            assert(self.order@[o0.len() + j] == k);
                        }
                    }
                    if k == id {
                        assert(self.order@[self.order@.len() - 1] == k);
                    }
                }
                assert forall|a: int, b: int| 0 <= a < b < self.order@.len() implies self.order@[a] != self.order@[b] by {
                    if b >= o0.len() && a < o0.len() {
                        let kb = self.order@[b];
                        assert(pre.push(id)[b - o0.len()] == kb);
                        assert(o0.contains(self.order@[a]));
                        assert(m0.contains_key(self.order@[a]));
                        if b - o0.len() < i {
                            assert(kb == entries[b - o0.len()].1);
                        }
                    } else if a >= o0.len() {
                        assert(pre.push(id)[a - o0.len()] != pre.push(id)[b - o0.len()]);
                    } else {
                        assert(o0[a] != o0[b]);
                    }
                }
                assert forall|k: u32| #[trigger] self.nodes@.contains_key(k) <==> m0.contains_key(k)
                    || entry_ids(entries.subrange(0, i + 1)).contains(k) by {
                    if pre.push(id).contains(k) && k != id {
                        let j = choose|j: int| 0 <= j < pre.push(id).len() && pre.push(id)[j] == k;
                        assert(pre[j] == k);
                    }
                    if pre.contains(k) {
                        let j = choose|j: int| 0 <= j < pre.len() && pre[j] == k;
                        assert(pre.push(id)[j] == k);
                    }
                    if k == id {
                        assert(pre.push(id)[i as int] == k);
                    }
                }
                assert forall|j: int| 0 <= j < i + 1 implies self.nodes@[#[trigger] entries[j].1] == entries[j].0 by {
                    if j < i {
                        assert(pre[j] == entries[j].1);
                        assert(pre.contains(entries[j].1));
                    }
                }
            }
            i = i + 1;
        }
        assert(entries.subrange(0, i as int) =~= entries);
        Ok(())
    }

    /// Appends `child` to the children of node `id`.
    fn add_child(&mut self, id: u32, child: u32)
        requires
            old(self).wf(),
            old(self).node_map().contains_key(id),
            !old(self).ranked,
        ensures
            final(self).wf(),
            !final(self).ranked,
            final(self).queue() == old(self).queue(),
            final(self).ids() == old(self).ids(),
            final(self).node_map().dom() == old(self).node_map().dom(),
            forall|k: u32| k != id && #[trigger] old(self).node_map().contains_key(k)
                ==> final(self).node_map()[k] == old(self).node_map()[k],
            same_state(old(self).node_map()[id], final(self).node_map()[id]),
            final(self).node_map()[id].children() == old(self).node_map()[id].children().push(child),
    {
        let ghost m0 = self.nodes@;
        match self.nodes.remove(&id) {
            Some(Node::LogicBlock(mut b)) => {
                b.push_child(child);
                self.nodes.insert(id, Node::LogicBlock(b));
            },
            Some(Node::StoringBlock(mut s)) => {
                s.children.push(child);
                self.nodes.insert(id, Node::StoringBlock(s));
            },
            None => {},
        }
        assert(self.nodes@.dom() =~= m0.dom());
    }

    /// Links each source to its target, in order: the target becomes the
    /// source's last child. Refused when an end names no node or both ends
    /// are storing blocks.
    pub fn insert_links(&mut self, links: Vec<(NodeId, NodeId)>) -> (r: Result<(), GraphError>)
        requires
            old(self).wf(),
        ensures
            final(self).wf(),
            final(self).queue() == old(self).queue(),
            final(self).ids() == old(self).ids(),
            final(self).node_map().dom() == old(self).node_map().dom(),
            r is Ok <==> forall|i: int| 0 <= i < links@.len() ==> link_ok(old(self).node_map(), #[trigger] links@[i]),
            r == Err::<(), GraphError>(GraphError::UnknownNode) ==> exists|i: int| 0 <= i < links@.len()
                && !(old(self).node_map().contains_key(#[trigger] links@[i].0) && old(self).node_map().contains_key(links@[i].1)),
            r == Err::<(), GraphError>(GraphError::StoringBlockLink) ==> exists|i: int| 0 <= i < links@.len()
                && old(self).node_map()[#[trigger] links@[i].0] is StoringBlock && old(self).node_map()[links@[i].1] is StoringBlock,
            r is Err ==> r == Err::<(), GraphError>(GraphError::UnknownNode) || r == Err::<(), GraphError>(GraphError::StoringBlockLink),
            r is Ok ==> forall|k: u32| #[trigger] old(self).node_map().contains_key(k) ==> {
                &&& same_state(old(self).node_map()[k], final(self).node_map()[k])
                &&& final(self).node_map()[k].children() == old(self).node_map()[k].children() + targets(links@, k)
            },
    {
        self.ranked = false;
        let ghost m0 = self.nodes@;
        let mut i: usize = 0;
        while i < links.len()
            invariant
                i <= links@.len(),
                self.wf(),
                !self.ranked,
                self.queue() == old(self).queue(),
                self.ids() == old(self).ids(),
                m0 == old(self).node_map(),
                self.nodes@.dom() == m0.dom(),
                forall|j: int| 0 <= j < i ==> link_ok(m0, #[trigger] links@[j]),
                forall|k: u32| #[trigger] m0.contains_key(k) ==> {
                    &&& same_state(m0[k], self.nodes@[k])
                    &&& self.nodes@[k].children() == m0[k].children() + targets(links@.subrange(0, i as int), k)
                },
            decreases links@.len() - i,
        {
            let (a, b) = links[i];
            let ghost cur = self.nodes@;
            if !self.nodes.contains_key(&a) || !self.nodes.contains_key(&b) {
                return Err(GraphError::UnknownNode);
            }
            let a_storing = matches!(self.nodes.get(&a), Some(Node::StoringBlock(_)));
            let b_storing = matches!(self.nodes.get(&b), Some(Node::StoringBlock(_)));
            proof {
                assert(same_state(m0[a], cur[a]));
                assert(same_state(m0[b], cur[b]));
            }
            if a_storing && b_storing {
                return Err(GraphError::StoringBlockLink);
            }
            self.add_child(a, b);
            proof {
                let pre = links@.subrange(0, i as int);
                let post = links@.subrange(0, i + 1);
                assert(post.drop_last() =~= pre);
                assert forall|k: u32| #[trigger] m0.contains_key(k) implies {
                    &&& same_state(m0[k], self.nodes@[k])
                    &&& self.nodes@[k].children() == m0[k].children() + targets(post, k)
                } by {
                    assert(same_state(m0[k], cur[k]));
                    if k == a {
                        assert(m0[k].children() + targets(post, k) =~= (m0[k].children() + targets(pre, k)).push(b));
                        match (m0[k], cur[k], self.nodes@[k]) {
                            (Node::LogicBlock(_), Node::LogicBlock(_), Node::LogicBlock(_)) => {},
                            (Node::StoringBlock(_), Node::StoringBlock(_), Node::StoringBlock(_)) => {},
                            _ => {},
                        }
                    } else {
                        assert(targets(post, k) == targets(pre, k));
                    }
                }
            }
            i = i + 1;
        }
        assert(links@.subrange(0, i as int) =~= links@);
        Ok(())
    }

    /// Makes the logic block `logic_id` the button of the storing block
    /// `storing_id`; the logic block gains the storing block as its last
    /// child.
    pub fn insert_button_link(&mut self, logic_id: u32, storing_id: u32) -> (r: Result<(), GraphError>)
        requires
            old(self).wf(),
        ensures
            final(self).wf(),
            final(self).queue() == old(self).queue(),
            final(self).ids() == old(self).ids(),
            !old(self).node_map().contains_key(logic_id) || !old(self).node_map().contains_key(storing_id)
                ==> r == Err::<(), GraphError>(GraphError::UnknownNode),
            old(self).node_map().contains_key(logic_id) && old(self).node_map().contains_key(storing_id) ==> {
                if !is_logic_at(old(self).node_map(), logic_id) {
                    r == Err::<(), GraphError>(GraphError::NotALogicBlock)
                } else if !(old(self).node_map()[storing_id] is StoringBlock) {
                    r == Err::<(), GraphError>(GraphError::NotAStoringBlock)
                } else {
                    &&& r is Ok
                    &&& final(self).node_map().dom() == old(self).node_map().dom()
                    &&& forall|k: u32| k != logic_id && k != storing_id && #[trigger] old(self).node_map().contains_key(k)
                        ==> final(self).node_map()[k] == old(self).node_map()[k]
                    &&& same_state(old(self).node_map()[logic_id], final(self).node_map()[logic_id])
                    &&& final(self).node_map()[logic_id].children() == old(self).node_map()[logic_id].children().push(
                        storing_id,
                    )
                    &&& final(self).node_map()[storing_id] == Node::StoringBlock(
                        StoringBlock {
                            button_node: logic_id,
                            ..old(self).node_map()[storing_id]->StoringBlock_0
                        },
                    )
                }
            },
    {
        if !self.nodes.contains_key(&logic_id) || !self.nodes.contains_key(&storing_id) {
            return Err(GraphError::UnknownNode);
        }
        if self.get_logical_block(logic_id).is_none() {
            return Err(GraphError::NotALogicBlock);
        }
        if self.get_storing_block(storing_id).is_none() {
            return Err(GraphError::NotAStoringBlock);
        }
        self.ranked = false;
        let ghost m0 = self.nodes@;
        self.add_child(logic_id, storing_id);
        let ghost m1 = self.nodes@;
        match self.nodes.remove(&storing_id) {
            Some(Node::StoringBlock(mut s)) => {
                s.button_node = logic_id;
                self.nodes.insert(storing_id, Node::StoringBlock(s));
            },
            _ => {
                assert(false);
            },
        }
        assert(self.nodes@.dom() =~= m0.dom());
        Ok(())
    }

    /// Turns the rock `node_id` into a lamp and queues an increase for each
    /// of its children.
    pub fn turn_on_lamp(&mut self, node_id: u32) -> (r: Result<(), GraphError>)
        requires
            old(self).wf(),
        ensures
            refs_resolve(old(self).node_map()) && queue_known(old(self).node_map(), old(self).queue()) ==> queue_known(
                final(self).node_map(),
                final(self).queue(),
            ),
            final(self).wf(),
            final(self).ids() == old(self).ids(),
            counts_agree(old(self).node_map(), old(self).ids(), old(self).queue()) && no_inits(old(self).queue())
                ==> counts_agree(final(self).node_map(), final(self).ids(), final(self).queue()) && no_inits(
                final(self).queue(),
            ),
            lamp_switch(old(self).node_map(), old(self).queue(), node_id, ROCK, LAMP, NodeAction::IncreaseValue,
                r, final(self).node_map(), final(self).queue()),
    {
        self.switch_lamp(node_id, ROCK, LAMP, NodeAction::IncreaseValue)
    }

    /// Turns the lamp `node_id` into a rock and queues a decrease for each
    /// of its children.
    pub fn turn_off_lamp(&mut self, node_id: u32) -> (r: Result<(), GraphError>)
        requires
            old(self).wf(),
        ensures
            refs_resolve(old(self).node_map()) && queue_known(old(self).node_map(), old(self).queue()) ==> queue_known(
                final(self).node_map(),
                final(self).queue(),
            ),
            final(self).wf(),
            final(self).ids() == old(self).ids(),
            counts_agree(old(self).node_map(), old(self).ids(), old(self).queue()) && no_inits(old(self).queue())
                ==> counts_agree(final(self).node_map(), final(self).ids(), final(self).queue()) && no_inits(
                final(self).queue(),
            ),
            lamp_switch(old(self).node_map(), old(self).queue(), node_id, LAMP, ROCK, NodeAction::DecreaseValue,
                r, final(self).node_map(), final(self).queue()),
    {
        self.switch_lamp(node_id, LAMP, ROCK, NodeAction::DecreaseValue)
    }

    fn switch_lamp(&mut self, node_id: u32, from: u8, to: u8, a: NodeAction) -> (r: Result<(), GraphError>)
        requires
            old(self).wf(),
            (from == ROCK && to == LAMP && a == NodeAction::IncreaseValue) || (from == LAMP && to == ROCK && a
                == NodeAction::DecreaseValue),
        ensures
            refs_resolve(old(self).node_map()) && queue_known(old(self).node_map(), old(self).queue()) ==> queue_known(
                final(self).node_map(),
                final(self).queue(),
            ),
            counts_agree(old(self).node_map(), old(self).ids(), old(self).queue()) && no_inits(old(self).queue())
                ==> counts_agree(final(self).node_map(), final(self).ids(), final(self).queue()) && no_inits(
                final(self).queue(),
            ),
            final(self).wf(),
            final(self).ids() == old(self).ids(),
            final(self).ranked == old(self).ranked,
            final(self).ranks == old(self).ranks,
            final(self).base == old(self).base,
            lamp_switch(old(self).node_map(), old(self).queue(), node_id, from, to, a,
                r, final(self).node_map(), final(self).queue()),
    {
        let ghost m0 = self.nodes@;
        match self.nodes.remove(&node_id) {
            None => {
                assert(self.nodes@ =~= m0);
                Err(GraphError::UnknownNode)
            },
            Some(Node::StoringBlock(s)) => {
                self.nodes.insert(node_id, Node::StoringBlock(s));
                assert(self.nodes@ =~= m0);
                Err(GraphError::NotALogicBlock)
            },
            Some(Node::LogicBlock(mut b)) => {
                let ghost b0 = b;
                if b.get_requirements() != from {
                    self.nodes.insert(node_id, Node::LogicBlock(b));
                    assert(self.nodes@ =~= m0);
                    return Err(
                        if from == ROCK {
                            GraphError::NotARock
                        } else {
                            GraphError::NotALamp
                        },
                    );
                }
                let count = b.get_value();
                b.set_requirements(to);
                enqueue_children(&mut self.actions_queue, b.get_children(), a);
                self.nodes.insert(node_id, Node::LogicBlock(b));
                proof {
                    if counts_agree(m0, old(self).ids(), old(self).queue()) && no_inits(old(self).queue()) {
                        lemma_switch_keeps_counts(m0, old(self).ids(), old(self).queue(), node_id, to == LAMP);
                    }
                    if refs_resolve(m0) && queue_known(m0, old(self).queue()) {
                        assert(node_refs_resolve(m0, node_id));
                        let q1 = old(self).queue();
                        let cs = b0.children_view();
                        assert forall|i: int| 0 <= i < self.actions_queue@.len() implies self.nodes@.contains_key(
                            #[trigger] self.actions_queue@[i].1,
                        ) by {
                            if i < q1.len() {
                                assert(self.actions_queue@[i] == q1[i]);
                            } else {
                                assert(self.actions_queue@[i].1 == cs[i - q1.len()]);
                                assert(m0[node_id].children() == cs);
                            }
                        }
                    }
                    b0.lemma_with(0, to);
                    assert(self.nodes@ =~= m0.insert(node_id, Node::LogicBlock(b0.with_requirements(to))));
                    lemma_rewire_one(m0, node_id, Node::LogicBlock(b0.with_requirements(to)));
                    if self.ranked {
                        lemma_ranking_kept(m0, self.nodes@, self.ranks@, self.base@);
                    }
                }
                Ok(())
            },
        }
    }

    /// Announces node `node_id` to its children if it is on.
    fn init_node(&mut self, node_id: u32) -> (r: Result<(), GraphError>)
        requires
            old(self).wf(),
        ensures
            final(self).wf(),
            final(self).ids() == old(self).ids(),
            final(self).ranked == old(self).ranked,
            final(self).ranks == old(self).ranks,
            final(self).base == old(self).base,
            reports(r, final(self).node_map(), final(self).queue(),
                step(old(self).node_map(), seq![(NodeAction::InitNode, node_id)] + old(self).queue())),
    {
        let ghost q = seq![(NodeAction::InitNode, node_id)] + old(self).queue();
        assert(q.drop_first() =~= old(self).queue());
        match self.nodes.get(&node_id) {
            None => Err(GraphError::UnknownNode),
            Some(node) => {
                if node.is_on() {
                    enqueue_children(&mut self.actions_queue, node.get_children(), NodeAction::IncreaseValue);
                }
                Ok(())
            },
        }
    }

    /// Applies a change of one on parent to the logic block `node_id`, and
    /// tells its children when it turns on or off.
    fn update_logic_node_value(&mut self, node_id: u32, change_value: ChangeValue) -> (r: Result<(), GraphError>)
        requires
            old(self).wf(),
            is_logic_at(old(self).node_map(), node_id),
        ensures
            final(self).wf(),
            final(self).ids() == old(self).ids(),
            final(self).ranked == old(self).ranked,
            final(self).ranks == old(self).ranks,
            final(self).base == old(self).base,
            reports(r, final(self).node_map(), final(self).queue(),
                step(old(self).node_map(), seq![(action_of(change_value), node_id)] + old(self).queue())),
    {
        let ghost m0 = self.nodes@;
        let ghost q = seq![(action_of(change_value), node_id)] + old(self).queue();
        assert(q.drop_first() =~= old(self).queue());
        match self.nodes.remove(&node_id) {
            Some(Node::LogicBlock(mut b)) => {
                let ghost b0 = b;
                let was_on = b.is_on();
                let v = b.get_value();
                let new_value = match change_value {
                    ChangeValue::IncreaseValue => {
                        if v >= 4 {
                            self.nodes.insert(node_id, Node::LogicBlock(b));
                            assert(self.nodes@ =~= m0);
                            return Err(GraphError::CountOverflow);
                        }
                        v + 1
                    },
                    ChangeValue::DecreaseValue => {
                        if v == 0 {
                            self.nodes.insert(node_id, Node::LogicBlock(b));
                            assert(self.nodes@ =~= m0);
                            return Err(GraphError::CountUnderflow);
                        }
                        v - 1
                    },
                };
                b.set_value(new_value);
                let is_on = b.is_on();
                if is_on != was_on {
                    let action = if is_on {
                        NodeAction::IncreaseValue
                    } else {
                        NodeAction::DecreaseValue
                    };
                    enqueue_children(&mut self.actions_queue, b.get_children(), action);
                }
                self.nodes.insert(node_id, Node::LogicBlock(b));
                proof {
                    b0.lemma_with(new_value, 0);
                    assert(self.nodes@ =~= m0.insert(node_id, Node::LogicBlock(b0.with_value(new_value))));
                    lemma_rewire_one(m0, node_id, Node::LogicBlock(b0.with_value(new_value)));
                    if self.ranked {
                        lemma_ranking_kept(m0, self.nodes@, self.ranks@, self.base@);
                    }
                }
                Ok(())
            },
            _ => {
                assert(false);
                Err(GraphError::UnknownNode)
            },
        }
    }

    /// Lets the storing block `node_id` take its source's state if its
    /// button is on, tells its children when its state changes, and returns
    /// its state.
    fn update_storing_node_value(&mut self, node_id: u32) -> (r: Result<bool, GraphError>)
        requires
            old(self).wf(),
            old(self).node_map().contains_key(node_id),
            old(self).node_map()[node_id] is StoringBlock,
        ensures
            final(self).wf(),
            final(self).ids() == old(self).ids(),
            final(self).ranked == old(self).ranked,
            final(self).ranks == old(self).ranks,
            final(self).base == old(self).base,
            reports(
                match r {
                    Ok(_) => Ok::<(), GraphError>(()),
                    Err(e) => Err(e),
                },
                final(self).node_map(),
                final(self).queue(),
                step(old(self).node_map(), seq![(NodeAction::IncreaseValue, node_id)] + old(self).queue()),
            ),
            reports(
                match r {
                    Ok(_) => Ok::<(), GraphError>(()),
                    Err(e) => Err(e),
                },
                final(self).node_map(),
                final(self).queue(),
                step(old(self).node_map(), seq![(NodeAction::DecreaseValue, node_id)] + old(self).queue()),
            ),
            r matches Ok(on) ==> final(self).node_map()[node_id].spec_is_on() == on,
    {
        let ghost m0 = self.nodes@;
        let ghost q1 = seq![(NodeAction::IncreaseValue, node_id)] + old(self).queue();
        let ghost q2 = seq![(NodeAction::DecreaseValue, node_id)] + old(self).queue();
        assert(q1.drop_first() =~= old(self).queue());
        assert(q2.drop_first() =~= old(self).queue());
        let (source, button) = match self.nodes.get(&node_id) {
            Some(Node::StoringBlock(s)) => (s.source, s.button_node),
            _ => {
                return Err(GraphError::UnknownNode);
            },
        };
        let is_source_on = match self.get_logical_block(source) {
            Some(b) => b.is_on(),
            None => {
                return Err(GraphError::DanglingReference);
            },
        };
        let is_button_node_on = match self.get_logical_block(button) {
            Some(b) => b.is_on(),
            None => {
                return Err(GraphError::DanglingReference);
            },
        };
        match self.nodes.remove(&node_id) {
            Some(Node::StoringBlock(mut s)) => {
                let ghost s0 = s;
                let was_on = s.is_on;
                if is_button_node_on {
                    s.is_on = is_source_on;
                }
                if s.is_on != was_on {
                    let action = if s.is_on {
                        NodeAction::IncreaseValue
                    } else {
                        NodeAction::DecreaseValue
                    };
                    enqueue_children(&mut self.actions_queue, &s.children, action);
                }
                let now_on = s.is_on;
                let ghost ns = s;
                self.nodes.insert(node_id, Node::StoringBlock(s));
                proof {
                    assert(self.nodes@ =~= m0.insert(node_id, Node::StoringBlock(ns)));
                    lemma_rewire_one(m0, node_id, Node::StoringBlock(ns));
                    if self.ranked {
                        lemma_ranking_kept(m0, self.nodes@, self.ranks@, self.base@);
                    }
                }
                Ok(now_on)
            },
            _ => {
                assert(false);
                Err(GraphError::UnknownNode)
            },
        }
    }

    /// Applies a change of one on parent to node `node_id`.
    fn update_value(&mut self, node_id: u32, change_value: ChangeValue) -> (r: Result<(), GraphError>)
        requires
            old(self).wf(),
        ensures
            final(self).wf(),
            final(self).ids() == old(self).ids(),
            final(self).ranked == old(self).ranked,
            final(self).ranks == old(self).ranks,
            final(self).base == old(self).base,
            reports(r, final(self).node_map(), final(self).queue(),
                step(old(self).node_map(), seq![(action_of(change_value), node_id)] + old(self).queue())),
    {
        let ghost q = seq![(action_of(change_value), node_id)] + old(self).queue();
        assert(q.drop_first() =~= old(self).queue());
        match self.nodes.get(&node_id) {
            None => Err(GraphError::UnknownNode),
            Some(Node::LogicBlock(_)) => self.update_logic_node_value(node_id, change_value),
            Some(Node::StoringBlock(_)) => match self.update_storing_node_value(node_id) {
                Ok(_) => Ok(()),
                Err(e) => Err(e),
            },
        }
    }

    /// Processes the first queued action, if any.
    fn do_action(&mut self) -> (r: Result<(), GraphError>)
        requires
            old(self).wf(),
        ensures
            final(self).wf(),
            final(self).ids() == old(self).ids(),
            final(self).ranked == old(self).ranked,
            final(self).ranks == old(self).ranks,
            final(self).base == old(self).base,
            reports(r, final(self).node_map(), final(self).queue(),
                step(old(self).node_map(), old(self).queue())),
    {
        let ghost q0 = self.actions_queue@;
        match self.actions_queue.pop_front() {
            None => Ok(()),
            Some((action, node)) => {
                assert(q0 =~= seq![(action, node)] + self.actions_queue@);
                match action {
                    NodeAction::InitNode => self.init_node(node),
                    NodeAction::IncreaseValue => self.update_value(node, ChangeValue::IncreaseValue),
                    NodeAction::DecreaseValue => self.update_value(node, ChangeValue::DecreaseValue),
                }
            },
        }
    }

    /// Works out a ranking of the nodes that puts every child below its
    /// parent, unless a reference dangles or the links form a cycle.
    #[verifier::loop_isolation(false)]
    fn rank_nodes(&mut self) -> (r: Result<(), GraphError>)
        requires
            old(self).wf(),
        ensures
            final(self).wf(),
            final(self).ids() == old(self).ids(),
            final(self).node_map() == old(self).node_map(),
            final(self).queue() == old(self).queue(),
            r is Ok ==> final(self).ranked,
            r == Err::<(), GraphError>(GraphError::DanglingReference) ==> !refs_resolve(old(self).node_map()),
            r == Err::<(), GraphError>(GraphError::Cycle) ==> refs_resolve(old(self).node_map()) && !acyclic(
                old(self).node_map(),
            ),
            refs_resolve(old(self).node_map()) && acyclic(old(self).node_map()) ==> r is Ok,
            r is Err ==> r == Err::<(), GraphError>(GraphError::DanglingReference) || r == Err::<(), GraphError>(GraphError::Cycle),
    {
        let n = self.order.len();
        let ghost m = self.nodes@;
        let mut idx: usize = 0;
        while idx < n
            invariant
                self.wf(),
                n == self.order@.len(),
                m == self.nodes@,
                idx <= n,
                forall|k: int| 0 <= k < idx ==> node_refs_resolve(m, #[trigger] self.order@[k]),
            decreases n - idx,
        {
            let id = self.order[idx];
            assert(self.order@.contains(id));
            let node = match self.nodes.get(&id) {
                Some(node) => node,
                None => {
                    assert(false);
                    return Err(GraphError::DanglingReference);
                },
            };
            let children = node.get_children();
            let mut j: usize = 0;
            while j < children.len()
                invariant
                    j <= children@.len(),
                    children@ == m[id].children(),
                    m == self.nodes@,
                    forall|t: int| 0 <= t < j ==> m.contains_key(#[trigger] children@[t]),
                decreases children@.len() - j,
            {
                if !self.nodes.contains_key(&children[j]) {
                    assert(!node_refs_resolve(m, id));
                    return Err(GraphError::DanglingReference);
                }
                j = j + 1;
            }
            if let Node::StoringBlock(s) = node {
                if self.get_logical_block(s.source).is_none() || self.get_logical_block(s.button_node).is_none() {
                    assert(!node_refs_resolve(m, id));
                    return Err(GraphError::DanglingReference);
                }
            }
            idx = idx + 1;
        }
        assert(refs_resolve(m)) by {
            assert forall|id: u32| #[trigger] m.contains_key(id) implies node_refs_resolve(m, id) by {
                assert(self.order@.contains(id));
                let k = choose|k: int| 0 <= k < self.order@.len() && self.order@[k] == id;
            }
        }
        let mut widest: usize = 0;
        idx = 0;
        while idx < n
            invariant
                self.wf(),
                n == self.order@.len(),
                m == self.nodes@,
                idx <= n,
                forall|k: int| 0 <= k < idx ==> m[#[trigger] self.order@[k]].children().len() <= widest,
            decreases n - idx,
        {
            let id = self.order[idx];
            assert(self.order@.contains(id));
            if let Some(node) = self.nodes.get(&id) {
                if node.get_children().len() > widest {
                    widest = node.get_children().len();
                }
            }
            idx = idx + 1;
        }
        let mut levels: HashMap<u32, u64> = HashMap::new();
        let mut done: usize = 0;
        proof {
            lemma_unranked_none(self.order@, levels@.dom());
        }
        loop
            invariant
                self.wf(),
                n == self.order@.len(),
                m == self.nodes@,
                refs_resolve(m),
                forall|k: int| 0 <= k < n ==> m[#[trigger] self.order@[k]].children().len() <= widest,
                done + unranked(self.order@, levels@.dom()) == n,
                levels_valid(m, levels@, done as int),
            decreases unranked(self.order@, levels@.dom()),
        {
            let ghost before = unranked(self.order@, levels@.dom());
            let mut progress = false;
            idx = 0;
            while idx < n
                invariant
                    self.wf(),
                    n == self.order@.len(),
                    m == self.nodes@,
                    refs_resolve(m),
                    idx <= n,
                    done + unranked(self.order@, levels@.dom()) == n,
                    levels_valid(m, levels@, done as int),
                    progress ==> unranked(self.order@, levels@.dom()) < before,
                    !progress ==> unranked(self.order@, levels@.dom()) == before,
                    !progress ==> forall|k: int| 0 <= k < idx ==> stuck(m, levels@.dom(), #[trigger] self.order@[k]),
                decreases n - idx,
            {
                let id = self.order[idx];
                assert(self.order@.contains(id));
                if !levels.contains_key(&id) {
                    let node = match self.nodes.get(&id) {
                        Some(node) => node,
                        None => {
                            assert(false);
                            return Err(GraphError::Cycle);
                        },
                    };
                    let children = node.get_children();
                    let mut top: u64 = 0;
                    let mut all_ranked = true;
                    let mut j: usize = 0;
                    while j < children.len()
                        invariant
                            j <= children@.len(),
                            children@ == m[id].children(),
                            levels_valid(m, levels@, done as int),
                            top <= done,
                            all_ranked ==> forall|t: int| 0 <= t < j ==> levels@.contains_key(#[trigger] children@[t])
                                && levels@[children@[t]] < top,
                            !all_ranked ==> exists|t: int| 0 <= t < j && !levels@.contains_key(#[trigger] children@[t]),
                        decreases children@.len() - j,
                    {
                        match levels.get(&children[j]) {
                            Some(l) => {
                                if *l >= top {
                                    top = *l + 1;
                                }
                            },
                            None => {
                                all_ranked = false;
                            },
                        }
                        j = j + 1;
                    }
                    if all_ranked {
                        let ghost d0 = levels@.dom();
                        proof {
                            lemma_unranked_insert(self.order@, d0, id);
                        }
                        levels.insert(id, top);
                        assert(levels@.dom() =~= d0.insert(id));
                        proof {
                            lemma_unranked_nonneg(self.order@, levels@.dom());
                        }
                        done = done + 1;
                        progress = true;
                    } else {
                        assert(stuck(m, levels@.dom(), id));
                    }
                }
                idx = idx + 1;
            }
            proof {
                lemma_unranked_nonneg(self.order@, levels@.dom());
            }
            if done == n {
                break;
            }
            if !progress {
                proof {
                    lemma_unranked_witness(self.order@, levels@.dom());
                    let u = choose|u: u32| self.order@.contains(u) && !levels@.dom().contains(u);
                    assert forall|v: u32| m.contains_key(v) && !levels@.dom().contains(v) implies stuck(m, levels@.dom(), v) by {
                        assert(self.order@.contains(v));
                        let k = choose|k: int| 0 <= k < self.order@.len() && self.order@[k] == v;
                    }
                    assert(!acyclic(m)) by {
                        if acyclic(m) {
                            let rk = choose|rk: Map<u32, nat>| orders_children(m, rk);
                            lemma_no_sink(m, rk, levels@.dom(), u);
                        }
                    }
                }
                return Err(GraphError::Cycle);
            }
        }
        let ghost ranks = Map::new(|k: u32| levels@.contains_key(k), |k: u32| levels@[k] as nat);
        proof {
            let base = (widest + 1) as nat;
            lemma_unranked_zero(self.order@, levels@.dom());
            assert forall|id: u32| #[trigger] m.contains_key(id) implies node_ranked(m, ranks, base, id) by {
                assert(self.order@.contains(id));
                let k = choose|k: int| 0 <= k < self.order@.len() && self.order@[k] == id;
                assert(levels@.contains_key(self.order@[k]));
            }
            self.ranks@ = ranks;
            self.base@ = base;
        }
        self.ranked = true;
        Ok(())
    }

    /// Processes queued actions until the queue is empty or one is refused.
    pub fn do_actions(&mut self) -> (r: Result<(), GraphError>)
        requires
            old(self).wf(),
        ensures
            final(self).wf(),
            final(self).ids() == old(self).ids(),
            drained(old(self).node_map(), old(self).queue(), r, final(self).node_map(), final(self).queue()),
            counts_agree(old(self).node_map(), old(self).ids(), old(self).queue()) && r is Ok ==> counts_settled(
                final(self).node_map(),
                final(self).ids(),
            ) && counts_agree(final(self).node_map(), final(self).ids(), final(self).queue()),
    {
        if !self.ranked {
            match self.rank_nodes() {
                Ok(()) => {},
                Err(e) => {
                    return Err(e);
                },
            }
        }
        let ghost m0 = self.nodes@;
        let ghost q0 = self.actions_queue@;
        let ghost mut n: nat = 0;
        proof {
            assert(orders_children(m0, self.ranks@)) by {
                assert forall|id: u32| #[trigger] m0.contains_key(id) implies self.ranks@.contains_key(id) && forall|j: int|
                    0 <= j < m0[id].children().len() ==> self.ranks@.contains_key(#[trigger] m0[id].children()[j])
                        && self.ranks@[m0[id].children()[j]] < self.ranks@[id] by {
                    assert(node_ranked(m0, self.ranks@, self.base@, id));
                }
            }
        }
        while self.actions_queue.len() > 0
            invariant
                self.wf(),
                self.ranked,
                self.ids() == old(self).ids(),
                m0 == old(self).node_map(),
                q0 == old(self).queue(),
                acyclic(m0),
                refs_resolve(m0),
                queue_known(m0, q0) ==> queue_known(self.nodes@, self.actions_queue@),
                run(m0, q0, n) == Ok::<(Map<u32, Node>, Seq<(NodeAction, u32)>), GraphError>((self.nodes@, self.actions_queue@)),
            decreases potential(self.ranks@, self.base@, self.actions_queue@),
        {
            let ghost m1 = self.nodes@;
            let ghost q1 = self.actions_queue@;
            let r = self.do_action();
            proof {
                n = n + 1;
            }
            match r {
                Ok(()) => {},
                Err(e) => {
                    assert(e != GraphError::Cycle);
                    proof {
                        assert(refs_resolve(m1));
                        if m1.contains_key(q1[0].1) {
                            assert(node_refs_resolve(m1, q1[0].1));
                        }
                    }
                    assert(e != GraphError::DanglingReference);
                    assert(queue_known(m0, q0) ==> e != GraphError::UnknownNode);
                    return Err(e);
                },
            }
            proof {
                lemma_step_decreases(m1, q1, self.ranks@, self.base@);
                if queue_known(m0, q0) {
                    lemma_step_keeps_known(m1, q1);
                }
            }
        }
        proof {
            if counts_agree(m0, old(self).ids(), q0) {
                law_drained_counts_are_exact(m0, old(self).ids(), q0, n);
                assert(self.actions_queue@ =~= Seq::<(NodeAction, u32)>::empty());
                lemma_settled_agree(self.nodes@, self.order@);
            }
        }
        Ok(())
    }

    /// Queues an init action for every node, in insertion order, then
    /// processes the queue.
    pub fn init_graph_state(&mut self) -> (r: Result<(), GraphError>)
        requires
            old(self).wf(),
        ensures
            final(self).wf(),
            final(self).ids() == old(self).ids(),
            drained(old(self).node_map(), old(self).queue() + init_actions(old(self).ids()), r,
                final(self).node_map(), final(self).queue()),
            old(self).queue().len() == 0 && refs_resolve(old(self).node_map()) ==> r != Err::<(), GraphError>(
                GraphError::UnknownNode,
            ),
            old(self).queue().len() == 0 && (forall|l: u32|
                #[trigger] is_logic_at(old(self).node_map(), l) ==> old(self).node_map()[l]->LogicBlock_0.value() == 0)
                && r is Ok ==> counts_settled(final(self).node_map(), final(self).ids()) && counts_agree(
                final(self).node_map(),
                final(self).ids(),
                final(self).queue(),
            ),
    {
        let n = self.order.len();
        let mut i: usize = 0;
        while i < n
            invariant
                self.wf(),
                n == self.order@.len(),
                i <= n,
                self.ids() == old(self).ids(),
                self.node_map() == old(self).node_map(),
                self.queue() == old(self).queue() + init_actions(self.order@.subrange(0, i as int)),
            decreases n - i,
        {
            self.actions_queue.push_back((NodeAction::InitNode, self.order[i]));
            assert(init_actions(self.order@.subrange(0, i + 1)) =~= init_actions(self.order@.subrange(0, i as int)).push(
                (NodeAction::InitNode, self.order@[i as int]),
            ));
            i = i + 1;
        }
        assert(self.order@.subrange(0, i as int) =~= self.order@);
        proof {
            if old(self).queue().len() == 0 && (forall|l: u32|
                #[trigger] is_logic_at(old(self).node_map(), l) ==> old(self).node_map()[l]->LogicBlock_0.value() == 0) {
                assert(self.queue() =~= init_actions(self.order@));
                lemma_fresh_counts_agree(self.nodes@, self.order@);
            }
            if old(self).queue().len() == 0 {
                assert(self.queue() =~= init_actions(self.order@));
                assert forall|i: int| 0 <= i < self.queue().len() implies self.nodes@.contains_key(
                    #[trigger] self.queue()[i].1,
                ) by {
                    assert(self.queue()[i].1 == self.order@[i]);
                    assert(self.order@.contains(self.order@[i]));
                }
            }
        }
        self.do_actions()
    }

    /// Processes the queued actions.
    pub fn apply_changes(&mut self) -> (r: Result<(), GraphError>)
        requires
            old(self).wf(),
        ensures
            final(self).wf(),
            final(self).ids() == old(self).ids(),
            drained(old(self).node_map(), old(self).queue(), r, final(self).node_map(), final(self).queue()),
            counts_agree(old(self).node_map(), old(self).ids(), old(self).queue()) && r is Ok ==> counts_settled(
                final(self).node_map(),
                final(self).ids(),
            ) && counts_agree(final(self).node_map(), final(self).ids(), final(self).queue()),
    {
        self.do_actions()
    }
}

/// What processing a queue until it is empty yields: `m2` and `q2` are the
/// graph after, and `r` what was reported.
pub open spec fn drained(
    m: Map<u32, Node>,
    q: Seq<(NodeAction, u32)>,
    r: Result<(), GraphError>,
    m2: Map<u32, Node>,
    q2: Seq<(NodeAction, u32)>,
) -> bool {
    &&& r is Ok ==> q2.len() == 0 && exists|n: nat|
        run(m, q, n) == Ok::<(Map<u32, Node>, Seq<(NodeAction, u32)>), GraphError>((m2, q2))
    &&& r == Err::<(), GraphError>(GraphError::Cycle) <==> refs_resolve(m) && !acyclic(m)
    &&& r == Err::<(), GraphError>(GraphError::DanglingReference) <==> !refs_resolve(m)
    &&& refs_resolve(m) && queue_known(m, q) ==> r != Err::<(), GraphError>(GraphError::UnknownNode)
    &&& forall|e: GraphError| r == Err::<(), GraphError>(e) && e != GraphError::Cycle && e != GraphError::DanglingReference
        ==> exists|n: nat| run(m, q, n) == Err::<(Map<u32, Node>, Seq<(NodeAction, u32)>), GraphError>(e)
}

/// Every queued action names a node of `m`.
pub open spec fn queue_known(m: Map<u32, Node>, q: Seq<(NodeAction, u32)>) -> bool {
    forall|i: int| 0 <= i < q.len() ==> m.contains_key(#[trigger] q[i].1)
}

/// On a graph whose references resolve, a step keeps the nodes and queues
/// only actions for known nodes.
proof fn lemma_step_keeps_known(m: Map<u32, Node>, q: Seq<(NodeAction, u32)>)
    requires
        refs_resolve(m),
        queue_known(m, q),
        step(m, q) is Ok,
    ensures
        step(m, q)->Ok_0.0.dom() == m.dom(),
        queue_known(step(m, q)->Ok_0.0, step(m, q)->Ok_0.1),
{
    if q.len() > 0 {
        let id = q[0].1;
        let rest = q.drop_first();
        let m2 = step(m, q)->Ok_0.0;
        let q2 = step(m, q)->Ok_0.1;
        assert(m.contains_key(id));
        assert(m2.dom() =~= m.dom());
        assert(node_refs_resolve(m, id));
        let cs = m[id].children();
        assert forall|i: int| 0 <= i < q2.len() implies m2.contains_key(#[trigger] q2[i].1) by {
            if i < rest.len() {
                assert(q2[i] == q[i + 1]);
            } else {
                assert(q2[i].1 == cs[i - rest.len()]);
            }
        }
    }
}

/// `b` to the power `e`.
pub open spec fn pow(b: nat, e: nat) -> nat
    decreases e,
{
    if e == 0 {
        1
    } else {
        b * pow(b, (e - 1) as nat)
    }
}

/// What an action on `id` weighs in the termination measure.
pub open spec fn weight(ranks: Map<u32, nat>, base: nat, id: u32) -> nat {
    if ranks.contains_key(id) {
        pow(base, ranks[id])
    } else {
        0
    }
}

/// Total weight of a queue; each step lowers it.
pub open spec fn potential(ranks: Map<u32, nat>, base: nat, q: Seq<(NodeAction, u32)>) -> nat
    decreases q.len(),
{
    if q.len() == 0 {
        0
    } else {
        potential(ranks, base, q.drop_last()) + weight(ranks, base, q.last().1)
    }
}

proof fn lemma_pow_bounds(b: nat, e1: nat, e2: nat)
    requires
        b >= 1,
        e1 <= e2,
    ensures
        1 <= pow(b, e1) <= pow(b, e2),
    decreases e2,
{
    if e2 > 0 {
        let e = if e1 == e2 {
            (e1 - 1) as nat
        } else {
            e1
        };
        lemma_pow_bounds(b, e, (e2 - 1) as nat);
        assert(pow(b, (e2 - 1) as nat) <= b * pow(b, (e2 - 1) as nat)) by (nonlinear_arith)
            requires
                b >= 1,
        ;
    }
}

proof fn lemma_potential_concat(ranks: Map<u32, nat>, base: nat, q1: Seq<(NodeAction, u32)>, q2: Seq<(NodeAction, u32)>)
    ensures
        potential(ranks, base, q1 + q2) == potential(ranks, base, q1) + potential(ranks, base, q2),
    decreases q2.len(),
{
    if q2.len() == 0 {
        assert(q1 + q2 =~= q1);
    } else {
        assert((q1 + q2).drop_last() =~= q1 + q2.drop_last());
        lemma_potential_concat(ranks, base, q1, q2.drop_last());
    }
}

proof fn lemma_children_potential(ranks: Map<u32, nat>, base: nat, cs: Seq<u32>, a: NodeAction, top: nat)
    requires
        base >= 1,
        top >= 1,
        forall|j: int| 0 <= j < cs.len() ==> ranks.contains_key(#[trigger] cs[j]) && ranks[cs[j]] < top,
    ensures
        potential(ranks, base, children_actions(cs, a)) <= cs.len() * pow(base, (top - 1) as nat),
    decreases cs.len(),
{
    if cs.len() > 0 {
        let ca = children_actions(cs, a);
        assert(ca.drop_last() =~= children_actions(cs.drop_last(), a));
        lemma_children_potential(ranks, base, cs.drop_last(), a, top);
        assert(ranks.contains_key(cs[cs.len() - 1]));
        lemma_pow_bounds(base, ranks[cs[cs.len() - 1]], (top - 1) as nat);
        assert((cs.len() - 1) * pow(base, (top - 1) as nat) + pow(base, (top - 1) as nat) == cs.len() * pow(
            base,
            (top - 1) as nat,
        )) by (nonlinear_arith);
    }
}

/// On a ranked graph each step that succeeds lowers the queue's weight.
proof fn lemma_step_decreases(m: Map<u32, Node>, q: Seq<(NodeAction, u32)>, ranks: Map<u32, nat>, base: nat)
    requires
        ranking_valid(m, ranks, base),
        q.len() > 0,
        step(m, q) is Ok,
    ensures
        potential(ranks, base, step(m, q)->Ok_0.1) < potential(ranks, base, q),
{
    let id = q[0].1;
    let rest = q.drop_first();
    assert(q =~= seq![q[0]] + rest);
    lemma_potential_concat(ranks, base, seq![q[0]], rest);
    assert(seq![q[0]].drop_last() =~= Seq::<(NodeAction, u32)>::empty());
    assert(m.contains_key(id));
    assert(node_ranked(m, ranks, base, id));
    let cs = m[id].children();
    let top = ranks[id];
    lemma_pow_bounds(base, 0, top);
    if cs.len() > 0 {
        assert(ranks.contains_key(cs[0]));
        lemma_children_potential(ranks, base, cs, NodeAction::IncreaseValue, top);
        lemma_children_potential(ranks, base, cs, NodeAction::DecreaseValue, top);
        lemma_potential_concat(ranks, base, rest, children_actions(cs, NodeAction::IncreaseValue));
        lemma_potential_concat(ranks, base, rest, children_actions(cs, NodeAction::DecreaseValue));
        lemma_pow_bounds(base, 0, (top - 1) as nat);
        assert(cs.len() * pow(base, (top - 1) as nat) < pow(base, top)) by (nonlinear_arith)
            requires
                cs.len() < base,
                pow(base, top) == base * pow(base, (top - 1) as nat),
                pow(base, (top - 1) as nat) >= 1,
        {
        }
        lemma_pow_bounds(base, 0, (top - 1) as nat);
    } else {
        assert(children_actions(cs, NodeAction::IncreaseValue) =~= Seq::<(NodeAction, u32)>::empty());
        assert(children_actions(cs, NodeAction::DecreaseValue) =~= Seq::<(NodeAction, u32)>::empty());
        assert(rest + Seq::<(NodeAction, u32)>::empty() =~= rest);
    }
}

/// A storing block that a change visits while its button is on ends up in
/// the state of its source.
pub proof fn law_latch_follows_source(m: Map<u32, Node>, q: Seq<(NodeAction, u32)>)
    requires
        q.len() > 0,
        q[0].0 != NodeAction::InitNode,
        m.contains_key(q[0].1),
        m[q[0].1] is StoringBlock,
        is_logic_at(m, m[q[0].1]->StoringBlock_0.source),
        is_logic_at(m, m[q[0].1]->StoringBlock_0.button_node),
        m[m[q[0].1]->StoringBlock_0.button_node].spec_is_on(),
    ensures
        step(m, q) is Ok,
        step(m, q)->Ok_0.0[q[0].1].spec_is_on() == step(m, q)->Ok_0.0[m[q[0].1]->StoringBlock_0.source].spec_is_on(),
{
}

/// The action that carries a change.
pub open spec fn action_of(c: ChangeValue) -> NodeAction {
    match c {
        ChangeValue::IncreaseValue => NodeAction::IncreaseValue,
        ChangeValue::DecreaseValue => NodeAction::DecreaseValue,
    }
}

/// What turning `id` from mask `from` to mask `to` does: refused, with the
/// graph left as it was, on a missing node, a storing block or a block whose
/// mask is not `from`; otherwise the mask changes and each child gets action
/// `a`.
pub open spec fn lamp_switch(
    m: Map<u32, Node>,
    q: Seq<(NodeAction, u32)>,
    id: u32,
    from: u8,
    to: u8,
    a: NodeAction,
    r: Result<(), GraphError>,
    m2: Map<u32, Node>,
    q2: Seq<(NodeAction, u32)>,
) -> bool {
    if !m.contains_key(id) {
        r == Err::<(), GraphError>(GraphError::UnknownNode) && m2 == m && q2 == q
    } else {
        match m[id] {
            Node::StoringBlock(_) => r == Err::<(), GraphError>(GraphError::NotALogicBlock) && m2 == m && q2 == q,
            Node::LogicBlock(b) => if b.requirements() != from {
                &&& r == Err::<(), GraphError>(if from == ROCK {
                    GraphError::NotARock
                } else {
                    GraphError::NotALamp
                })
                &&& m2 == m
                &&& q2 == q
            } else {
                &&& r is Ok
                &&& m2 == m.insert(id, Node::LogicBlock(b.with_requirements(to)))
                &&& q2 == q + children_actions(b.children_view(), a)
            },
        }
    }
}

/// Replacing a node by one with the same wiring keeps the wiring of the map.
pub proof fn lemma_rewire_one(m: Map<u32, Node>, id: u32, n: Node)
    requires
        m.contains_key(id),
        same_node_wiring(m[id], n),
    ensures
        same_wiring(m, m.insert(id, n)),
{
    assert(m.insert(id, n).dom() =~= m.dom());
}

/// A ranking stays valid while the wiring stays the same.
pub proof fn lemma_ranking_kept(m1: Map<u32, Node>, m2: Map<u32, Node>, ranks: Map<u32, nat>, base: nat)
    requires
        ranking_valid(m1, ranks, base),
        same_wiring(m1, m2),
    ensures
        ranking_valid(m2, ranks, base),
{
    assert forall|id: u32| #[trigger] m2.contains_key(id) implies node_refs_resolve(m2, id) by {
        assert(m1.contains_key(id));
        assert(node_refs_resolve(m1, id));
        assert(same_node_wiring(m1[id], m2[id]));
        assert forall|j: int| 0 <= j < m2[id].children().len() implies m2.contains_key(
            #[trigger] m2[id].children()[j],
        ) by {
            assert(m1.contains_key(m1[id].children()[j]));
        }
        if m2[id] is StoringBlock {
            let s = m1[id]->StoringBlock_0;
            assert(m1.contains_key(s.source));
            assert(same_node_wiring(m1[s.source], m2[s.source]));
            assert(m1.contains_key(s.button_node));
            assert(same_node_wiring(m1[s.button_node], m2[s.button_node]));
        }
    }
    assert forall|id: u32| #[trigger] m2.contains_key(id) implies node_ranked(m2, ranks, base, id) by {
        assert(m1.contains_key(id));
        assert(node_ranked(m1, ranks, base, id));
        assert(same_node_wiring(m1[id], m2[id]));
    }
}

} // verus!
