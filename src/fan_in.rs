use vstd::prelude::*;

use crate::graph::{children_actions, init_actions, is_logic_at, run, step, NodeAction};
use crate::logic_block::{mask_bit, LAMP, ROCK};
use crate::node::Node;

verus! {

/// How many times `x` occurs in `s`.
pub open spec fn occurrences(s: Seq<u32>, x: u32) -> int
    decreases s.len(),
{
    if s.len() == 0 {
        0
    } else {
        occurrences(s.drop_last(), x) + if s.last() == x {
            1int
        } else {
            0int
        }
    }
}

/// What one queued action will do to the count of `l`.
pub open spec fn delta(a: (NodeAction, u32), l: u32) -> int {
    if a.1 != l {
        0
    } else if a.0 == NodeAction::IncreaseValue {
        1
    } else if a.0 == NodeAction::DecreaseValue {
        -1
    } else {
        0
    }
}

/// The net change that the queue will make to the count of `l`.
pub open spec fn pending(q: Seq<(NodeAction, u32)>, l: u32) -> int
    decreases q.len(),
{
    if q.len() == 0 {
        0
    } else {
        pending(q.drop_last(), l) + delta(q.last(), l)
    }
}

/// The edges from `p` into `l`, if `p` is on and has announced itself.
pub open spec fn parent_term(m: Map<u32, Node>, q: Seq<(NodeAction, u32)>, p: u32, l: u32) -> int {
    if m.contains_key(p) && m[p].spec_is_on() && !q.contains((NodeAction::InitNode, p)) {
        occurrences(m[p].children(), l)
    } else {
        0
    }
}

/// The edges into `l` from the announced nodes of `ids` that are on.
pub open spec fn on_parents(m: Map<u32, Node>, ids: Seq<u32>, q: Seq<(NodeAction, u32)>, l: u32) -> int
    decreases ids.len(),
{
    if ids.len() == 0 {
        0
    } else {
        on_parents(m, ids.drop_last(), q, l) + parent_term(m, q, ids.last(), l)
    }
}

/// Init actions come first in the queue, one per node at most.
pub open spec fn inits_first(q: Seq<(NodeAction, u32)>) -> bool {
    forall|i: int, j: int|
        0 <= i < j < q.len() && (#[trigger] q[j]).0 == NodeAction::InitNode ==> (#[trigger] q[i]).0
            == NodeAction::InitNode && q[i].1 != q[j].1
}

/// Every logic block's count, with what the queue will still do to it,
/// equals the number of edges into it from announced nodes that are on.
pub open spec fn counts_agree(m: Map<u32, Node>, ids: Seq<u32>, q: Seq<(NodeAction, u32)>) -> bool {
    &&& ids.no_duplicates()
    &&& forall|p: u32| m.contains_key(p) <==> ids.contains(p)
    &&& inits_first(q)
    &&& forall|l: u32|
        #[trigger] is_logic_at(m, l) ==> m[l]->LogicBlock_0.value() + pending(q, l) == on_parents(m, ids, q, l)
}

/// Every logic block's count is the number of edges into it from nodes that
/// are on.
pub open spec fn counts_settled(m: Map<u32, Node>, ids: Seq<u32>) -> bool {
    forall|l: u32|
        #[trigger] is_logic_at(m, l) ==> m[l]->LogicBlock_0.value() == on_parents(
            m,
            ids,
            Seq::empty(),
            l,
        )
}

/// No init action is queued.
pub open spec fn no_inits(q: Seq<(NodeAction, u32)>) -> bool {
    forall|i: int| 0 <= i < q.len() ==> (#[trigger] q[i]).0 != NodeAction::InitNode
}

proof fn lemma_pending_concat(q1: Seq<(NodeAction, u32)>, q2: Seq<(NodeAction, u32)>, l: u32)
    ensures
        pending(q1 + q2, l) == pending(q1, l) + pending(q2, l),
    decreases q2.len(),
{
    if q2.len() == 0 {
        assert(q1 + q2 =~= q1);
    } else {
        assert((q1 + q2).drop_last() =~= q1 + q2.drop_last());
        lemma_pending_concat(q1, q2.drop_last(), l);
    }
}

proof fn lemma_pending_front(q: Seq<(NodeAction, u32)>, l: u32)
    requires
        q.len() > 0,
    ensures
        pending(q, l) == delta(q[0], l) + pending(q.drop_first(), l),
{
    assert(q =~= seq![q[0]] + q.drop_first());
    lemma_pending_concat(seq![q[0]], q.drop_first(), l);
    assert(seq![q[0]].drop_last() =~= Seq::<(NodeAction, u32)>::empty());
    assert(pending(seq![q[0]], l) == pending(Seq::<(NodeAction, u32)>::empty(), l) + delta(q[0], l));
}

proof fn lemma_pending_children(cs: Seq<u32>, a: NodeAction, l: u32)
    ensures
        pending(children_actions(cs, a), l) == if a == NodeAction::IncreaseValue {
            occurrences(cs, l)
        } else if a == NodeAction::DecreaseValue {
            -occurrences(cs, l)
        } else {
            0
        },
    decreases cs.len(),
{
    if cs.len() > 0 {
        assert(children_actions(cs, a).drop_last() =~= children_actions(cs.drop_last(), a));
        lemma_pending_children(cs.drop_last(), a, l);
    } else {
        assert(children_actions(cs, a) =~= Seq::<(NodeAction, u32)>::empty());
    }
}

proof fn lemma_pending_all_inits(ids: Seq<u32>, l: u32)
    ensures
        pending(init_actions(ids), l) == 0,
    decreases ids.len(),
{
    if ids.len() > 0 {
        assert(init_actions(ids).drop_last() =~= init_actions(ids.drop_last()));
        lemma_pending_all_inits(ids.drop_last(), l);
    } else {
        assert(init_actions(ids) =~= Seq::<(NodeAction, u32)>::empty());
    }
}

/// Changing the state of one node changes the sum by its own term only.
proof fn lemma_on_parents_one(
    m: Map<u32, Node>,
    q: Seq<(NodeAction, u32)>,
    m2: Map<u32, Node>,
    q2: Seq<(NodeAction, u32)>,
    ids: Seq<u32>,
    id: u32,
    l: u32,
)
    requires
        ids.no_duplicates(),
        forall|p: u32| p != id ==> parent_term(m, q, p, l) == parent_term(m2, q2, p, l),
    ensures
        on_parents(m2, ids, q2, l) - on_parents(m, ids, q, l) == if ids.contains(id) {
            parent_term(m2, q2, id, l) - parent_term(m, q, id, l)
        } else {
            0
        },
    decreases ids.len(),
{
    if ids.len() > 0 {
        let init = ids.drop_last();
        assert(init.no_duplicates()) by {
            assert forall|i: int, j: int| 0 <= i < j < init.len() implies init[i] != init[j] by {
                assert(init[i] == ids[i] && init[j] == ids[j]);
            }
        }
        lemma_on_parents_one(m, q, m2, q2, init, id, l);
        if ids.last() == id {
            assert(!init.contains(id)) by {
                if init.contains(id) {
                    let k = choose|k: int| 0 <= k < init.len() && init[k] == id;
                    assert(ids[k] == ids[ids.len() - 1]);
                }
            }
            assert(ids.contains(id)) by {
                assert(ids[ids.len() - 1] == id);
            }
        } else {
            assert(ids.contains(id) == init.contains(id)) by {
                if ids.contains(id) {
                    let k = choose|k: int| 0 <= k < ids.len() && ids[k] == id;
                    assert(k < ids.len() - 1);
                    assert(init[k] == id);
                }
                if init.contains(id) {
                    let k = choose|k: int| 0 <= k < init.len() && init[k] == id;
                    assert(ids[k] == id);
                }
            }
        }
    }
}

proof fn lemma_on_parents_prefix_zero(m: Map<u32, Node>, ids: Seq<u32>, q: Seq<(NodeAction, u32)>, l: u32, n: int)
    requires
        0 <= n <= ids.len(),
        forall|k: int| 0 <= k < ids.len() ==> q.contains((NodeAction::InitNode, #[trigger] ids[k])),
    ensures
        on_parents(m, ids.subrange(0, n), q, l) == 0,
    decreases n,
{
    if n > 0 {
        let s = ids.subrange(0, n);
        assert(s.drop_last() =~= ids.subrange(0, n - 1));
        assert(s.last() == ids[n - 1]);
        assert(q.contains((NodeAction::InitNode, ids[n - 1])));
        lemma_on_parents_prefix_zero(m, ids, q, l, n - 1);
    } else {
        assert(ids.subrange(0, 0) =~= Seq::<u32>::empty());
    }
}

/// A fresh graph, every count zero and only its init actions queued, agrees.
pub proof fn lemma_fresh_counts_agree(m: Map<u32, Node>, ids: Seq<u32>)
    requires
        ids.no_duplicates(),
        forall|p: u32| m.contains_key(p) <==> ids.contains(p),
        forall|l: u32| #[trigger] is_logic_at(m, l) ==> m[l]->LogicBlock_0.value() == 0,
    ensures
        counts_agree(m, ids, init_actions(ids)),
{
    let q = init_actions(ids);
    assert forall|k: int| 0 <= k < ids.len() implies q.contains((NodeAction::InitNode, #[trigger] ids[k])) by {
        assert(q[k] == (NodeAction::InitNode, ids[k]));
    }
    assert(inits_first(q)) by {
        assert forall|i: int, j: int|
            0 <= i < j < q.len() && (#[trigger] q[j]).0 == NodeAction::InitNode implies (#[trigger] q[i]).0
                == NodeAction::InitNode && q[i].1 != q[j].1 by {
            assert(ids[i] != ids[j]);
        }
    }
    assert forall|l: u32| #[trigger] is_logic_at(m, l) implies m[l]->LogicBlock_0.value() + pending(q, l)
        == on_parents(m, ids, q, l) by {
        lemma_pending_all_inits(ids, l);
        lemma_on_parents_prefix_zero(m, ids, q, l, ids.len() as int);
        assert(ids.subrange(0, ids.len() as int) =~= ids);
    }
}

proof fn lemma_init_membership(q: Seq<(NodeAction, u32)>, extra: Seq<(NodeAction, u32)>, p: u32)
    requires
        q.len() > 0,
        q[0] != (NodeAction::InitNode, p),
        no_inits(extra),
    ensures
        q.contains((NodeAction::InitNode, p)) == (q.drop_first() + extra).contains((NodeAction::InitNode, p)),
{
    let x = (NodeAction::InitNode, p);
    let rest = q.drop_first();
    let r = rest + extra;
    if q.contains(x) {
        let k = choose|k: int| 0 <= k < q.len() && q[k] == x;
        assert(r[k - 1] == x);
    }
    if r.contains(x) {
        let k = choose|k: int| 0 <= k < r.len() && r[k] == x;
        if k < rest.len() {
            assert(q[k + 1] == x);
        } else {
            assert(extra[k - rest.len()] == x);
        }
    }
}

/// The bookkeeping of one processed action: if the first action's own
/// node moves its term by exactly what was queued for its children, counts
/// keep agreeing.
proof fn lemma_counts_after(
    m: Map<u32, Node>,
    ids: Seq<u32>,
    q: Seq<(NodeAction, u32)>,
    m2: Map<u32, Node>,
    q2: Seq<(NodeAction, u32)>,
    extra: Seq<(NodeAction, u32)>,
)
    requires
        counts_agree(m, ids, q),
        q.len() > 0,
        m.contains_key(q[0].1),
        m2.dom() == m.dom(),
        forall|p: u32| p != q[0].1 && #[trigger] m.contains_key(p) ==> m2[p] == m[p],
        forall|l: u32| #[trigger] is_logic_at(m2, l) == is_logic_at(m, l),
        q2 == q.drop_first() + extra,
        no_inits(extra),
        q[0].0 != NodeAction::InitNode ==> no_inits(q),
        forall|l: u32| #[trigger] parent_term(m2, q2, q[0].1, l) - parent_term(m, q, q[0].1, l) == pending(extra, l),
        forall|l: u32|
            #[trigger] is_logic_at(m, l) ==> m2[l]->LogicBlock_0.value() == m[l]->LogicBlock_0.value() + delta(
                q[0],
                l,
            ),
    ensures
        counts_agree(m2, ids, q2),
{
    let id = q[0].1;
    let rest = q.drop_first();
    assert forall|p: u32| m2.contains_key(p) <==> ids.contains(p) by {
        assert(m2.dom().contains(p) == m.dom().contains(p));
    }
    assert(inits_first(q2)) by {
        assert forall|i: int, j: int|
            0 <= i < j < q2.len() && (#[trigger] q2[j]).0 == NodeAction::InitNode implies (#[trigger] q2[i]).0
                == NodeAction::InitNode && q2[i].1 != q2[j].1 by {
            if j >= rest.len() {
                assert(q2[j] == extra[j - rest.len()]);
            }
            assert(q2[j] == q[j + 1]);
            assert(q2[i] == q[i + 1]);
        }
    }
    assert forall|l: u32| #[trigger] is_logic_at(m2, l) implies m2[l]->LogicBlock_0.value() + pending(q2, l)
        == on_parents(m2, ids, q2, l) by {
        assert(is_logic_at(m, l));
        lemma_pending_front(q, l);
        lemma_pending_concat(rest, extra, l);
        assert forall|p: u32| p != id implies parent_term(m, q, p, l) == parent_term(m2, q2, p, l) by {
            if q[0].0 == NodeAction::InitNode {
                assert(q[0] != (NodeAction::InitNode, p));
            } else {
                assert(q[0] != (NodeAction::InitNode, p));
            }
            lemma_init_membership(q, extra, p);
            if m.contains_key(p) {
                assert(m2[p] == m[p]);
            }
        }
        lemma_on_parents_one(m, q, m2, q2, ids, id, l);
        assert(ids.contains(id));
    }
}

/// One processed action keeps every count in agreement.
pub proof fn lemma_step_keeps_counts(m: Map<u32, Node>, ids: Seq<u32>, q: Seq<(NodeAction, u32)>)
    requires
        counts_agree(m, ids, q),
        step(m, q) is Ok,
    ensures
        counts_agree(step(m, q)->Ok_0.0, ids, step(m, q)->Ok_0.1),
{
    if q.len() == 0 {
        return;
    }
    let a = q[0].0;
    let id = q[0].1;
    let rest = q.drop_first();
    let m2 = step(m, q)->Ok_0.0;
    let q2 = step(m, q)->Ok_0.1;
    assert(m.contains_key(id));
    let cs = m[id].children();
    if a != NodeAction::InitNode {
        assert forall|i: int| 0 <= i < q.len() implies (#[trigger] q[i]).0 != NodeAction::InitNode by {
            if i > 0 && q[i].0 == NodeAction::InitNode {
                assert(q[0].0 == NodeAction::InitNode);
            }
        }
    }
    let empty = Seq::<(NodeAction, u32)>::empty();
    assert(rest + empty =~= rest);
    assert forall|c: NodeAction| c != NodeAction::InitNode implies no_inits(children_actions(cs, c)) by {}
    if a == NodeAction::InitNode {
        let on = m[id].spec_is_on();
        let extra = if on {
            children_actions(cs, NodeAction::IncreaseValue)
        } else {
            empty
        };
        assert(!q2.contains((NodeAction::InitNode, id))) by {
            if q2.contains((NodeAction::InitNode, id)) {
                let k = choose|k: int| 0 <= k < q2.len() && q2[k] == (NodeAction::InitNode, id);
                if k < rest.len() {
                    assert(q[k + 1] == q2[k]);
                    assert(inits_first(q));
                    assert(q[0].1 != q[k + 1].1);
                } else {
                    assert(extra[k - rest.len()] == q2[k]);
                }
            }
        }
        assert(q.contains((NodeAction::InitNode, id))) by {
            assert(q[0] == (NodeAction::InitNode, id));
        }
        assert forall|l: u32| #[trigger] parent_term(m2, q2, id, l) - parent_term(m, q, id, l) == pending(extra, l) by {
            lemma_pending_children(cs, NodeAction::IncreaseValue, l);
        }
        lemma_counts_after(m, ids, q, m2, q2, extra);
    } else {
        match m[id] {
            Node::LogicBlock(b) => {
                let v = if a == NodeAction::IncreaseValue {
                    (b.value() + 1) as u8
                } else {
                    (b.value() - 1) as u8
                };
                let nb = b.with_value(v);
                b.lemma_with(v, 0);
                let changed = nb.spec_is_on() != b.spec_is_on();
                let act = if nb.spec_is_on() {
                    NodeAction::IncreaseValue
                } else {
                    NodeAction::DecreaseValue
                };
                let extra = if changed {
                    children_actions(cs, act)
                } else {
                    empty
                };
                assert(m2 == m.insert(id, Node::LogicBlock(nb)));
                assert(q2 == rest + extra);
                assert(m2.dom() =~= m.dom());
                assert(no_inits(q2)) by {
                    assert forall|i: int| 0 <= i < q2.len() implies (#[trigger] q2[i]).0 != NodeAction::InitNode by {
                        if i < rest.len() {
                            assert(q2[i] == q[i + 1]);
                        } else {
                            assert(q2[i] == extra[i - rest.len()]);
                        }
                    }
                }
                assert forall|l: u32| #[trigger] parent_term(m2, q2, id, l) - parent_term(m, q, id, l) == pending(extra, l) by {
                    lemma_pending_children(cs, act, l);
                    assert(!q.contains((NodeAction::InitNode, id)));
                    assert(!q2.contains((NodeAction::InitNode, id)));
                }
                assert forall|l: u32| #[trigger] is_logic_at(m2, l) == is_logic_at(m, l) by {}
                if a == NodeAction::IncreaseValue {
                    assert(b.value() < 4);
                    assert(nb.value() == b.value() + 1);
                } else {
                    assert(b.value() > 0);
                    assert(nb.value() == b.value() - 1);
                }
                assert forall|l: u32| #[trigger] is_logic_at(m, l) implies m2[l]->LogicBlock_0.value()
                    == m[l]->LogicBlock_0.value() + delta(q[0], l) by {
                    if l == id {
                        assert(m2[l] == Node::LogicBlock(nb));
                    }
                }
                lemma_counts_after(m, ids, q, m2, q2, extra);
            },
            Node::StoringBlock(s) => {
                let now_on = m2[id].spec_is_on();
                let changed = now_on != s.is_on;
                let act = if now_on {
                    NodeAction::IncreaseValue
                } else {
                    NodeAction::DecreaseValue
                };
                let extra = if changed {
                    children_actions(cs, act)
                } else {
                    empty
                };
                assert(q2 == rest + extra);
                assert(m2.dom() =~= m.dom());
                assert(no_inits(q2)) by {
                    assert forall|i: int| 0 <= i < q2.len() implies (#[trigger] q2[i]).0 != NodeAction::InitNode by {
                        if i < rest.len() {
                            assert(q2[i] == q[i + 1]);
                        } else {
                            assert(q2[i] == extra[i - rest.len()]);
                        }
                    }
                }
                assert forall|l: u32| #[trigger] parent_term(m2, q2, id, l) - parent_term(m, q, id, l) == pending(extra, l) by {
                    lemma_pending_children(cs, act, l);
                    assert(!q.contains((NodeAction::InitNode, id)));
                    assert(!q2.contains((NodeAction::InitNode, id)));
                }
                assert forall|l: u32| #[trigger] is_logic_at(m2, l) == is_logic_at(m, l) by {}
                assert forall|l: u32| #[trigger] is_logic_at(m, l) implies m2[l]->LogicBlock_0.value()
                    == m[l]->LogicBlock_0.value() + delta(q[0], l) by {
                    assert(l != id);
                }
                lemma_counts_after(m, ids, q, m2, q2, extra);
            },
        }
    }
}

/// Any number of processed actions keeps every count in agreement.
pub proof fn lemma_run_keeps_counts(m: Map<u32, Node>, ids: Seq<u32>, q: Seq<(NodeAction, u32)>, n: nat)
    requires
        counts_agree(m, ids, q),
        run(m, q, n) is Ok,
    ensures
        counts_agree(run(m, q, n)->Ok_0.0, ids, run(m, q, n)->Ok_0.1),
    decreases n,
{
    if n > 0 {
        let prev = run(m, q, (n - 1) as nat);
        assert(prev is Ok);
        lemma_run_keeps_counts(m, ids, q, (n - 1) as nat);
        lemma_step_keeps_counts(prev->Ok_0.0, ids, prev->Ok_0.1);
    }
}

/// Once the queue has been drained from a state whose counts agree, every
/// logic block counts exactly the edges that reach it from nodes that are on,
/// and is on iff the mask bit at that count is set.
pub proof fn law_drained_counts_are_exact(m: Map<u32, Node>, ids: Seq<u32>, q: Seq<(NodeAction, u32)>, n: nat)
    requires
        counts_agree(m, ids, q),
        run(m, q, n) is Ok,
        run(m, q, n)->Ok_0.1.len() == 0,
    ensures
        counts_settled(run(m, q, n)->Ok_0.0, ids),
        forall|l: u32| #[trigger] is_logic_at(run(m, q, n)->Ok_0.0, l) ==> run(m, q, n)->Ok_0.0[l].spec_is_on()
            == mask_bit(
            run(m, q, n)->Ok_0.0[l]->LogicBlock_0.requirements(),
            run(m, q, n)->Ok_0.0[l]->LogicBlock_0.value(),
        ),
{
    lemma_run_keeps_counts(m, ids, q, n);
    let m2 = run(m, q, n)->Ok_0.0;
    let q2 = run(m, q, n)->Ok_0.1;
    assert(q2 =~= Seq::<(NodeAction, u32)>::empty());
}

/// Counts that are exact agree with an empty queue.
pub proof fn lemma_settled_agree(m: Map<u32, Node>, ids: Seq<u32>)
    requires
        counts_settled(m, ids),
        ids.no_duplicates(),
        forall|p: u32| m.contains_key(p) <==> ids.contains(p),
    ensures
        counts_agree(m, ids, Seq::empty()),
{
}

/// Turning a rock into a lamp, or a lamp into a rock, and queuing the
/// matching action for its children keeps counts in agreement.
pub proof fn lemma_switch_keeps_counts(
    m: Map<u32, Node>,
    ids: Seq<u32>,
    q: Seq<(NodeAction, u32)>,
    id: u32,
    to_lamp: bool,
)
    requires
        counts_agree(m, ids, q),
        no_inits(q),
        is_logic_at(m, id),
        m[id]->LogicBlock_0.value() < 5,
        m[id]->LogicBlock_0.requirements() == if to_lamp { ROCK } else { LAMP },
    ensures
        ({
            let b = m[id]->LogicBlock_0;
            let m2 = m.insert(id, Node::LogicBlock(b.with_requirements(if to_lamp { LAMP } else { ROCK })));
            let q2 = q + children_actions(
                b.children_view(),
                if to_lamp {
                    NodeAction::IncreaseValue
                } else {
                    NodeAction::DecreaseValue
                },
            );
            counts_agree(m2, ids, q2) && no_inits(q2)
        }),
{
    let b = m[id]->LogicBlock_0;
    let to = if to_lamp { LAMP } else { ROCK };
    let act = if to_lamp { NodeAction::IncreaseValue } else { NodeAction::DecreaseValue };
    let nb = b.with_requirements(to);
    b.lemma_with(0, to);
    let m2 = m.insert(id, Node::LogicBlock(nb));
    let cs = b.children_view();
    let extra = children_actions(cs, act);
    let q2 = q + extra;
    let v = b.value();
    assert(v < 5 ==> mask_bit(31u8, v)) by (bit_vector);
    assert(!mask_bit(0u8, v)) by (bit_vector);
    assert(no_inits(q2)) by {
        assert forall|i: int| 0 <= i < q2.len() implies (#[trigger] q2[i]).0 != NodeAction::InitNode by {
            if i < q.len() {
                assert(q2[i] == q[i]);
            } else {
                assert(q2[i] == extra[i - q.len()]);
            }
        }
    }
    assert forall|p: u32| !q2.contains((NodeAction::InitNode, p)) && !q.contains((NodeAction::InitNode, p)) by {
        if q2.contains((NodeAction::InitNode, p)) {
            let k = choose|k: int| 0 <= k < q2.len() && q2[k] == (NodeAction::InitNode, p);
        }
        if q.contains((NodeAction::InitNode, p)) {
            let k = choose|k: int| 0 <= k < q.len() && q[k] == (NodeAction::InitNode, p);
        }
    }
    assert(m2.dom() =~= m.dom());
    assert forall|p: u32| m2.contains_key(p) <==> ids.contains(p) by {
        assert(m2.dom().contains(p) == m.dom().contains(p));
    }
    assert(inits_first(q2));
    assert forall|l: u32| #[trigger] is_logic_at(m2, l) implies m2[l]->LogicBlock_0.value() + pending(q2, l)
        == on_parents(m2, ids, q2, l) by {
        assert(is_logic_at(m, l));
        lemma_pending_concat(q, extra, l);
        lemma_pending_children(cs, act, l);
        assert forall|p: u32| p != id implies parent_term(m, q, p, l) == parent_term(m2, q2, p, l) by {
            if m.contains_key(p) {
                assert(m2[p] == m[p]);
            }
        }
        lemma_on_parents_one(m, q, m2, q2, ids, id, l);
        assert(ids.contains(id));
        if l == id {
            assert(m2[l] == Node::LogicBlock(nb));
        }
    }
}

} // verus!
