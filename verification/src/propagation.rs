//! Model-level facts about stop propagation: which scopes a stop reaches, and
//! which wake-ups it owes.
use vstd::prelude::*;
use crate::tree::Notice;
use crate::model::{NodeView, tree_wf, structured, kids_consistent, live_consistent, stop_closed, collect_closed, children_listed, in_subtree, subtree_guards, parent_is, nonempty_children, live_children, unheld, lemma_guard_frame, lemma_live_frame};

verus! {

/// Every part of well-formedness that does not mention stop latches.
pub open spec fn shape_wf(nodes: Seq<NodeView>) -> bool {
    &&& structured(nodes)
    &&& kids_consistent(nodes)
    &&& live_consistent(nodes)
    &&& collect_closed(nodes)
    &&& children_listed(nodes)
}

/// Inside the subtree of `node`, a stopped scope's live descendants are
/// stopped.
pub open spec fn closed_below(nodes: Seq<NodeView>, node: int) -> bool {
    forall|k: int, j: int|
        0 <= k < nodes.len() && 0 <= j < nodes.len() && in_subtree(nodes, k, node) && nodes[k].stopped
            && #[trigger] in_subtree(nodes, j, k) && !nodes[j].collected ==> nodes[j].stopped
}

/// `b` differs from `a` in stop latches at most.
pub open spec fn latches_only(a: Seq<NodeView>, b: Seq<NodeView>) -> bool {
    &&& a.len() == b.len()
    &&& forall|j: int| 0 <= j < a.len() ==> #[trigger] b[j] == (NodeView { stopped: b[j].stopped, ..a[j] })
}

/// The scope a wake-up is for.
pub open spec fn subject(z: Notice) -> int {
    match z {
        Notice::Stop(i) => i as int,
        Notice::Zero(i) => i as int,
    }
}

/// Stopping `node` newly stops the live, not yet stopped scopes of its subtree.
pub open spec fn newly_stopped(nodes: Seq<NodeView>, node: int, i: int) -> bool {
    &&& 0 <= i < nodes.len()
    &&& in_subtree(nodes, i, node)
    &&& !nodes[i].collected
    &&& !nodes[i].stopped
}

/// The wake-ups a stop of `node` owes: a stop wake-up for every scope it newly
/// stops, and a completion wake-up for each of those whose subtree holds no
/// guard.
pub open spec fn owed_on_stop(nodes: Seq<NodeView>, node: int, z: Notice) -> bool {
    &&& newly_stopped(nodes, node, subject(z))
    &&& (z is Stop || subtree_guards(nodes, subject(z)) == 0)
}

/// The scopes reached through the first `t` entries of a child list.
pub open spec fn covered(nodes: Seq<NodeView>, list: Seq<int>, t: int, j: int) -> bool {
    exists|u: int|
        0 <= u < t && !nodes[list[u]].collected && #[trigger] in_subtree(nodes, j, list[u]) && !nodes[j].collected
}

/// `added` is exactly the set of wake-ups a stop of `node` owes, each once.
pub open spec fn stop_owed_exactly(added: Seq<Notice>, nodes: Seq<NodeView>, node: int) -> bool {
    &&& added.no_duplicates()
    &&& forall|z: Notice| #[trigger] added.contains(z) <==> owed_on_stop(nodes, node, z)
}

/// Dropping the handle of `node` signals shutdown to it: it is the last handle
/// of a root.
pub open spec fn implicit_stop(nodes: Seq<NodeView>, node: int) -> bool {
    nodes[node].handles == 1 && nodes[node].ancestors.len() == 0
}

pub proof fn lemma_wf_split(nodes: Seq<NodeView>)
    ensures
        tree_wf(nodes) <==> shape_wf(nodes) && stop_closed(nodes),
{
}

/// Changing stop latches only keeps the shape of a tree, its subtrees and its
/// guard totals.
pub proof fn lemma_latches_frame(a: Seq<NodeView>, b: Seq<NodeView>)
    requires
        latches_only(a, b),
    ensures
        shape_wf(a) ==> shape_wf(b),
        forall|i: int| #[trigger] subtree_guards(b, i) == subtree_guards(a, i),
        forall|i: int, j: int| 0 <= j < a.len() ==> #[trigger] in_subtree(b, j, i) == in_subtree(a, j, i),
{
    assert forall|j: int| 0 <= j < a.len() implies (#[trigger] a[j]).ancestors == b[j].ancestors
        && a[j].local_guards == b[j].local_guards && a[j].collected == b[j].collected by {
        assert(b[j] == (NodeView { stopped: b[j].stopped, ..a[j] }));
    }
    lemma_guard_frame(a, b);
    lemma_live_frame(a, b);
    assert forall|i: int, j: int| 0 <= j < a.len() implies #[trigger] in_subtree(b, j, i) == in_subtree(a, j, i) by {
        assert(b[j].ancestors == a[j].ancestors);
    }
    if shape_wf(a) {
        assert forall|j: int| 0 <= j < a.len() implies #[trigger] b[j] == (NodeView { stopped: b[j].stopped, ..a[j] }) by {}
        assert(structured(b)) by {
            assert forall|j: int, k: int| 0 <= j < b.len() && 0 <= k < b[j].ancestors.len() implies {
                &&& 0 <= (#[trigger] b[j].ancestors[k]) < j
                &&& b[b[j].ancestors[k]].ancestors == b[j].ancestors.skip(k + 1)
            } by {
                assert(a[j].ancestors[k] < j);
            }
        }
        assert(kids_consistent(b)) by {
            assert forall|i: int| #![trigger b[i]] 0 <= i < b.len() implies b[i].nonempty_kids == nonempty_children(b, i) by {
                assert(a[i].nonempty_kids == nonempty_children(a, i));
            }
        }
        assert(live_consistent(b)) by {
            assert forall|i: int| #![trigger b[i]] 0 <= i < b.len() implies {
                &&& b[i].live_kids == live_children(b, i)
                &&& b[i].collected <==> unheld(b[i])
            } by {
                assert(a[i].live_kids == live_children(a, i));
                assert(a[i].collected <==> unheld(a[i]));
            }
        }
        assert(collect_closed(b)) by {
            assert forall|i: int, j: int|
                0 <= i < b.len() && 0 <= j < b.len() && b[i].collected && #[trigger] in_subtree(b, j, i)
                    implies b[j].collected by {
                assert(in_subtree(a, j, i));
            }
        }
        assert(children_listed(b)) by {
            assert forall|i: int, t: int| 0 <= i < b.len() && 0 <= t < b[i].children.len() implies {
                &&& i < (#[trigger] b[i].children[t]) < b.len()
                &&& parent_is(b, b[i].children[t], i)
            } by {
                assert(a[i].children[t] < a.len());
                assert(parent_is(a, a[i].children[t], i));
            }
            assert forall|i: int, j: int| 0 <= i < b.len() && #[trigger] parent_is(b, j, i) && !b[j].collected
                implies b[i].children.contains(j) by {
                assert(parent_is(a, j, i));
            }
        }
    }
}

} // verus!
