//! What every change of a shutdown tree keeps: stop latches stay set, and a
//! scope that the change stops or completes has its wake-up queued.
use vstd::prelude::*;
use crate::tree::Notice;
use crate::counting::indicator;
use crate::model::{NodeView, in_subtree, subtree_guards};
use crate::propagation::{newly_stopped, stop_owed_exactly, subject, owed_on_stop};
use crate::accounting::{release_notices, chain_seq, chain_at, completes_on_release};

verus! {

/// Shutdown of scope `i` is complete in `t`: it is stopped and its subtree
/// holds no guard.
pub open spec fn completes(t: Seq<NodeView>, i: int) -> bool {
    t[i].stopped && subtree_guards(t, i) == 0
}

/// Going from `a` to `b`, no scope of `a` is un-stopped.
pub open spec fn stops_latched(a: Seq<NodeView>, b: Seq<NodeView>) -> bool {
    &&& b.len() >= a.len()
    &&& forall|i: int| 0 <= i < a.len() && a[i].stopped ==> #[trigger] b[i].stopped
}

/// Going from `a` to `b`, the wake-ups `added` include a stop wake-up for
/// every scope of `a` that became stopped and a completion wake-up for every
/// scope of `a` whose shutdown became complete.
pub open spec fn wakeups_owed(a: Seq<NodeView>, b: Seq<NodeView>, added: Seq<Notice>) -> bool {
    forall|i: int| #![trigger b[i]] 0 <= i < a.len() ==> {
        &&& !a[i].stopped && b[i].stopped ==> added.contains(Notice::Stop(i as usize))
        &&& !completes(a, i) && completes(b, i) ==> added.contains(Notice::Zero(i as usize))
    }
}

/// A change that keeps every stop latch and never empties a subtree stops and
/// completes nothing, and so owes no wake-up.
pub proof fn lemma_quiet_change(a: Seq<NodeView>, b: Seq<NodeView>, added: Seq<Notice>)
    requires
        b.len() >= a.len(),
        forall|i: int| 0 <= i < a.len() ==> #[trigger] b[i].stopped == a[i].stopped,
        forall|i: int| 0 <= i < a.len() && subtree_guards(b, i) == 0 ==> #[trigger] subtree_guards(a, i) == 0,
    ensures
        stops_latched(a, b),
        wakeups_owed(a, b, added),
{
    assert forall|i: int| 0 <= i < a.len() implies {
        &&& !a[i].stopped && #[trigger] b[i].stopped ==> added.contains(Notice::Stop(i as usize))
        &&& !completes(a, i) && completes(b, i) ==> added.contains(Notice::Zero(i as usize))
    } by {
        assert(b[i].stopped == a[i].stopped);
        if completes(b, i) {
            assert(subtree_guards(a, i) == 0);
        }
    }
}

/// A change that stops, if `signalled`, the scopes that a stop of `node`
/// newly stops and keeps every guard total owes the wake-ups of that stop.
pub proof fn lemma_stop_wakeups(
    a: Seq<NodeView>,
    b: Seq<NodeView>,
    node: int,
    signalled: bool,
    added: Seq<Notice>,
)
    requires
        a.len() <= usize::MAX,
        b.len() == a.len(),
        forall|j: int| 0 <= j < a.len() ==> #[trigger] b[j].stopped
            == (a[j].stopped || (signalled && newly_stopped(a, node, j))),
        forall|i: int| 0 <= i < a.len() ==> #[trigger] subtree_guards(b, i) == subtree_guards(a, i),
        signalled ==> stop_owed_exactly(added, a, node),
    ensures
        stops_latched(a, b),
        wakeups_owed(a, b, added),
{
    assert forall|i: int| 0 <= i < a.len() implies {
        &&& !a[i].stopped && #[trigger] b[i].stopped ==> added.contains(Notice::Stop(i as usize))
        &&& !completes(a, i) && completes(b, i) ==> added.contains(Notice::Zero(i as usize))
    } by {
        assert(subtree_guards(b, i) == subtree_guards(a, i));
        if !a[i].stopped && b[i].stopped {
            let z = Notice::Stop(i as usize);
            assert(subject(z) == i);
            assert(owed_on_stop(a, node, z));
        }
        if !completes(a, i) && completes(b, i) {
            let z = Notice::Zero(i as usize);
            assert(subject(z) == i);
            assert(owed_on_stop(a, node, z));
        }
    }
}

/// Releasing a guard of `x`, which keeps every stop latch and takes one guard
/// off the total of each scope above `x`, owes the completion wake-ups that
/// [`release_notices`] lists.
pub proof fn lemma_release_wakeups(a: Seq<NodeView>, b: Seq<NodeView>, x: int)
    requires
        a.len() <= usize::MAX,
        0 <= x < a.len(),
        b.len() == a.len(),
        forall|i: int| 0 <= i < a.len() ==> #[trigger] b[i].stopped == a[i].stopped,
        forall|i: int| #[trigger] subtree_guards(b, i) == subtree_guards(a, i)
            - indicator(in_subtree(a, x, i)),
    ensures
        stops_latched(a, b),
        wakeups_owed(a, b, release_notices(a, x)),
{
    let added = release_notices(a, x);
    let chain = chain_seq(a, x);
    let p = completes_on_release(a);
    let f = chain.filter(p);
    assert forall|i: int| 0 <= i < a.len() implies {
        &&& !a[i].stopped && #[trigger] b[i].stopped ==> added.contains(Notice::Stop(i as usize))
        &&& !completes(a, i) && completes(b, i) ==> added.contains(Notice::Zero(i as usize))
    } by {
        assert(b[i].stopped == a[i].stopped);
        if !completes(a, i) && completes(b, i) {
            assert(subtree_guards(b, i) == subtree_guards(a, i) - indicator(in_subtree(a, x, i)));
            assert(in_subtree(a, x, i));
            assert(p(i));
            let t: int = if i == x {
                0
            } else {
                let k = choose|k: int| 0 <= k < a[x].ancestors.len() && a[x].ancestors[k] == i;
                k + 1
            };
            assert(0 <= t < chain.len());
            assert(chain[t] == chain_at(a, x, t));
            assert(chain[t] == i);
            chain.lemma_filter_contains(p, t);
            assert(f.contains(i));
            let k = choose|k: int| 0 <= k < f.len() && f[k] == i;
            assert(added[k] == Notice::Zero(i as usize));
        }
    }
}

} // verus!
