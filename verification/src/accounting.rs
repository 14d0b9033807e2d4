//! Model-level facts about guard accounting: how a change of one scope's own
//! guards moves every subtree total along its ancestor chain, and which
//! nonempty-child counts that change has to move.
use vstd::prelude::*;
use crate::tree::Notice;
use crate::counting::{indicator, lemma_count_one_diff, lemma_count_same, lemma_sum_one_diff};
use crate::model::{
    NodeView, tree_wf, kids_consistent, live_consistent, stop_closed, collect_closed, children_listed,
    live_children, live_child_pred, unheld, parent_is, in_subtree, subtree_weight, subtree_guards, nonempty_child_pred,
    nonempty_children, structured, lemma_path_child, lemma_subtree_guards_monotone,
    lemma_ancestors_decrease, lemma_subtree_order,
};

verus! {

/// The `t`-th scope of the chain from `x` up to its root: `x` itself, then its
/// parent, grandparent, and so on.
pub open spec fn chain_at(nodes: Seq<NodeView>, x: int, t: int) -> int {
    if t == 0 { x } else { nodes[x].ancestors[t - 1] }
}

/// Scope `i` is the ancestor of `x` at position `t` and the next scope down
/// the chain has the given subtree total.
pub open spec fn ancestor_above(nodes: Seq<NodeView>, x: int, i: int, total: nat) -> bool {
    exists|t: int|
        0 <= t < nodes[x].ancestors.len() && nodes[x].ancestors[t] == i
            && #[trigger] subtree_guards(nodes, chain_at(nodes, x, t)) == total
}

/// `b` is `a` with the own guards of `x` moved by `delta`; nothing else that a
/// subtree total depends on differs.
pub open spec fn locals_moved(a: Seq<NodeView>, b: Seq<NodeView>, x: int, delta: int) -> bool {
    &&& a.len() == b.len()
    &&& 0 <= x < a.len()
    &&& b[x].local_guards == a[x].local_guards + delta
    &&& forall|j: int| 0 <= j < a.len() ==> (#[trigger] b[j]).ancestors == a[j].ancestors
    &&& forall|j: int| 0 <= j < a.len() && j != x ==> (#[trigger] b[j]).local_guards == a[j].local_guards
}

/// `nodes` with the own guards of `x` moved by `delta`.
pub open spec fn with_local(nodes: Seq<NodeView>, x: int, delta: int) -> Seq<NodeView> {
    nodes.update(x, NodeView { local_guards: (nodes[x].local_guards + delta) as nat, ..nodes[x] })
}

/// `nodes` with the nonempty-child count of the first `u` ancestors of `x`
/// moved by `delta`.
pub open spec fn kids_bumped(nodes: Seq<NodeView>, x: int, u: int, delta: int) -> Seq<NodeView> {
    Seq::new(
        nodes.len(),
        |j: int|
            if nodes[x].ancestors.take(u).contains(j) {
                NodeView { nonempty_kids: (nodes[j].nonempty_kids + delta) as nat, ..nodes[j] }
            } else {
                nodes[j]
            },
    )
}

/// The walk up from `x` stops after `u` ancestors exactly when the chain
/// scopes below the updated ancestors are those whose total sat at `edge`.
pub open spec fn walk_matches(nodes: Seq<NodeView>, x: int, u: int, edge: nat) -> bool {
    &&& 0 <= u <= nodes[x].ancestors.len()
    &&& forall|t: int|
        0 <= t < nodes[x].ancestors.len() ==> (t < u <==> #[trigger] subtree_guards(nodes, chain_at(nodes, x, t)) == edge)
}

/// Every part of well-formedness, except that the scope `x` may have been
/// left unheld without being collected.
pub open spec fn tree_wf_except(nodes: Seq<NodeView>, x: int) -> bool {
    &&& structured(nodes)
    &&& kids_consistent(nodes)
    &&& forall|i: int| #![trigger nodes[i]] 0 <= i < nodes.len() ==> {
        &&& nodes[i].live_kids == live_children(nodes, i)
        &&& nodes[i].collected ==> unheld(nodes[i])
        &&& i != x ==> (unheld(nodes[i]) ==> nodes[i].collected)
    }
    &&& stop_closed(nodes)
    &&& collect_closed(nodes)
    &&& children_listed(nodes)
}

/// After the walk, the nonempty-child counts are right again: moving the own
/// guards of `x` by one and the counts of the ancestors whose chain child
/// crossed the `edge` keeps a tree well formed, but for `x` perhaps being
/// left unheld by a decrease.
pub proof fn lemma_guard_walk_wf(a: Seq<NodeView>, x: int, delta: int, u: int)
    requires
        tree_wf(a),
        0 <= x < a.len(),
        delta == 1 ==> !a[x].collected,
        delta == 1 || (delta == -1 && a[x].local_guards >= 1),
        walk_matches(a, x, u, if delta == 1 { 0 } else { 1 }),
    ensures
        tree_wf_except(kids_bumped(with_local(a, x, delta), x, u, delta), x),
        delta == 1 ==> tree_wf(kids_bumped(with_local(a, x, delta), x, u, delta)),
{
    let edge: nat = if delta == 1 { 0 } else { 1 };
    let b = with_local(a, x, delta);
    let m = kids_bumped(b, x, u, delta);
    let anc = a[x].ancestors;
    assert(b[x].ancestors == anc);
    assert(locals_moved(a, b, x, delta));
    lemma_kid_shift(a, b, x, delta);
    assert forall|j: int| 0 <= j < a.len() implies (#[trigger] m[j]).ancestors == b[j].ancestors
        && m[j].local_guards == b[j].local_guards && m[j].collected == a[j].collected
        && m[j].stopped == a[j].stopped && m[j].children == a[j].children
        && m[j].handles == a[j].handles && m[j].pins == a[j].pins && m[j].live_kids == a[j].live_kids
        && b[j].ancestors == a[j].ancestors by {}
    crate::model::lemma_guard_frame(b, m);
    crate::model::lemma_live_frame(a, m);
    assert forall|i: int| 0 <= i < a.len() implies (anc.take(u).contains(i) <==> #[trigger] ancestor_above(a, x, i, edge)) by {
        if anc.take(u).contains(i) {
            let t = choose|t: int| 0 <= t < u && anc.take(u)[t] == i;
            assert(anc[t] == i);
            assert(subtree_guards(a, chain_at(a, x, t)) == edge);
        }
        if ancestor_above(a, x, i, edge) {
            let t = choose|t: int|
                0 <= t < anc.len() && anc[t] == i && #[trigger] subtree_guards(a, chain_at(a, x, t)) == edge;
            assert(t < u);
            assert(anc.take(u)[t] == i);
        }
    }
    assert(structured(m)) by {
        assert forall|j: int, k: int| 0 <= j < m.len() && 0 <= k < m[j].ancestors.len() implies {
            &&& 0 <= (#[trigger] m[j].ancestors[k]) < j
            &&& m[m[j].ancestors[k]].ancestors == m[j].ancestors.skip(k + 1)
        } by {
            assert(a[j].ancestors[k] < j);
        }
    }
    assert(kids_consistent(m)) by {
        assert forall|i: int| #![trigger m[i]] 0 <= i < m.len() implies m[i].nonempty_kids == nonempty_children(m, i) by {
            assert(a[i].nonempty_kids == nonempty_children(a, i));
            assert(b[i].nonempty_kids == a[i].nonempty_kids);
            if delta == -1 && ancestor_above(a, x, i, edge) {
                assert(nonempty_children(b, i) == nonempty_children(a, i) - 1);
            }
        }
    }
    assert forall|i: int| #![trigger m[i]] 0 <= i < m.len() implies {
        &&& m[i].live_kids == live_children(m, i)
        &&& m[i].collected ==> unheld(m[i])
        &&& i != x ==> (unheld(m[i]) ==> m[i].collected)
    } by {
        assert(a[i].live_kids == live_children(a, i));
        assert(a[i].collected <==> unheld(a[i]));
    }
    assert(stop_closed(m)) by {
        assert forall|i: int, j: int|
            0 <= i < m.len() && 0 <= j < m.len() && m[i].stopped && #[trigger] in_subtree(m, j, i)
                && !m[j].collected implies m[j].stopped by {
            assert(in_subtree(a, j, i));
        }
    }
    assert(collect_closed(m)) by {
        assert forall|i: int, j: int|
            0 <= i < m.len() && 0 <= j < m.len() && m[i].collected && #[trigger] in_subtree(m, j, i)
                implies m[j].collected by {
            assert(in_subtree(a, j, i));
        }
    }
    assert(children_listed(m)) by {
        assert forall|i: int, t: int| 0 <= i < m.len() && 0 <= t < m[i].children.len() implies {
            &&& i < (#[trigger] m[i].children[t]) < m.len()
            &&& parent_is(m, m[i].children[t], i)
        } by {
            assert(a[i].children[t] < a.len());
            assert(parent_is(a, a[i].children[t], i));
        }
        assert forall|i: int, j: int| 0 <= i < m.len() && #[trigger] parent_is(m, j, i) && !m[j].collected
            implies m[i].children.contains(j) by {
            assert(parent_is(a, j, i));
        }
    }
    if delta == 1 {
        assert(live_consistent(m)) by {
            assert forall|i: int| #![trigger m[i]] 0 <= i < m.len() implies {
                &&& m[i].live_kids == live_children(m, i)
                &&& m[i].collected <==> unheld(m[i])
            } by {
                assert(a[i].collected <==> unheld(a[i]));
            }
        }
    }
}

/// The chain from `x` up to its root: `x`, its parent, ..., the root.
pub open spec fn chain_seq(nodes: Seq<NodeView>, x: int) -> Seq<int> {
    Seq::new(nodes[x].ancestors.len() + 1, |t: int| chain_at(nodes, x, t))
}

/// A scope whose subtree holds exactly one guard and that is stopped: the
/// release of a guard below it completes it.
pub open spec fn completes_on_release(nodes: Seq<NodeView>) -> spec_fn(int) -> bool {
    |i: int| subtree_guards(nodes, i) == 1 && nodes[i].stopped
}

/// The completion wake-ups owed when a guard of `x` is released: one for each
/// stopped scope of the chain above `x` whose subtree held that guard only,
/// in chain order.
pub open spec fn release_notices(nodes: Seq<NodeView>, x: int) -> Seq<Notice> {
    chain_seq(nodes, x).filter(completes_on_release(nodes)).map_values(|i: int| Notice::Zero(i as usize))
}

/// Filtering a sequence whose tail from `k` on fails the predicate gives the
/// same as filtering its first `k` elements.
pub proof fn lemma_filter_prefix<A>(s: Seq<A>, p: spec_fn(A) -> bool, k: int)
    requires
        0 <= k <= s.len(),
        forall|i: int| k <= i < s.len() ==> !p(#[trigger] s[i]),
    ensures
        s.filter(p) == s.take(k).filter(p),
    decreases s.len() - k,
{
    if k < s.len() {
        lemma_filter_prefix(s, p, k + 1);
        assert(s.take(k + 1) =~= s.take(k).push(s[k]));
        s.take(k).lemma_filter_push(s[k], p);
    } else {
        assert(s.take(k) =~= s);
    }
}

/// `nodes` with `x` collected and its parent, if any, counting one live child
/// less.
pub open spec fn collect_one(nodes: Seq<NodeView>, x: int) -> Seq<NodeView> {
    let m = nodes.update(x, NodeView { collected: true, ..nodes[x] });
    if nodes[x].ancestors.len() > 0 {
        let p = nodes[x].ancestors[0];
        m.update(p, NodeView { live_kids: (m[p].live_kids - 1) as nat, ..m[p] })
    } else {
        m
    }
}

/// Collecting an unheld scope keeps the tree well formed but for its parent,
/// which may have been left unheld in turn.
pub proof fn lemma_collect_step(a: Seq<NodeView>, x: int)
    requires
        tree_wf_except(a, x),
        0 <= x < a.len(),
        !a[x].collected,
        unheld(a[x]),
    ensures
        a[x].ancestors.len() > 0 ==> a[x].ancestors[0] != x && a[a[x].ancestors[0]].live_kids >= 1
            && tree_wf_except(collect_one(a, x), a[x].ancestors[0]),
        a[x].ancestors.len() == 0 ==> tree_wf(collect_one(a, x)),
{
    let m = collect_one(a, x);
    let n = a.len() as int;
    let has_parent = a[x].ancestors.len() > 0;
    let p = if has_parent { a[x].ancestors[0] } else { -1 };
    if has_parent {
        assert(a[x].ancestors[0] < x);
    }
    assert forall|j: int| 0 <= j < n implies (#[trigger] m[j]).ancestors == a[j].ancestors
        && m[j].local_guards == a[j].local_guards && m[j].stopped == a[j].stopped
        && m[j].children == a[j].children && m[j].handles == a[j].handles && m[j].pins == a[j].pins
        && m[j].nonempty_kids == a[j].nonempty_kids
        && (j != x ==> m[j].collected == a[j].collected)
        && (j != p ==> m[j].live_kids == a[j].live_kids) by {}
    assert(m[x].collected);
    crate::model::lemma_guard_frame(a, m);
    // live children: only the parent loses one
    let lx = live_child_pred(a, x);
    assert(a[x].live_kids == live_children(a, x));
    crate::counting::lemma_count_zero(lx, n);
    assert forall|i: int| 0 <= i < n implies #[trigger] live_children(m, i) == live_children(a, i) - (if i == p { 1int } else { 0int }) by {
        let pa = live_child_pred(a, i);
        let pm = live_child_pred(m, i);
        assert forall|j: int| 0 <= j < n && j != x implies #[trigger] pa(j) == pm(j) by {}
        lemma_count_one_diff(pa, pm, n, x);
    }
    assert(structured(m)) by {
        assert forall|j: int, k: int| 0 <= j < m.len() && 0 <= k < m[j].ancestors.len() implies {
            &&& 0 <= (#[trigger] m[j].ancestors[k]) < j
            &&& m[m[j].ancestors[k]].ancestors == m[j].ancestors.skip(k + 1)
        } by {
            assert(a[j].ancestors[k] < j);
        }
    }
    assert(kids_consistent(m)) by {
        assert forall|i: int| #![trigger m[i]] 0 <= i < m.len() implies m[i].nonempty_kids == nonempty_children(m, i) by {
            assert(a[i].nonempty_kids == nonempty_children(a, i));
        }
    }
    assert forall|i: int| #![trigger m[i]] 0 <= i < m.len() implies {
        &&& m[i].live_kids == live_children(m, i)
        &&& m[i].collected ==> unheld(m[i])
        &&& i != p ==> (unheld(m[i]) ==> m[i].collected)
    } by {
        assert(a[i].live_kids == live_children(a, i));
        if i == p {
            // the parent was live: otherwise x, below it, would be collected
            if a[p].collected {
                assert(in_subtree(a, x, p)) by {
                    assert(a[x].ancestors[0] == p);
                }
            }
            assert(parent_is(a, x, p));
            assert(lx(x) == false);
            let pp = live_child_pred(a, p);
            assert(pp(x));
            crate::counting::lemma_count_zero(pp, n);
        }
    }
    assert(stop_closed(m)) by {
        assert forall|i: int, j: int|
            0 <= i < m.len() && 0 <= j < m.len() && m[i].stopped && #[trigger] in_subtree(m, j, i)
                && !m[j].collected implies m[j].stopped by {
            assert(in_subtree(a, j, i));
        }
    }
    assert(collect_closed(m)) by {
        assert forall|i: int, j: int|
            0 <= i < m.len() && 0 <= j < m.len() && m[i].collected && #[trigger] in_subtree(m, j, i)
                implies m[j].collected by {
            assert(in_subtree(a, j, i));
            if i == x && j != x {
                let c = crate::model::lemma_path_child(a, j, x);
                assert(!lx(c));
                assert(a[c].collected);
            }
        }
    }
    assert(children_listed(m)) by {
        assert forall|i: int, t: int| 0 <= i < m.len() && 0 <= t < m[i].children.len() implies {
            &&& i < (#[trigger] m[i].children[t]) < m.len()
            &&& parent_is(m, m[i].children[t], i)
        } by {
            assert(a[i].children[t] < a.len());
            assert(parent_is(a, a[i].children[t], i));
        }
        assert forall|i: int, j: int| 0 <= i < m.len() && #[trigger] parent_is(m, j, i) && !m[j].collected
            implies m[i].children.contains(j) by {
            assert(parent_is(a, j, i));
        }
    }
    if has_parent {
        assert(a[p].live_kids >= 1) by {
            let pp = live_child_pred(a, p);
            assert(parent_is(a, x, p));
            assert(pp(x));
            crate::counting::lemma_count_zero(pp, n);
            assert(a[p].live_kids == live_children(a, p));
        }
    } else {
        assert(live_consistent(m)) by {
            assert forall|i: int| #![trigger m[i]] 0 <= i < m.len() implies {
                &&& m[i].live_kids == live_children(m, i)
                &&& m[i].collected <==> unheld(m[i])
            } by {
            }
        }
    }
}

/// `b` is `a` with the handle and waiter counts of `x` changed, nothing else.
pub open spec fn holds_only(a: Seq<NodeView>, b: Seq<NodeView>, x: int) -> bool {
    &&& a.len() == b.len()
    &&& 0 <= x < a.len()
    &&& forall|j: int| 0 <= j < a.len() && j != x ==> #[trigger] b[j] == a[j]
    &&& b[x] == (NodeView { handles: b[x].handles, pins: b[x].pins, ..a[x] })
}

/// Changing what holds one scope keeps the tree well formed but for that scope
/// perhaps being left unheld; if it is still held and was live, the tree stays
/// well formed.
pub proof fn lemma_holds_frame(a: Seq<NodeView>, b: Seq<NodeView>, x: int)
    requires
        tree_wf(a),
        holds_only(a, b, x),
        !a[x].collected,
    ensures
        tree_wf_except(b, x),
        !unheld(b[x]) ==> tree_wf(b),
{
    assert forall|j: int| 0 <= j < a.len() implies (#[trigger] b[j]).ancestors == a[j].ancestors
        && b[j].local_guards == a[j].local_guards && b[j].collected == a[j].collected
        && b[j].stopped == a[j].stopped && b[j].children == a[j].children
        && b[j].nonempty_kids == a[j].nonempty_kids && b[j].live_kids == a[j].live_kids by {
        if j == x {
            assert(b[x] == (NodeView { handles: b[x].handles, pins: b[x].pins, ..a[x] }));
        }
    }
    crate::model::lemma_guard_frame(a, b);
    crate::model::lemma_live_frame(a, b);
    assert(structured(b)) by {
        assert forall|j: int, k: int| 0 <= j < b.len() && 0 <= k < b[j].ancestors.len() implies {
            &&& 0 <= (#[trigger] b[j].ancestors[k]) < j
            &&& b[b[j].ancestors[k]].ancestors == b[j].ancestors.skip(k + 1)
        } by {
            assert(a[j].ancestors[k] < j);
        }
    }
    assert(kids_consistent(b)) by {
        assert forall|i: int| #![trigger b[i]] 0 <= i < b.len() implies b[i].nonempty_kids == nonempty_children(b, i) by {
            assert(a[i].nonempty_kids == nonempty_children(a, i));
        }
    }
    assert forall|i: int| #![trigger b[i]] 0 <= i < b.len() implies {
        &&& b[i].live_kids == live_children(b, i)
        &&& b[i].collected ==> unheld(b[i])
        &&& i != x ==> (unheld(b[i]) ==> b[i].collected)
    } by {
        assert(a[i].live_kids == live_children(a, i));
        assert(a[i].collected <==> unheld(a[i]));
    }
    assert(stop_closed(b)) by {
        assert forall|i: int, j: int|
            0 <= i < b.len() && 0 <= j < b.len() && b[i].stopped && #[trigger] in_subtree(b, j, i)
                && !b[j].collected implies b[j].stopped by {
            assert(in_subtree(a, j, i));
        }
    }
    assert(collect_closed(b)) by {
        assert forall|i: int, j: int|
            0 <= i < b.len() && 0 <= j < b.len() && b[i].collected && #[trigger] in_subtree(b, j, i)
                implies b[j].collected by {
            assert(in_subtree(a, j, i));
        }
    }
    assert(children_listed(b)) by {
        assert forall|i: int, t: int| 0 <= i < b.len() && 0 <= t < b[i].children.len() implies {
            &&& i < (#[trigger] b[i].children[t]) < b.len()
            &&& parent_is(b, b[i].children[t], i)
        } by {
            assert(a[i].children[t] < a.len());
            assert(parent_is(a, a[i].children[t], i));
        }
        assert forall|i: int, j: int| 0 <= i < b.len() && #[trigger] parent_is(b, j, i) && !b[j].collected
            implies b[i].children.contains(j) by {
            assert(parent_is(a, j, i));
        }
    }
    if !unheld(b[x]) {
        assert(live_consistent(b)) by {
            assert forall|i: int| #![trigger b[i]] 0 <= i < b.len() implies {
                &&& b[i].live_kids == live_children(b, i)
                &&& b[i].collected <==> unheld(b[i])
            } by {
                assert(a[i].collected <==> unheld(a[i]));
            }
        }
    }
}

/// Along the chain above `x`, each scope is the parent of the one below it,
/// and every scope of the chain holds `x` in its subtree.
pub proof fn lemma_chain(nodes: Seq<NodeView>, x: int, t: int)
    requires
        structured(nodes),
        0 <= x < nodes.len(),
        0 <= t <= nodes[x].ancestors.len(),
    ensures
        0 <= chain_at(nodes, x, t) <= x,
        in_subtree(nodes, x, chain_at(nodes, x, t)),
        t < nodes[x].ancestors.len() ==> parent_is(nodes, chain_at(nodes, x, t), nodes[x].ancestors[t]),
{
    let a = nodes[x].ancestors;
    if t > 0 {
        assert(a[t - 1] < x);
        assert(a.contains(a[t - 1]));
        if t < a.len() {
            assert(nodes[a[t - 1]].ancestors == a.skip(t));
            assert(a.skip(t)[0] == a[t]);
        }
    }
}

/// Subtree totals never decrease going up the chain.
pub proof fn lemma_chain_monotone(nodes: Seq<NodeView>, x: int, t: int, s: int)
    requires
        structured(nodes),
        0 <= x < nodes.len(),
        0 <= t <= s <= nodes[x].ancestors.len(),
    ensures
        subtree_guards(nodes, chain_at(nodes, x, t)) <= subtree_guards(nodes, chain_at(nodes, x, s)),
{
    let a = nodes[x].ancestors;
    lemma_chain(nodes, x, t);
    lemma_chain(nodes, x, s);
    if t < s {
        let ct = chain_at(nodes, x, t);
        let cs = chain_at(nodes, x, s);
        // cs is an ancestor of ct
        if t == 0 {
            assert(a.contains(a[s - 1]));
        } else {
            assert(nodes[ct].ancestors == a.skip(t));
            assert(a.skip(t)[s - 1 - t] == a[s - 1]);
            assert(nodes[ct].ancestors.contains(cs));
        }
        lemma_subtree_guards_monotone(nodes, ct, cs);
    }
}

/// Moving the own guards of `x` by `delta` moves the total of exactly the
/// subtrees that hold `x`, by `delta`.
pub proof fn lemma_locals_moved(a: Seq<NodeView>, b: Seq<NodeView>, x: int, delta: int)
    requires
        locals_moved(a, b, x, delta),
    ensures
        forall|i: int| #[trigger] subtree_guards(b, i) == subtree_guards(a, i) + delta * indicator(in_subtree(a, x, i)),
{
    let n = a.len() as int;
    assert forall|i: int| #[trigger] subtree_guards(b, i) == subtree_guards(a, i) + delta * indicator(in_subtree(a, x, i)) by {
        let wa = subtree_weight(a, i);
        let wb = subtree_weight(b, i);
        assert forall|j: int| 0 <= j < n && j != x implies #[trigger] wa(j) == wb(j) by {
            assert(b[j].ancestors == a[j].ancestors);
        }
        assert(b[x].ancestors == a[x].ancestors);
        lemma_sum_one_diff(wa, wb, n, x);
    }
}

/// A child `j` of `i` whose subtree holds `x` is the chain scope just below
/// `i`, and `i` is an ancestor of `x`.
pub proof fn lemma_child_on_chain(nodes: Seq<NodeView>, x: int, i: int, j: int) -> (t: int)
    requires
        structured(nodes),
        0 <= x < nodes.len(),
        parent_is(nodes, j, i),
        in_subtree(nodes, x, j),
    ensures
        0 <= t < nodes[x].ancestors.len(),
        nodes[x].ancestors[t] == i,
        chain_at(nodes, x, t) == j,
{
    lemma_subtree_order(nodes, x, j);
    assert(nodes[j].ancestors.contains(i)) by {
        assert(nodes[j].ancestors[0] == i);
    }
    lemma_subtree_order(nodes, j, i);
    crate::model::lemma_subtree_transitive(nodes, x, j, i);
    assert(x != i);
    let t = choose|t: int| 0 <= t < nodes[x].ancestors.len() && nodes[x].ancestors[t] == i;
    lemma_chain(nodes, x, t);
    let c = lemma_path_child(nodes, x, i);
    assert(c == j);
    assert(c == chain_at(nodes, x, t));
    t
}

/// When the own guards of `x` move by one, the nonempty-child count moves at
/// exactly the ancestors whose chain child crosses between empty and
/// nonempty: up by one where it was empty before an increase, down by one
/// where it held a single guard before a decrease.
pub proof fn lemma_kid_shift(a: Seq<NodeView>, b: Seq<NodeView>, x: int, delta: int)
    requires
        structured(a),
        locals_moved(a, b, x, delta),
        delta == 1 || (delta == -1 && a[x].local_guards >= 1),
    ensures
        forall|i: int| #[trigger] nonempty_children(b, i) == nonempty_children(a, i) + (if delta == 1 {
            indicator(ancestor_above(a, x, i, 0))
        } else {
            -indicator(ancestor_above(a, x, i, 1))
        }),
{
    let n = a.len() as int;
    let edge: nat = if delta == 1 { 0 } else { 1 };
    lemma_locals_moved(a, b, x, delta);
    assert forall|i: int| #[trigger] nonempty_children(b, i) == nonempty_children(a, i) + (if delta == 1 {
        indicator(ancestor_above(a, x, i, 0))
    } else {
        -indicator(ancestor_above(a, x, i, 1))
    }) by {
        let pa = nonempty_child_pred(a, i);
        let pb = nonempty_child_pred(b, i);
        assert forall|j: int| 0 <= j < n implies (#[trigger] parent_is(b, j, i)) == parent_is(a, j, i) by {
            assert(b[j].ancestors == a[j].ancestors);
        }
        if ancestor_above(a, x, i, edge) {
            let t = choose|t: int|
                0 <= t < a[x].ancestors.len() && a[x].ancestors[t] == i
                    && #[trigger] subtree_guards(a, chain_at(a, x, t)) == edge;
            lemma_chain(a, x, t);
            let j = chain_at(a, x, t);
            assert forall|k: int| 0 <= k < n && k != j implies #[trigger] pa(k) == pb(k) by {
                if parent_is(a, k, i) && in_subtree(a, x, k) {
                    let s = lemma_child_on_chain(a, x, i, k);
                    if s < t {
                        lemma_ancestors_decrease(a, x, s, t);
                    } else if t < s {
                        lemma_ancestors_decrease(a, x, t, s);
                    }
                }
            }
            lemma_count_one_diff(pa, pb, n, j);
        } else {
            assert forall|k: int| 0 <= k < n implies #[trigger] pa(k) == pb(k) by {
                if parent_is(a, k, i) && in_subtree(a, x, k) {
                    let s = lemma_child_on_chain(a, x, i, k);
                    assert(subtree_guards(a, chain_at(a, x, s)) != edge);
                    if delta == -1 {
                        crate::model::lemma_local_le_subtree(a, x);
                        lemma_subtree_guards_monotone(a, x, k);
                    }
                }
            }
            lemma_count_same(pa, pb, n);
        }
        if delta == 1 {
            if !ancestor_above(a, x, i, edge) {
                assert(!ancestor_above(a, x, i, 0));
            }
        }
    }
}

} // verus!
