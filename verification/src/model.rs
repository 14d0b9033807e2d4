//! The mathematical model of a shutdown tree: one record per scope, held in an
//! arena whose indices name the scopes, and the derived notions (subtrees, guard
//! totals, nonempty and live children) that the contracts speak of.
use vstd::prelude::*;
use crate::counting::{row_sums, col_sums, lemma_sum_add, lemma_sum_single, lemma_sum_swap, count_where, sum_of, lemma_count_zero, lemma_count_same, lemma_sum_same, lemma_sum_zero, lemma_sum_term, lemma_sum_le};
use crate::state::{ShutdownState, state_of};

verus! {

/// What one shutdown scope holds, as plain values.
pub struct NodeView {
    /// Shutdown has been signalled to this scope (a latch).
    pub stopped: bool,
    /// Guards whose home is this very scope.
    pub local_guards: nat,
    /// Direct child scopes whose subtree currently holds at least one guard.
    pub nonempty_kids: nat,
    /// Live handles naming this scope.
    pub handles: nat,
    /// Waiters (completion futures) that keep this scope's state alive.
    pub pins: nat,
    /// Direct child scopes that have not been collected.
    pub live_kids: nat,
    /// Nothing keeps this scope alive any more: a weak reference to it fails.
    pub collected: bool,
    /// Every ancestor, deepest first: parent, grandparent, ..., root.
    pub ancestors: Seq<int>,
    /// The child scopes this scope propagates a stop to.
    pub children: Seq<int>,
}


/// The record of a scope as it is created: running or stopped as given, with
/// one handle and nothing else.
pub open spec fn fresh_node(stopped: bool, ancestors: Seq<int>) -> NodeView {
    NodeView {
        stopped,
        local_guards: 0,
        nonempty_kids: 0,
        handles: 1,
        pins: 0,
        live_kids: 0,
        collected: false,
        ancestors,
        children: Seq::empty(),
    }
}

/// `i` is the parent of `j`.
pub open spec fn parent_is(nodes: Seq<NodeView>, j: int, i: int) -> bool {
    &&& 0 <= j < nodes.len()
    &&& nodes[j].ancestors.len() > 0
    &&& nodes[j].ancestors[0] == i
}

/// `j` belongs to the subtree rooted at `i` (`i` itself included).
pub open spec fn in_subtree(nodes: Seq<NodeView>, j: int, i: int) -> bool {
    j == i || nodes[j].ancestors.contains(i)
}

/// The weight of `j` in the guard total of the subtree rooted at `i`.
pub open spec fn subtree_weight(nodes: Seq<NodeView>, i: int) -> spec_fn(int) -> nat {
    |j: int| if in_subtree(nodes, j, i) { nodes[j].local_guards } else { 0 }
}

/// The number of guards anywhere in the subtree rooted at `i`.
pub open spec fn subtree_guards(nodes: Seq<NodeView>, i: int) -> nat {
    sum_of(subtree_weight(nodes, i), nodes.len() as int)
}

pub open spec fn nonempty_child_pred(nodes: Seq<NodeView>, i: int) -> spec_fn(int) -> bool {
    |j: int| parent_is(nodes, j, i) && subtree_guards(nodes, j) > 0
}

/// The number of direct children of `i` whose subtree holds a guard.
pub open spec fn nonempty_children(nodes: Seq<NodeView>, i: int) -> nat {
    count_where(nonempty_child_pred(nodes, i), nodes.len() as int)
}

pub open spec fn live_child_pred(nodes: Seq<NodeView>, i: int) -> spec_fn(int) -> bool {
    |j: int| parent_is(nodes, j, i) && !nodes[j].collected
}

/// The number of direct children of `i` that have not been collected.
pub open spec fn live_children(nodes: Seq<NodeView>, i: int) -> nat {
    count_where(live_child_pred(nodes, i), nodes.len() as int)
}

/// Nothing holds the scope: no handle, no guard, no waiter, no live child.
pub open spec fn unheld(n: NodeView) -> bool {
    n.handles == 0 && n.local_guards == 0 && n.pins == 0 && n.live_kids == 0
}

/// The state a scope reports.
pub open spec fn observed_state(nodes: Seq<NodeView>, i: int) -> ShutdownState {
    state_of(nodes[i].stopped, subtree_guards(nodes, i) == 0)
}

/// Ancestor lists are consistent: each ancestor precedes its descendant in the
/// arena, and the ancestors of an ancestor are the rest of the list.
pub open spec fn structured(nodes: Seq<NodeView>) -> bool {
    forall|j: int, k: int|
        0 <= j < nodes.len() && 0 <= k < nodes[j].ancestors.len() ==> {
            &&& 0 <= (#[trigger] nodes[j].ancestors[k]) < j
            &&& nodes[nodes[j].ancestors[k]].ancestors == nodes[j].ancestors.skip(k + 1)
        }
}

pub open spec fn kids_consistent(nodes: Seq<NodeView>) -> bool {
    forall|i: int| #![trigger nodes[i]] 0 <= i < nodes.len() ==> nodes[i].nonempty_kids == nonempty_children(nodes, i)
}

pub open spec fn live_consistent(nodes: Seq<NodeView>) -> bool {
    forall|i: int|
        #![trigger nodes[i]]
        0 <= i < nodes.len() ==> {
            &&& nodes[i].live_kids == live_children(nodes, i)
            &&& nodes[i].collected <==> unheld(nodes[i])
        }
}

/// A stopped scope's live descendants are all stopped.
pub open spec fn stop_closed(nodes: Seq<NodeView>) -> bool {
    forall|i: int, j: int|
        0 <= i < nodes.len() && 0 <= j < nodes.len() && nodes[i].stopped && #[trigger] in_subtree(nodes, j, i)
            && !nodes[j].collected ==> nodes[j].stopped
}

/// A collected scope's descendants are all collected.
pub open spec fn collect_closed(nodes: Seq<NodeView>) -> bool {
    forall|i: int, j: int|
        0 <= i < nodes.len() && 0 <= j < nodes.len() && nodes[i].collected && #[trigger] in_subtree(nodes, j, i)
            ==> nodes[j].collected
}

/// Child lists name children only, and name every live child.
pub open spec fn children_listed(nodes: Seq<NodeView>) -> bool {
    &&& forall|i: int, t: int|
        0 <= i < nodes.len() && 0 <= t < nodes[i].children.len() ==> {
            &&& i < (#[trigger] nodes[i].children[t]) < nodes.len()
            &&& parent_is(nodes, nodes[i].children[t], i)
        }
    &&& forall|i: int, j: int|
        0 <= i < nodes.len() && #[trigger] parent_is(nodes, j, i) && !nodes[j].collected
            ==> nodes[i].children.contains(j)
    &&& forall|i: int| #![trigger nodes[i]] 0 <= i < nodes.len() ==> nodes[i].children.no_duplicates()
}

/// The well-formedness of a shutdown tree.
pub open spec fn tree_wf(nodes: Seq<NodeView>) -> bool {
    &&& structured(nodes)
    &&& kids_consistent(nodes)
    &&& live_consistent(nodes)
    &&& stop_closed(nodes)
    &&& collect_closed(nodes)
    &&& children_listed(nodes)
}

// ---------------------------------------------------------------------------
// Structural lemmas
// ---------------------------------------------------------------------------

/// Ancestor lists strictly decrease: deeper entries come earlier in the arena.
pub proof fn lemma_ancestors_decrease(nodes: Seq<NodeView>, j: int, k: int, t: int)
    requires
        structured(nodes),
        0 <= j < nodes.len(),
        0 <= k < t < nodes[j].ancestors.len(),
    ensures
        nodes[j].ancestors[t] < nodes[j].ancestors[k],
{
    let a = nodes[j].ancestors;
    let ak = a[k];
    assert(nodes[ak].ancestors == a.skip(k + 1));
    assert(a.skip(k + 1)[t - k - 1] == a[t]);
    assert(nodes[ak].ancestors[t - k - 1] < ak);
}

/// A member of a subtree sits at or after the subtree's root in the arena.
pub proof fn lemma_subtree_order(nodes: Seq<NodeView>, j: int, i: int)
    requires
        structured(nodes),
        0 <= j < nodes.len(),
        in_subtree(nodes, j, i),
    ensures
        i <= j,
        i != j ==> i < j,
{
    if j != i {
        let k = choose|k: int| 0 <= k < nodes[j].ancestors.len() && nodes[j].ancestors[k] == i;
        assert(nodes[j].ancestors[k] < j);
    }
}

/// Membership in subtrees is transitive.
pub proof fn lemma_subtree_transitive(nodes: Seq<NodeView>, j: int, i: int, k: int)
    requires
        structured(nodes),
        0 <= j < nodes.len(),
        0 <= i < nodes.len(),
        in_subtree(nodes, j, i),
        in_subtree(nodes, i, k),
    ensures
        in_subtree(nodes, j, k),
{
    if j != i && i != k {
        let a = nodes[j].ancestors;
        let x = choose|x: int| 0 <= x < a.len() && a[x] == i;
        assert(nodes[i].ancestors == a.skip(x + 1));
        let y = choose|y: int| 0 <= y < nodes[i].ancestors.len() && nodes[i].ancestors[y] == k;
        assert(a[x + 1 + y] == k);
    }
}

/// The ancestors of `j` are exactly the strict ancestors in subtree terms.
pub proof fn lemma_ancestor_in_subtree(nodes: Seq<NodeView>, j: int, t: int)
    requires
        structured(nodes),
        0 <= j < nodes.len(),
        0 <= t < nodes[j].ancestors.len(),
    ensures
        in_subtree(nodes, j, nodes[j].ancestors[t]),
        0 <= nodes[j].ancestors[t] < j,
{
    assert(nodes[j].ancestors[t] < j);
}

/// A strict member `j` of the subtree of `i` lies in the subtree of exactly one
/// child of `i`, the one on its ancestor path; this returns it.
pub proof fn lemma_path_child(nodes: Seq<NodeView>, j: int, i: int) -> (c: int)
    requires
        structured(nodes),
        0 <= j < nodes.len(),
        in_subtree(nodes, j, i),
        j != i,
    ensures
        0 <= c < nodes.len(),
        parent_is(nodes, c, i),
        in_subtree(nodes, j, c),
        forall|d: int| #[trigger] parent_is(nodes, d, i) && in_subtree(nodes, j, d) ==> d == c,
{
    let a = nodes[j].ancestors;
    let x = choose|x: int| 0 <= x < a.len() && a[x] == i;
    let c = if x == 0 { j } else { a[x - 1] };
    if x > 0 {
        assert(a[x - 1] < j);
        assert(nodes[c].ancestors == a.skip(x));
        assert(a.skip(x)[0] == a[x]);
        assert(a.contains(a[x - 1]));
    }
    assert forall|d: int| #[trigger] parent_is(nodes, d, i) && in_subtree(nodes, j, d) implies d == c by {
        if d != j {
            let y = choose|y: int| 0 <= y < a.len() && a[y] == d;
            assert(nodes[d].ancestors == a.skip(y + 1));
            assert(a.skip(y + 1)[0] == a[y + 1]);
            // a[y + 1] == i == a[x]; ancestors strictly decrease, so y + 1 == x
            if y + 1 < x {
                lemma_ancestors_decrease(nodes, j, y + 1, x);
            } else if x < y + 1 {
                lemma_ancestors_decrease(nodes, j, x, y + 1);
            }
        } else {
            if x > 0 {
                // d == j is a child of i, so a[0] == i == a[x]
                lemma_ancestors_decrease(nodes, j, 0, x);
            }
        }
    }
    c
}

/// A subtree's guard total covers that of any subtree nested inside it.
pub proof fn lemma_subtree_guards_monotone(nodes: Seq<NodeView>, c: int, i: int)
    requires
        structured(nodes),
        0 <= c < nodes.len(),
        0 <= i < nodes.len(),
        in_subtree(nodes, c, i),
    ensures
        subtree_guards(nodes, c) <= subtree_guards(nodes, i),
{
    let wc = subtree_weight(nodes, c);
    let wi = subtree_weight(nodes, i);
    assert forall|j: int| 0 <= j < nodes.len() implies #[trigger] wc(j) <= wi(j) by {
        if in_subtree(nodes, j, c) {
            lemma_subtree_transitive(nodes, j, c, i);
        }
    }
    lemma_sum_le(wc, wi, nodes.len() as int);
}

/// A scope's own guards count toward its subtree total.
pub proof fn lemma_local_le_subtree(nodes: Seq<NodeView>, i: int)
    requires
        0 <= i < nodes.len(),
    ensures
        nodes[i].local_guards <= subtree_guards(nodes, i),
{
    lemma_sum_term(subtree_weight(nodes, i), nodes.len() as int, i);
}

/// A subtree holds no guard exactly when its root holds none and no child
/// subtree holds one.
pub proof fn lemma_zero_iff(nodes: Seq<NodeView>, i: int)
    requires
        structured(nodes),
        0 <= i < nodes.len(),
    ensures
        subtree_guards(nodes, i) == 0 <==> (nodes[i].local_guards == 0 && nonempty_children(nodes, i) == 0),
{
    let n = nodes.len() as int;
    let p = nonempty_child_pred(nodes, i);
    let w = subtree_weight(nodes, i);
    lemma_count_zero(p, n);
    lemma_sum_zero(w, n);
    lemma_local_le_subtree(nodes, i);
    if subtree_guards(nodes, i) == 0 {
        assert forall|j: int| 0 <= j < n implies !#[trigger] p(j) by {
            if parent_is(nodes, j, i) {
                assert(nodes[j].ancestors.contains(i)) by {
                    assert(nodes[j].ancestors[0] == i);
                }
                lemma_subtree_guards_monotone(nodes, j, i);
            }
        }
    }
    if nodes[i].local_guards == 0 && nonempty_children(nodes, i) == 0 {
        assert forall|j: int| 0 <= j < n implies #[trigger] w(j) == 0 by {
            if in_subtree(nodes, j, i) && j != i {
                let c = lemma_path_child(nodes, j, i);
                assert(!p(c));
                lemma_local_le_subtree(nodes, j);
                lemma_subtree_guards_monotone(nodes, j, c);
            }
        }
    }
}

/// The guard total of a collected scope's subtree is zero.
pub proof fn lemma_collected_empty(nodes: Seq<NodeView>, i: int)
    requires
        structured(nodes),
        live_consistent(nodes),
        collect_closed(nodes),
        0 <= i < nodes.len(),
        nodes[i].collected,
    ensures
        subtree_guards(nodes, i) == 0,
{
    let w = subtree_weight(nodes, i);
    lemma_sum_zero(w, nodes.len() as int);
    assert forall|j: int| 0 <= j < nodes.len() implies #[trigger] w(j) == 0 by {
        if in_subtree(nodes, j, i) {
            assert(nodes[j].collected);
        }
    }
}



/// Appending a root scope keeps a tree well formed.
pub proof fn lemma_push_wf(nodes: Seq<NodeView>, v: NodeView)
    requires
        tree_wf(nodes),
        v == fresh_node(false, Seq::empty()),
    ensures
        tree_wf(nodes.push(v)),
{
    let m = nodes.push(v);
    let n = nodes.len() as int;
    lemma_push_frame(nodes, v);
    assert forall|j: int| 0 <= j < n implies #[trigger] m[j] == nodes[j] by {}
    assert(structured(m)) by {
        assert forall|j: int, k: int| 0 <= j < m.len() && 0 <= k < m[j].ancestors.len() implies {
            &&& 0 <= (#[trigger] m[j].ancestors[k]) < j
            &&& m[m[j].ancestors[k]].ancestors == m[j].ancestors.skip(k + 1)
        } by {
            assert(j < n);
            assert(m[j] == nodes[j]);
            assert(nodes[j].ancestors[k] < j);
        }
    }
    assert(kids_consistent(m)) by {
        assert forall|i: int| #![trigger m[i]] 0 <= i < m.len() implies m[i].nonempty_kids == nonempty_children(m, i) by {
            if i < n {
                assert(nodes[i].nonempty_kids == nonempty_children(nodes, i));
            }
        }
    }
    assert(live_consistent(m)) by {
        assert forall|i: int| #![trigger m[i]] 0 <= i < m.len() implies {
            &&& m[i].live_kids == live_children(m, i)
            &&& m[i].collected <==> unheld(m[i])
        } by {
            if i < n {
                assert(nodes[i].live_kids == live_children(nodes, i));
                assert(!parent_is(m, n, i));
            }
        }
    }
    assert forall|i: int, j: int| 0 <= i < m.len() && 0 <= j < m.len() && #[trigger] in_subtree(m, j, i) implies
        (i < n && j < n && in_subtree(nodes, j, i)) || (i == n && j == n) by {
        if j < n && i == n {
            if nodes[j].ancestors.contains(n) {
                let k = choose|k: int| 0 <= k < nodes[j].ancestors.len() && nodes[j].ancestors[k] == n;
                assert(nodes[j].ancestors[k] < j);
            }
        }
    }
    assert(children_listed(m)) by {
        assert forall|i: int, j: int| 0 <= i < m.len() && #[trigger] parent_is(m, j, i) && !m[j].collected
            implies m[i].children.contains(j) by {
            assert(j < n);
            assert(parent_is(nodes, j, i));
            assert(i < n) by { assert(nodes[j].ancestors[0] < j); }
        }
        assert forall|i: int, t: int| 0 <= i < m.len() && 0 <= t < m[i].children.len() implies {
            &&& i < (#[trigger] m[i].children[t]) < m.len()
            &&& parent_is(m, m[i].children[t], i)
        } by {
            assert(i < n);
        }
    }
}


/// Two trees with the same ancestors and the same local guards everywhere have
/// the same subtree totals and the same nonempty-child counts.
pub proof fn lemma_guard_frame(a: Seq<NodeView>, b: Seq<NodeView>)
    requires
        a.len() == b.len(),
        forall|j: int| 0 <= j < a.len() ==> (#[trigger] a[j]).ancestors == b[j].ancestors && a[j].local_guards == b[j].local_guards,
    ensures
        forall|i: int| #[trigger] subtree_guards(b, i) == subtree_guards(a, i),
        forall|i: int| #[trigger] nonempty_children(b, i) == nonempty_children(a, i),
{
    let n = a.len() as int;
    assert forall|i: int| #[trigger] subtree_guards(b, i) == subtree_guards(a, i) by {
        let wa = subtree_weight(a, i);
        let wb = subtree_weight(b, i);
        assert forall|j: int| 0 <= j < n implies #[trigger] wa(j) == wb(j) by {
            assert(a[j].ancestors == b[j].ancestors);
        }
        lemma_sum_same(wa, wb, n);
    }
    assert forall|i: int| #[trigger] nonempty_children(b, i) == nonempty_children(a, i) by {
        let pa = nonempty_child_pred(a, i);
        let pb = nonempty_child_pred(b, i);
        assert forall|j: int| 0 <= j < n implies #[trigger] pa(j) == pb(j) by {
            assert(a[j].ancestors == b[j].ancestors);
            assert(subtree_guards(b, j) == subtree_guards(a, j));
        }
        lemma_count_same(pa, pb, n);
    }
}

/// Two trees with the same ancestors and collection flags everywhere have the
/// same live-child counts.
pub proof fn lemma_live_frame(a: Seq<NodeView>, b: Seq<NodeView>)
    requires
        a.len() == b.len(),
        forall|j: int| 0 <= j < a.len() ==> (#[trigger] a[j]).ancestors == b[j].ancestors && a[j].collected == b[j].collected,
    ensures
        forall|i: int| #[trigger] live_children(b, i) == live_children(a, i),
{
    let n = a.len() as int;
    assert forall|i: int| #[trigger] live_children(b, i) == live_children(a, i) by {
        let pa = live_child_pred(a, i);
        let pb = live_child_pred(b, i);
        assert forall|j: int| 0 <= j < n implies #[trigger] pa(j) == pb(j) by {
            assert(a[j].ancestors == b[j].ancestors);
        }
        lemma_count_same(pa, pb, n);
    }
}

/// The child lists of `p` after a new child `n` joins it: the children that are
/// not collected, then the new one.
pub open spec fn pruned_children(nodes: Seq<NodeView>, p: int, n: int) -> Seq<int> {
    nodes[p].children.filter(|c: int| !nodes[c].collected).push(n)
}

/// The parent record after a new child joins it.
pub open spec fn parent_after_child(nodes: Seq<NodeView>, p: int) -> NodeView {
    NodeView {
        live_kids: nodes[p].live_kids + 1,
        children: pruned_children(nodes, p, nodes.len() as int),
        ..nodes[p]
    }
}

/// The record of a new child of `p`: stopped exactly when `p` is, with `p`
/// and the ancestors of `p` as its ancestors.
pub open spec fn child_node(nodes: Seq<NodeView>, p: int) -> NodeView {
    fresh_node(nodes[p].stopped, seq![p] + nodes[p].ancestors)
}

/// The tree after a new child of `p` is created.
pub open spec fn with_child(nodes: Seq<NodeView>, p: int) -> Seq<NodeView> {
    nodes.update(p, parent_after_child(nodes, p)).push(child_node(nodes, p))
}


/// The sum of the guard totals of the subtrees of the scopes `i` lists as its
/// children.
pub open spec fn children_guards(nodes: Seq<NodeView>, i: int) -> nat {
    sum_of(|t: int| subtree_guards(nodes, nodes[i].children[t]), nodes[i].children.len() as int)
}

/// A subtree's guards are its root's own plus those of the subtrees of the
/// children the root lists.
pub proof fn lemma_subtree_decompose(nodes: Seq<NodeView>, i: int)
    requires
        tree_wf(nodes),
        0 <= i < nodes.len(),
    ensures
        subtree_guards(nodes, i) == nodes[i].local_guards + children_guards(nodes, i),
{
    let l = nodes[i].children;
    let m = l.len() as int;
    let n = nodes.len() as int;
    let f = |t: int, j: int| subtree_weight(nodes, l[t])(j);
    let w = subtree_weight(nodes, i);
    let own = |j: int| if j == i { nodes[j].local_guards } else { 0nat };
    let rows = row_sums(f, m);
    assert(l.no_duplicates()) by {
        assert(nodes[i] == nodes[i]);
    }
    assert forall|t: int| 0 <= t < m implies i < #[trigger] l[t] < n && parent_is(nodes, l[t], i) by {}
    assert forall|j: int| 0 <= j < n implies #[trigger] w(j) == own(j) + rows(j) by {
        let g = |t: int| f(t, j);
        assert(rows(j) == sum_of(g, m));
        if in_subtree(nodes, j, i) && j != i {
            let c = lemma_path_child(nodes, j, i);
            if !nodes[c].collected {
                assert(l.contains(c));
                let tc = choose|tc: int| 0 <= tc < m && l[tc] == c;
                assert forall|t: int| 0 <= t < m && t != tc implies #[trigger] g(t) == 0 by {
                    if in_subtree(nodes, j, l[t]) {
                        assert(parent_is(nodes, l[t], i));
                        assert(l[t] == c);
                    }
                }
                lemma_sum_single(g, tc, m);
            } else {
                assert(in_subtree(nodes, j, c));
                assert(nodes[j].collected);
                assert(nodes[j].local_guards == 0) by {
                    assert(nodes[j].collected <==> unheld(nodes[j]));
                }
                assert forall|t: int| 0 <= t < m implies #[trigger] g(t) == 0 by {}
                lemma_sum_zero(g, m);
            }
        } else if j == i {
            assert forall|t: int| 0 <= t < m implies #[trigger] g(t) == 0 by {
                if in_subtree(nodes, i, l[t]) {
                    lemma_subtree_order(nodes, i, l[t]);
                }
            }
            lemma_sum_zero(g, m);
        } else {
            assert forall|t: int| 0 <= t < m implies #[trigger] g(t) == 0 by {
                if in_subtree(nodes, j, l[t]) {
                    assert(in_subtree(nodes, l[t], i)) by {
                        assert(nodes[l[t]].ancestors[0] == i);
                    }
                    lemma_subtree_transitive(nodes, j, l[t], i);
                }
            }
            lemma_sum_zero(g, m);
        }
    }
    lemma_sum_add(own, rows, w, n);
    lemma_sum_single(own, i, n);
    lemma_sum_swap(f, n, m);
    let cols = col_sums(f, n);
    let sg = |t: int| subtree_guards(nodes, l[t]);
    assert forall|t: int| 0 <= t < m implies #[trigger] cols(t) == sg(t) by {
        lemma_sum_same(|j: int| f(t, j), subtree_weight(nodes, l[t]), n);
    }
    lemma_sum_same(cols, sg, m);
}

/// Filtering a sequence without duplicates leaves none.
pub proof fn lemma_filter_no_duplicates(s: Seq<int>, p: spec_fn(int) -> bool)
    requires
        s.no_duplicates(),
    ensures
        s.filter(p).no_duplicates(),
    decreases s.len(),
{
    reveal(Seq::filter);
    if s.len() > 0 {
        let d = s.drop_last();
        assert(d.no_duplicates()) by {
            assert forall|a: int, b: int| 0 <= a < d.len() && 0 <= b < d.len() && a != b implies d[a] != d[b] by {
                assert(d[a] == s[a] && d[b] == s[b]);
            }
        }
        lemma_filter_no_duplicates(d, p);
        if p(s.last()) {
            if d.filter(p).contains(s.last()) {
                d.lemma_filter_contains_rev(p, s.last());
                let k = choose|k: int| 0 <= k < d.len() && d[k] == s.last();
                assert(s[k] == s[s.len() - 1]);
            }
            let f = d.filter(p);
            assert forall|a: int, b: int| 0 <= a < f.push(s.last()).len() && 0 <= b < f.push(s.last()).len() && a != b
                implies f.push(s.last())[a] != f.push(s.last())[b] by {
                if a < f.len() && b == f.len() {
                    assert(f.contains(f[a]));
                } else if b < f.len() && a == f.len() {
                    assert(f.contains(f[b]));
                }
            }
        }
    }
}

/// Creating a child of a live scope keeps a tree well formed.
pub proof fn lemma_child_wf(nodes: Seq<NodeView>, p: int)
    requires
        tree_wf(nodes),
        0 <= p < nodes.len(),
        !nodes[p].collected,
    ensures
        tree_wf(with_child(nodes, p)),
{
    let n = nodes.len() as int;
    let pv = parent_after_child(nodes, p);
    let m2 = nodes.update(p, pv);
    let v = child_node(nodes, p);
    let m = m2.push(v);
    assert(m == with_child(nodes, p));
    assert forall|j: int| 0 <= j < n implies (#[trigger] m2[j]).ancestors == nodes[j].ancestors
        && m2[j].local_guards == nodes[j].local_guards && m2[j].collected == nodes[j].collected by {}
    lemma_guard_frame(nodes, m2);
    lemma_live_frame(nodes, m2);
    assert(structured(m2)) by {
        assert forall|j: int, k: int| 0 <= j < m2.len() && 0 <= k < m2[j].ancestors.len() implies {
            &&& 0 <= (#[trigger] m2[j].ancestors[k]) < j
            &&& m2[m2[j].ancestors[k]].ancestors == m2[j].ancestors.skip(k + 1)
        } by {
            assert(nodes[j].ancestors[k] < j);
        }
    }
    assert forall|k: int| 0 <= k < v.ancestors.len() implies 0 <= #[trigger] v.ancestors[k] < m2.len() by {
        if k > 0 {
            assert(v.ancestors[k] == nodes[p].ancestors[k - 1]);
            assert(nodes[p].ancestors[k - 1] < p);
        }
    }
    lemma_push_frame(m2, v);
    assert forall|j: int| 0 <= j < n && j != p implies #[trigger] m[j] == nodes[j] by {}
    assert(m[p] == pv);
    assert(m[n] == v);
    // the new node's ancestors are p's chain, so it lies in exactly the subtrees p does
    assert forall|i: int| 0 <= i < n implies (#[trigger] in_subtree(m, n, i) <==> in_subtree(nodes, p, i)) by {
        if in_subtree(m, n, i) {
            assert(v.ancestors.contains(i));
            let k = choose|k: int| 0 <= k < v.ancestors.len() && v.ancestors[k] == i;
            if k > 0 {
                assert(nodes[p].ancestors[k - 1] == i);
            }
        }
        if in_subtree(nodes, p, i) {
            if i == p {
                assert(v.ancestors[0] == p);
            } else {
                let k = choose|k: int| 0 <= k < nodes[p].ancestors.len() && nodes[p].ancestors[k] == i;
                assert(v.ancestors[k + 1] == i);
            }
        }
    }
    assert forall|i: int, j: int| 0 <= i < n && 0 <= j < n implies (#[trigger] in_subtree(m, j, i) <==> in_subtree(nodes, j, i)) by {}
    assert forall|j: int| 0 <= j < n implies !(#[trigger] in_subtree(m, j, n)) by {
        if m[j].ancestors.contains(n) {
            let k = choose|k: int| 0 <= k < nodes[j].ancestors.len() && nodes[j].ancestors[k] == n;
            assert(nodes[j].ancestors[k] < j);
        }
    }
    assert(structured(m)) by {
        assert forall|j: int, k: int| 0 <= j < m.len() && 0 <= k < m[j].ancestors.len() implies {
            &&& 0 <= (#[trigger] m[j].ancestors[k]) < j
            &&& m[m[j].ancestors[k]].ancestors == m[j].ancestors.skip(k + 1)
        } by {
            if j < n {
                assert(nodes[j].ancestors[k] < j);
            } else {
                if k == 0 {
                    assert(v.ancestors.skip(1) =~= nodes[p].ancestors);
                } else {
                    let a = nodes[p].ancestors[k - 1];
                    assert(v.ancestors[k] == a);
                    assert(a < p);
                    assert(nodes[a].ancestors == nodes[p].ancestors.skip(k));
                    assert(v.ancestors.skip(k + 1) =~= nodes[p].ancestors.skip(k));
                }
            }
        }
    }
    assert(kids_consistent(m)) by {
        assert forall|i: int| #![trigger m[i]] 0 <= i < m.len() implies m[i].nonempty_kids == nonempty_children(m, i) by {
            if i < n {
                assert(nodes[i].nonempty_kids == nonempty_children(nodes, i));
            }
        }
    }
    assert(live_consistent(m)) by {
        assert forall|i: int| #![trigger m[i]] 0 <= i < m.len() implies {
            &&& m[i].live_kids == live_children(m, i)
            &&& m[i].collected <==> unheld(m[i])
        } by {
            if i < n {
                assert(nodes[i].live_kids == live_children(nodes, i));
                assert(parent_is(m, n, i) <==> i == p);
            }
        }
    }
    assert(stop_closed(m)) by {
        assert forall|i: int, j: int|
            0 <= i < m.len() && 0 <= j < m.len() && m[i].stopped && #[trigger] in_subtree(m, j, i)
                && !m[j].collected implies m[j].stopped by {
            if j == n && i < n {
                assert(in_subtree(nodes, p, i));
            } else if i < n && j < n {
                assert(in_subtree(nodes, j, i));
            }
        }
    }
    assert(collect_closed(m)) by {
        assert forall|i: int, j: int|
            0 <= i < m.len() && 0 <= j < m.len() && m[i].collected && #[trigger] in_subtree(m, j, i)
                implies m[j].collected by {
            if j == n && i < n {
                assert(in_subtree(nodes, p, i));
            } else if i < n && j < n {
                assert(in_subtree(nodes, j, i));
            }
        }
    }
    assert(children_listed(m)) by {
        let keep = |c: int| !nodes[c].collected;
        let f = nodes[p].children.filter(keep);
        assert(nodes[p].children.no_duplicates());
        lemma_filter_no_duplicates(nodes[p].children, keep);
        assert forall|t: int| 0 <= t < f.len() implies p < #[trigger] f[t] < n && parent_is(nodes, f[t], p) && keep(f[t]) by {
            nodes[p].children.lemma_filter_pred(keep, t);
            assert(f.contains(f[t]));
            nodes[p].children.lemma_filter_contains_rev(keep, f[t]);
            let u = choose|u: int| 0 <= u < nodes[p].children.len() && nodes[p].children[u] == f[t];
            assert(p < nodes[p].children[u] < n);
        }
        assert forall|i: int, t: int| 0 <= i < m.len() && 0 <= t < m[i].children.len() implies {
            &&& i < (#[trigger] m[i].children[t]) < m.len()
            &&& parent_is(m, m[i].children[t], i)
        } by {
            if i == p {
                if t < f.len() {
                    assert(m[i].children[t] == f[t]);
                } else {
                    assert(m[i].children[t] == n);
                }
            } else {
                assert(i < n);
                assert(nodes[i].children[t] < n);
            }
        }
        assert forall|i: int| #![trigger m[i]] 0 <= i < m.len() implies m[i].children.no_duplicates() by {
            if i == p {
                assert forall|a: int, b: int| 0 <= a < f.push(n).len() && 0 <= b < f.push(n).len() && a != b
                    implies f.push(n)[a] != f.push(n)[b] by {
                    if a < f.len() && b < f.len() {
                    } else if a < f.len() {
                        assert(f[a] < n);
                    } else if b < f.len() {
                        assert(f[b] < n);
                    }
                }
            } else if i < n {
                assert(nodes[i].children.no_duplicates());
            }
        }
        assert forall|i: int, j: int| 0 <= i < m.len() && #[trigger] parent_is(m, j, i) && !m[j].collected
            implies m[i].children.contains(j) by {
            if j == n {
                assert(i == p);
                assert(m[p].children[f.len() as int] == n);
            } else {
                assert(parent_is(nodes, j, i));
                assert(i < n) by { assert(nodes[j].ancestors[0] < j); }
                assert(nodes[i].children.contains(j));
                if i == p {
                    let u = choose|u: int| 0 <= u < nodes[p].children.len() && nodes[p].children[u] == j;
                    nodes[p].children.lemma_filter_contains(keep, u);
                    let w = choose|w: int| 0 <= w < f.len() && f[w] == j;
                    assert(m[p].children[w] == j);
                }
            }
        }
    }
}

/// Appending a guard-free scope that no existing scope descends from leaves
/// every existing subtree total and nonempty-child count as it was, and adds a
/// live child to the new scope's parent, if it has one.
pub proof fn lemma_push_frame(nodes: Seq<NodeView>, v: NodeView)
    requires
        structured(nodes),
        v.local_guards == 0,
        !v.collected,
        forall|k: int| 0 <= k < v.ancestors.len() ==> 0 <= #[trigger] v.ancestors[k] < nodes.len(),
    ensures
        ({
            let m = nodes.push(v);
            let n = nodes.len() as int;
            &&& subtree_guards(m, n) == 0
            &&& forall|i: int| 0 <= i < n ==> #[trigger] subtree_guards(m, i) == subtree_guards(nodes, i)
            &&& forall|i: int| 0 <= i < n ==> #[trigger] nonempty_children(m, i) == nonempty_children(nodes, i)
            &&& forall|i: int| 0 <= i < n ==> #[trigger] live_children(m, i) == live_children(nodes, i) + (if parent_is(m, n, i) { 1nat } else { 0nat })
            &&& nonempty_children(m, n) == 0
            &&& live_children(m, n) == 0
        }),
{
    let m = nodes.push(v);
    let n = nodes.len() as int;
    assert forall|i: int| 0 <= i <= n implies #[trigger] subtree_guards(m, i) == (if i < n { subtree_guards(nodes, i) } else { 0 }) by {
        let wm = subtree_weight(m, i);
        let w = subtree_weight(nodes, i);
        assert forall|j: int| 0 <= j < n implies #[trigger] wm(j) == w(j) by {
            assert(m[j] == nodes[j]);
        }
        lemma_sum_same(wm, w, n);
        assert(wm(n) == 0);
        if i == n {
            let w0 = |j: int| 0nat;
            assert forall|j: int| 0 <= j < n implies #[trigger] wm(j) == w0(j) by {
                assert(m[j] == nodes[j]);
                if nodes[j].ancestors.contains(n) {
                    let k = choose|k: int| 0 <= k < nodes[j].ancestors.len() && nodes[j].ancestors[k] == n;
                    assert(nodes[j].ancestors[k] < j);
                }
            }
            lemma_sum_same(wm, w0, n);
            lemma_sum_zero_const(n);
        }
    }
    assert forall|i: int| 0 <= i < n implies #[trigger] nonempty_children(m, i) == nonempty_children(nodes, i) by {
        let pm = nonempty_child_pred(m, i);
        let p = nonempty_child_pred(nodes, i);
        assert forall|j: int| 0 <= j < n implies #[trigger] pm(j) == p(j) by {
            assert(m[j] == nodes[j]);
            assert(subtree_guards(m, j) == subtree_guards(nodes, j));
        }
        lemma_count_same(pm, p, n);
        assert(subtree_guards(m, n) == 0);
    }
    assert forall|i: int| 0 <= i < n implies #[trigger] live_children(m, i) == live_children(nodes, i) + (if parent_is(m, n, i) { 1nat } else { 0nat }) by {
        let pm = live_child_pred(m, i);
        let p = live_child_pred(nodes, i);
        assert forall|j: int| 0 <= j < n implies #[trigger] pm(j) == p(j) by {
            assert(m[j] == nodes[j]);
        }
        lemma_count_same(pm, p, n);
    }
    let pn = nonempty_child_pred(m, n);
    let ln = live_child_pred(m, n);
    assert forall|j: int| 0 <= j < n + 1 implies !#[trigger] pn(j) && !ln(j) by {
        if j < n {
            assert(m[j] == nodes[j]);
            if parent_is(m, j, n) {
                assert(nodes[j].ancestors[0] < j);
            }
        } else {
            if parent_is(m, j, n) {
                assert(v.ancestors[0] < n);
            }
        }
    }
    lemma_count_zero(pn, n + 1);
    lemma_count_zero(ln, n + 1);
}

pub proof fn lemma_sum_zero_const(n: int)
    ensures
        sum_of(|j: int| 0nat, n) == 0,
{
    lemma_sum_zero(|j: int| 0nat, n);
}

} // verus!
