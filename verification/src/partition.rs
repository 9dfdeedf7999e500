//! Partition of marked nodes into convex blocks.
//!
//! The marked nodes fall into components, linked by arcs between marked nodes.
//! Each component is swept in topological order: a node joins the block at hand
//! unless an unmarked node lies on a walk between it and a member of that block.

#[allow(unused_imports)]
use crate::bitset::{bit_len, bit_members};
use crate::bitset::{count_all_ones, enabled_bits};
use crate::components::marked_weak_components;
#[allow(unused_imports)]
use crate::components::{
    component_heads, is_head, lemma_linked_marked, lemma_linked_symmetric, lemma_linked_transitive,
    linked, live_marked, marked_links,
};
use crate::digraph::{toposort, DiGraph};
#[allow(unused_imports)]
use crate::digraph::{
    acyclic, arc_at, arcs, graph_nodes, is_walk, is_walk_between, lemma_reaches_arc,
    lemma_reaches_ends, lemma_reaches_forward, lemma_reaches_join, lemma_topological_acyclic,
    reaches, reaches_or_is, topological,
};
#[allow(unused_imports)]
use crate::reachability::{is_reach_row, positions_of};
use crate::reachability::{positions, reachability};
use fixedbitset::FixedBitSet;
use std::collections::{HashMap, HashSet};
use vstd::prelude::*;

verus! {

broadcast use vstd::std_specs::hash::group_hash_axioms;

/// An unmarked node lies on a walk from `u` to `v`.
pub open spec fn conflict(
    arcs: Set<(usize, usize)>,
    marked: Set<usize>,
    u: usize,
    v: usize,
) -> bool {
    exists|x: usize|
        !marked.contains(x) && #[trigger] reaches(arcs, u, x) && #[trigger] reaches(arcs, x, v)
}

/// `n` conflicts with a member of `block`, in one direction or the other.
pub open spec fn clashes(
    arcs: Set<(usize, usize)>,
    marked: Set<usize>,
    block: Seq<usize>,
    n: usize,
) -> bool {
    exists|m: usize| #[trigger]
        block.contains(m) && (conflict(arcs, marked, m, n) || conflict(arcs, marked, n, m))
}

/// The blocks of `members`, taken in turn: each joins the last block unless it
/// clashes with it.
pub open spec fn sweep(
    arcs: Set<(usize, usize)>,
    marked: Set<usize>,
    members: Seq<usize>,
) -> Seq<Seq<usize>>
    decreases members.len(),
{
    if members.len() == 0 {
        Seq::empty()
    } else {
        let before = sweep(arcs, marked, members.drop_last());
        let n = members.last();
        if before.len() == 0 || clashes(arcs, marked, before.last(), n) {
            before.push(seq![n])
        } else {
            before.drop_last().push(before.last().push(n))
        }
    }
}

/// The component of `head`, in the order given.
pub open spec fn component_members(
    arcs: Set<(usize, usize)>,
    marked: Set<usize>,
    order: Seq<usize>,
    head: usize,
) -> Seq<usize> {
    order.filter(|n: usize| linked(arcs, marked, head, n))
}

/// The blocks of the components with these heads, one component after another.
pub open spec fn component_blocks(
    arcs: Set<(usize, usize)>,
    marked: Set<usize>,
    order: Seq<usize>,
    heads: Seq<usize>,
) -> Seq<Seq<usize>>
    decreases heads.len(),
{
    if heads.len() == 0 {
        Seq::empty()
    } else {
        component_blocks(arcs, marked, order, heads.drop_last()) + sweep(
            arcs,
            marked,
            component_members(arcs, marked, order, heads.last()),
        )
    }
}

/// The blocks as sets.
pub open spec fn as_sets(blocks: Seq<Seq<usize>>) -> Seq<Set<usize>> {
    blocks.map_values(|b: Seq<usize>| b.to_set())
}

/// The contents of hash sets.
pub open spec fn set_views(v: Seq<HashSet<usize>>) -> Seq<Set<usize>> {
    v.map_values(|s: HashSet<usize>| s@)
}

/// The blocks that come out of a topological order.
pub open spec fn swept_partition(
    nodes: Set<usize>,
    arcs: Set<(usize, usize)>,
    marked: Set<usize>,
    order: Seq<usize>,
    blocks: Seq<Set<usize>>,
) -> bool {
    &&& topological(order, nodes, arcs)
    &&& exists|heads: Seq<usize>| #[trigger]
        component_heads(arcs, marked, heads) && blocks == as_sets(
            component_blocks(arcs, marked, order, heads),
        )
}

/// The blocks come out of some topological order.
pub open spec fn swept(
    nodes: Set<usize>,
    arcs: Set<(usize, usize)>,
    marked: Set<usize>,
    blocks: Seq<Set<usize>>,
) -> bool {
    exists|order: Seq<usize>| swept_partition(nodes, arcs, marked, order, blocks)
}

/// Whatever lies on a walk between two members is a member.
pub open spec fn is_convex(arcs: Set<(usize, usize)>, block: Set<usize>) -> bool {
    forall|u: usize, x: usize, v: usize|
        block.contains(u) && block.contains(v) && #[trigger] reaches(arcs, u, x)
            && #[trigger] reaches(arcs, x, v) ==> block.contains(x)
}

/// Convex blocks, none empty, each within one component, that hold every marked
/// node once.
pub open spec fn convex_partition(
    arcs: Set<(usize, usize)>,
    marked: Set<usize>,
    blocks: Seq<Set<usize>>,
) -> bool {
    &&& forall|k: int| 0 <= k < blocks.len() ==> #[trigger] blocks[k] != Set::<usize>::empty()
    &&& forall|n: usize| #[trigger]
        marked.contains(n) <==> exists|k: int|
            0 <= k < blocks.len() && #[trigger] blocks[k].contains(n)
    &&& forall|k: int, l: int, n: usize|
        0 <= k < blocks.len() && 0 <= l < blocks.len() && #[trigger] blocks[k].contains(n)
            && #[trigger] blocks[l].contains(n) ==> k == l
    &&& forall|k: int| 0 <= k < blocks.len() ==> is_convex(arcs, #[trigger] blocks[k])
    &&& forall|k: int, u: usize, v: usize|
        0 <= k < blocks.len() && #[trigger] blocks[k].contains(u) && #[trigger] blocks[k].contains(
            v,
        ) ==> linked(arcs, marked, u, v)
}

/// A filtered list is found at ascending positions.
pub proof fn lemma_filter_positions(order: Seq<usize>, pred: spec_fn(usize) -> bool) -> (ps: Seq<int>)
    ensures
        ps.len() == order.filter(pred).len(),
        forall|k: int|
            0 <= k < ps.len() ==> 0 <= #[trigger] ps[k] < order.len() && order.filter(pred)[k]
                == order[ps[k]] && pred(order[ps[k]]),
        forall|k: int, l: int| 0 <= k < l < ps.len() ==> ps[k] < ps[l],
        forall|i: int|
            0 <= i < order.len() && pred(#[trigger] order[i]) ==> exists|k: int|
                0 <= k < ps.len() && ps[k] == i,
    decreases order.len(),
{
    reveal(Seq::filter);
    if order.len() == 0 {
        Seq::empty()
    } else {
        let n = order.len() - 1;
        let front = order.drop_last();
        let qs = lemma_filter_positions(front, pred);
        if pred(order.last()) {
            let ps = qs.push(n);
            assert forall|i: int| 0 <= i < order.len() && pred(#[trigger] order[i]) implies exists|
                k: int,
            | 0 <= k < ps.len() && ps[k] == i by {
                if i < n {
                    assert(front[i] == order[i]);
                    let k = choose|k: int| 0 <= k < qs.len() && qs[k] == i;
                    assert(ps[k] == i);
                } else {
                    assert(ps[qs.len() as int] == i);
                }
            }
            ps
        } else {
            assert forall|i: int| 0 <= i < order.len() && pred(#[trigger] order[i]) implies exists|
                k: int,
            | 0 <= k < qs.len() && qs[k] == i by {
                assert(front[i] == order[i]);
            }
            qs
        }
    }
}

/// The ascending positions at which a predicate holds give the filtered list.
proof fn lemma_filter_is(order: Seq<usize>, pred: spec_fn(usize) -> bool, ps: Seq<usize>)
    requires
        forall|k: int, l: int| 0 <= k < l < ps.len() ==> ps[k] < ps[l],
        forall|k: int| 0 <= k < ps.len() ==> #[trigger] ps[k] < order.len() && pred(order[ps[k] as int]),
        forall|i: int|
            0 <= i < order.len() && pred(#[trigger] order[i]) ==> exists|k: int|
                0 <= k < ps.len() && ps[k] == i,
    ensures
        order.filter(pred) == ps.map_values(|p: usize| order[p as int]),
    decreases order.len(),
{
    reveal(Seq::filter);
    if order.len() == 0 {
        if ps.len() > 0 {
            assert(ps[0] < order.len());
        }
        assert(order.filter(pred) =~= ps.map_values(|p: usize| order[p as int]));
    } else {
        let n = order.len() - 1;
        let front = order.drop_last();
        let qs = if pred(order.last()) {
            ps.drop_last()
        } else {
            ps
        };
        if pred(order.last()) {
            let k = choose|k: int| 0 <= k < ps.len() && ps[k] == n;
            if k < ps.len() - 1 {
                assert(ps[k] < ps[k + 1]);
            }
            assert(ps.last() == n);
        }
        assert forall|k: int| 0 <= k < qs.len() implies #[trigger] qs[k] < front.len() && pred(
            front[qs[k] as int],
        ) by {
            assert(ps[k] == qs[k]);
            if pred(order.last()) {
                assert(ps[k] < ps[ps.len() - 1]);
            } else if ps[k] == n {
                assert(false);
            }
        }
        assert forall|i: int| 0 <= i < front.len() && pred(#[trigger] front[i]) implies exists|
            k: int,
        | 0 <= k < qs.len() && qs[k] == i by {
            assert(order[i] == front[i]);
            let k = choose|k: int| 0 <= k < ps.len() && ps[k] == i;
            assert(qs[k] == i);
        }
        lemma_filter_is(front, pred, qs);
        assert(order.filter(pred) =~= ps.map_values(|p: usize| order[p as int]));
    }
}

/// What the sweep of one component yields: its members, each once, in blocks
/// without conflict that are contiguous in the order of the sweep.
spec fn is_sweep(
    arcs: Set<(usize, usize)>,
    marked: Set<usize>,
    members: Seq<usize>,
    b: Seq<Seq<usize>>,
) -> bool {
    &&& members.len() > 0 ==> b.len() > 0 && b.last().contains(members.last())
    &&& forall|k: int| 0 <= k < b.len() ==> (#[trigger] b[k]).len() > 0
    &&& forall|k: int, n: usize|
        0 <= k < b.len() && #[trigger] b[k].contains(n) ==> members.contains(n)
    &&& forall|n: usize| #[trigger]
        members.contains(n) ==> exists|k: int| 0 <= k < b.len() && #[trigger] b[k].contains(n)
    &&& forall|k: int, l: int, n: usize|
        0 <= k < b.len() && 0 <= l < b.len() && #[trigger] b[k].contains(n)
            && #[trigger] b[l].contains(n) ==> k == l
    &&& forall|k: int, u: usize, v: usize|
        0 <= k < b.len() && #[trigger] b[k].contains(u) && #[trigger] b[k].contains(v) && u != v
            ==> !conflict(arcs, marked, u, v)
    &&& forall|k: int, i: int, j: int, l: int|
        0 <= k < b.len() && 0 <= i <= j <= l < members.len() && #[trigger] b[k].contains(
            #[trigger] members[i],
        ) && #[trigger] b[k].contains(#[trigger] members[l]) ==> b[k].contains(
            #[trigger] members[j],
        )
}

#[verifier::rlimit(50)]
proof fn lemma_sweep(arcs: Set<(usize, usize)>, marked: Set<usize>, members: Seq<usize>)
    requires
        members.no_duplicates(),
    ensures
        is_sweep(arcs, marked, members, sweep(arcs, marked, members)),
    decreases members.len(),
{
    let b = sweep(arcs, marked, members);
    if members.len() > 0 {
        let front = members.drop_last();
        let a = sweep(arcs, marked, front);
        let n = members.last();
        lemma_sweep(arcs, marked, front);
        assert(!front.contains(n)) by {
            if front.contains(n) {
                let i = choose|i: int| 0 <= i < front.len() && front[i] == n;
                assert(members[i] == members[members.len() - 1]);
            }
        }
        let fresh = a.len() == 0 || clashes(arcs, marked, a.last(), n);
        let last = b.len() - 1;
        let kept = if fresh {
            a.len() as int
        } else {
            a.len() - 1
        };
        assert(last == kept);
        assert(forall|k: int| 0 <= k < kept ==> b[k] == a[k]);
        assert(b[last].contains(n)) by {
            assert(b[last][b[last].len() - 1] == n);
        }
        assert forall|m: usize| #[trigger] b[last].contains(m) implies m == n || (!fresh && a[last].contains(m)) by {
            let i = choose|i: int| 0 <= i < b[last].len() && b[last][i] == m;
            if !fresh && i < a[last].len() {
                assert(a[last][i] == m);
            }
        }
        if !fresh {
            assert forall|m: usize| #[trigger] a[last].contains(m) implies b[last].contains(m) by {
                let i = choose|i: int| 0 <= i < a[last].len() && a[last][i] == m;
                assert(b[last][i] == m);
            }
        }
        assert forall|m: usize| #[trigger] members.contains(m) <==> m == n || front.contains(m) by {
            if members.contains(m) {
                let i = choose|i: int| 0 <= i < members.len() && members[i] == m;
                if i < front.len() {
                    assert(front[i] == m);
                }
            }
            if front.contains(m) {
                let i = choose|i: int| 0 <= i < front.len() && front[i] == m;
                assert(members[i] == m);
            }
            assert(members[members.len() - 1] == n);
        }
        assert forall|k: int, m: usize| 0 <= k < b.len() && #[trigger] b[k].contains(m) implies members.contains(m) by {
            if k < kept {
                assert(a[k].contains(m));
            } else if m != n {
                assert(a[last].contains(m));
            }
        }
        assert forall|m: usize| #[trigger] members.contains(m) implies exists|k: int|
            0 <= k < b.len() && #[trigger] b[k].contains(m) by {
            if m == n {
                assert(b[last].contains(m));
            } else {
                let k = choose|k: int| 0 <= k < a.len() && #[trigger] a[k].contains(m);
                assert(b[k].contains(m));
            }
        }
        assert forall|k: int, l: int, m: usize|
            0 <= k < b.len() && 0 <= l < b.len() && #[trigger] b[k].contains(m)
                && #[trigger] b[l].contains(m) implies k == l by {
            if m == n {
                if k < kept {
                    assert(a[k].contains(n));
                }
                if l < kept {
                    assert(a[l].contains(n));
                }
            } else {
                assert(k < kept || a[last].contains(m));
                assert(l < kept || a[last].contains(m));
                assert(a[k].contains(m) && a[l].contains(m));
            }
        }
        assert forall|k: int, u: usize, v: usize|
            0 <= k < b.len() && #[trigger] b[k].contains(u) && #[trigger] b[k].contains(v)
                && u != v implies !conflict(arcs, marked, u, v) by {
            if k < kept {
                assert(a[k].contains(u) && a[k].contains(v));
            } else if u == n {
                assert(a[last].contains(v));
            } else if v == n {
                assert(a[last].contains(u));
            } else {
                assert(a[last].contains(u) && a[last].contains(v));
            }
        }
        assert forall|k: int, i: int, j: int, l: int|
            0 <= k < b.len() && 0 <= i <= j <= l < members.len() && #[trigger] b[k].contains(
                #[trigger] members[i],
            ) && #[trigger] b[k].contains(#[trigger] members[l]) implies b[k].contains(
            #[trigger] members[j],
        ) by {
            let top = members.len() - 1;
            if l < top {
                assert(members[i] == front[i] && members[j] == front[j] && members[l] == front[l]);
                assert(members[i] != members[top] && members[l] != members[top]);
                assert(a[k].contains(front[i]) && a[k].contains(front[l]));
                assert(a[k].contains(front[j]));
                if k == last {
                    assert(b[last].contains(front[j]));
                }
            } else {
                assert(b[last].contains(members[l]));
                assert(k == last);
                if j < top {
                    assert(members[i] == front[i] && members[j] == front[j]);
                    assert(members[i] != members[top]);
                    assert(a[last].contains(front[i]));
                    assert(front[top - 1] == front.last());
                    assert(a[last].contains(front[top - 1]));
                    assert(a[last].contains(front[j]));
                }
            }
        }
    }
}

/// A walk between marked nodes keeps to marked nodes, or an unmarked one lies on
/// it.
proof fn lemma_walk_links(
    arcs: Set<(usize, usize)>,
    marked: Set<usize>,
    w: Seq<usize>,
    k: int,
)
    requires
        is_walk(arcs, w),
        marked.contains(w[0]),
        0 <= k < w.len(),
    ensures
        (marked.contains(w[k]) && linked(arcs, marked, w[0], w[k])) || exists|y: usize|
            !marked.contains(y) && #[trigger] reaches(arcs, w[0], y) && reaches_or_is(arcs, y, w[k]),
    decreases k,
{
    if k > 0 {
        lemma_walk_links(arcs, marked, w, k - 1);
        assert(arc_at(arcs, w, k - 1));
        let u = w[0];
        let p = w[k - 1];
        let v = w[k];
        lemma_reaches_arc(arcs, p, v);
        if marked.contains(p) && linked(arcs, marked, u, p) {
            if marked.contains(v) {
                assert(marked_links(arcs, marked).contains((p, v)));
                lemma_reaches_arc(marked_links(arcs, marked), p, v);
                lemma_linked_transitive(arcs, marked, u, p, v);
            } else {
                lemma_walk_reaches(arcs, w, k);
                assert(reaches(arcs, u, v) && reaches_or_is(arcs, v, v));
            }
        } else {
            let y = choose|y: usize|
                !marked.contains(y) && #[trigger] reaches(arcs, u, y) && reaches_or_is(arcs, y, p);
            if y != p {
                lemma_reaches_join(arcs, y, p, v);
            }
            assert(reaches(arcs, u, y) && reaches_or_is(arcs, y, v));
        }
    }
}

proof fn lemma_walk_reaches(arcs: Set<(usize, usize)>, w: Seq<usize>, k: int)
    requires
        is_walk(arcs, w),
        0 < k < w.len(),
    ensures
        reaches(arcs, w[0], w[k]),
{
    let t = w.take(k + 1);
    assert forall|i: int| 0 <= i < t.len() - 1 implies #[trigger] arc_at(arcs, t, i) by {
        assert(arc_at(arcs, w, i));
    }
    assert(is_walk_between(arcs, t, w[0], w[k]));
}

/// Between two marked nodes lies an unmarked one, or they are linked.
proof fn lemma_reaches_links(
    arcs: Set<(usize, usize)>,
    marked: Set<usize>,
    u: usize,
    x: usize,
)
    requires
        marked.contains(u),
        marked.contains(x),
        reaches(arcs, u, x),
    ensures
        linked(arcs, marked, u, x) || conflict(arcs, marked, u, x),
{
    let w = choose|w: Seq<usize>| is_walk_between(arcs, w, u, x);
    lemma_walk_links(arcs, marked, w, w.len() - 1);
    if !linked(arcs, marked, u, x) {
        let y = choose|y: usize|
            !marked.contains(y) && #[trigger] reaches(arcs, u, y) && reaches_or_is(arcs, y, x);
        assert(reaches(arcs, u, y) && reaches(arcs, y, x));
    }
}

/// The blocks of one component are convex.
proof fn lemma_sweep_convex(
    nodes: Set<usize>,
    arcs: Set<(usize, usize)>,
    marked: Set<usize>,
    order: Seq<usize>,
    head: usize,
    k: int,
)
    requires
        topological(order, nodes, arcs),
        marked.subset_of(nodes),
        marked.contains(head),
        0 <= k < sweep(arcs, marked, component_members(arcs, marked, order, head)).len(),
    ensures
        is_convex(
            arcs,
            sweep(arcs, marked, component_members(arcs, marked, order, head))[k].to_set(),
        ),
{
    let pred = |n: usize| linked(arcs, marked, head, n);
    let members = component_members(arcs, marked, order, head);
    let b = sweep(arcs, marked, members);
    let block = b[k];
    let ps = lemma_filter_positions(order, pred);
    lemma_members(nodes, arcs, marked, order, head);
    lemma_sweep(arcs, marked, members);
    lemma_topological_acyclic(order, nodes, arcs);
    assert forall|u: usize, x: usize, v: usize|
        block.to_set().contains(u) && block.to_set().contains(v) && #[trigger] reaches(arcs, u, x)
            && #[trigger] reaches(arcs, x, v) implies block.to_set().contains(x) by {
        assert(b[k].contains(u) && b[k].contains(v));
        assert(members.contains(u) && members.contains(v));
        lemma_reaches_join(arcs, u, x, v);
        assert(!reaches(arcs, u, u));
        assert(u != v);
        assert(!conflict(arcs, marked, u, v));
        lemma_linked_marked(arcs, marked, head, u);
        if !marked.contains(x) {
            assert(reaches(arcs, u, x) && reaches(arcs, x, v));
            assert(false);
        }
        lemma_reaches_links(arcs, marked, u, x);
        if conflict(arcs, marked, u, x) {
            let y = choose|y: usize|
                !marked.contains(y) && #[trigger] reaches(arcs, u, y) && #[trigger] reaches(
                    arcs,
                    y,
                    x,
                );
            lemma_reaches_join(arcs, y, x, v);
            assert(reaches(arcs, u, y) && reaches(arcs, y, v));
            assert(false);
        }
        lemma_linked_transitive(arcs, marked, head, u, x);
        assert(members.contains(x));
        let iu = choose|i: int| 0 <= i < members.len() && members[i] == u;
        let ix = choose|i: int| 0 <= i < members.len() && members[i] == x;
        let iv = choose|i: int| 0 <= i < members.len() && members[i] == v;
        assert(order[ps[iu]] == u && order[ps[ix]] == x && order[ps[iv]] == v);
        lemma_reaches_forward(order, nodes, arcs, ps[iu], ps[ix]);
        lemma_reaches_forward(order, nodes, arcs, ps[ix], ps[iv]);
        if ix < iu {
            assert(ps[ix] < ps[iu]);
        }
        if iv < ix {
            assert(ps[iv] < ps[ix]);
        }
        assert(b[k].contains(members[iu]) && b[k].contains(members[iv]));
        assert(b[k].contains(members[ix]));
    }
}

/// The members of a component are what is linked to its head, each once.
proof fn lemma_members(
    nodes: Set<usize>,
    arcs: Set<(usize, usize)>,
    marked: Set<usize>,
    order: Seq<usize>,
    head: usize,
)
    requires
        topological(order, nodes, arcs),
        marked.subset_of(nodes),
        marked.contains(head),
    ensures
        component_members(arcs, marked, order, head).no_duplicates(),
        forall|n: usize| #[trigger]
            component_members(arcs, marked, order, head).contains(n) <==> linked(
                arcs,
                marked,
                head,
                n,
            ),
{
    let pred = |n: usize| linked(arcs, marked, head, n);
    let members = component_members(arcs, marked, order, head);
    let ps = lemma_filter_positions(order, pred);
    assert forall|i: int, j: int| 0 <= i < j < members.len() implies members[i] != members[j] by {
        assert(ps[i] < ps[j]);
    }
    assert forall|n: usize| #[trigger] members.contains(n) <==> linked(arcs, marked, head, n) by {
        if members.contains(n) {
            let k = choose|k: int| 0 <= k < members.len() && members[k] == n;
            assert(pred(order[ps[k]]));
        }
        if linked(arcs, marked, head, n) {
            lemma_linked_marked(arcs, marked, head, n);
            assert(order.to_set().contains(n));
            let i = choose|i: int| 0 <= i < order.len() && order[i] == n;
            assert(pred(order[i]));
            let k = choose|k: int| 0 <= k < ps.len() && ps[k] == i;
            assert(members[k] == n);
        }
    }
}

/// The component blocks as a partition of what is linked to one of the heads.
#[verifier::rlimit(50)]
proof fn lemma_component_blocks(
    nodes: Set<usize>,
    arcs: Set<(usize, usize)>,
    marked: Set<usize>,
    order: Seq<usize>,
    heads: Seq<usize>,
)
    requires
        topological(order, nodes, arcs),
        marked.subset_of(nodes),
        forall|i: int| 0 <= i < heads.len() ==> marked.contains(#[trigger] heads[i]),
        forall|i: int, j: int|
            0 <= i < j < heads.len() ==> !linked(arcs, marked, #[trigger] heads[i], #[trigger] heads[j]),
    ensures
        ({
            let b = component_blocks(arcs, marked, order, heads);
            &&& forall|k: int| 0 <= k < b.len() ==> (#[trigger] b[k]).len() > 0
            &&& forall|k: int| 0 <= k < b.len() ==> is_convex(arcs, (#[trigger] b[k]).to_set())
            &&& forall|k: int, n: usize|
                0 <= k < b.len() && #[trigger] b[k].contains(n) ==> exists|i: int|
                    0 <= i < heads.len() && linked(arcs, marked, #[trigger] heads[i], n)
            &&& forall|k: int, u: usize, v: usize|
                0 <= k < b.len() && #[trigger] b[k].contains(u) && #[trigger] b[k].contains(v)
                    ==> linked(arcs, marked, u, v)
            &&& forall|i: int, n: usize|
                0 <= i < heads.len() && #[trigger] linked(arcs, marked, heads[i], n) ==> exists|
                    k: int,
                | 0 <= k < b.len() && #[trigger] b[k].contains(n)
            &&& forall|k: int, l: int, n: usize|
                0 <= k < b.len() && 0 <= l < b.len() && #[trigger] b[k].contains(n)
                    && #[trigger] b[l].contains(n) ==> k == l
        }),
    decreases heads.len(),
{
    let b = component_blocks(arcs, marked, order, heads);
    if heads.len() > 0 {
        let front = heads.drop_last();
        let h = heads.last();
        let a = component_blocks(arcs, marked, order, front);
        let members = component_members(arcs, marked, order, h);
        let s = sweep(arcs, marked, members);
        lemma_component_blocks(nodes, arcs, marked, order, front);
        lemma_members(nodes, arcs, marked, order, h);
        lemma_sweep(arcs, marked, members);
        let top = heads.len() - 1;
        assert(heads[top] == h);
        assert(b == a + s);
        assert(forall|k: int| 0 <= k < a.len() ==> b[k] == a[k]);
        assert(forall|k: int| a.len() <= k < b.len() ==> b[k] == s[k - a.len()]);
        assert forall|k: int| 0 <= k < b.len() implies is_convex(arcs, (#[trigger] b[k]).to_set()) by {
            if k >= a.len() {
                lemma_sweep_convex(nodes, arcs, marked, order, h, k - a.len());
            }
        }
        assert forall|k: int, n: usize| 0 <= k < b.len() && #[trigger] b[k].contains(n) implies exists|
            i: int,
        | 0 <= i < heads.len() && linked(arcs, marked, #[trigger] heads[i], n) by {
            if k < a.len() {
                assert(a[k].contains(n));
                let i = choose|i: int|
                    0 <= i < front.len() && linked(arcs, marked, #[trigger] front[i], n);
                assert(heads[i] == front[i]);
            } else {
                assert(s[k - a.len()].contains(n));
                assert(members.contains(n));
                assert(linked(arcs, marked, heads[top], n));
            }
        }
        assert forall|k: int, u: usize, v: usize|
            0 <= k < b.len() && #[trigger] b[k].contains(u) && #[trigger] b[k].contains(
                v,
            ) implies linked(arcs, marked, u, v) by {
            if k < a.len() {
                assert(a[k].contains(u) && a[k].contains(v));
            } else {
                assert(s[k - a.len()].contains(u) && s[k - a.len()].contains(v));
                assert(members.contains(u) && members.contains(v));
                lemma_linked_symmetric(arcs, marked, h, u);
                lemma_linked_transitive(arcs, marked, u, h, v);
            }
        }
        assert forall|i: int, n: usize|
            0 <= i < heads.len() && #[trigger] linked(arcs, marked, heads[i], n) implies exists|
            k: int,
        | 0 <= k < b.len() && #[trigger] b[k].contains(n) by {
            if i < top {
                assert(linked(arcs, marked, front[i], n));
                let k = choose|k: int| 0 <= k < a.len() && #[trigger] a[k].contains(n);
                assert(b[k].contains(n));
            } else {
                assert(members.contains(n));
                let k = choose|k: int| 0 <= k < s.len() && #[trigger] s[k].contains(n);
                assert(b[a.len() + k].contains(n));
            }
        }
        assert forall|k: int, l: int, n: usize|
            0 <= k < b.len() && 0 <= l < b.len() && #[trigger] b[k].contains(n)
                && #[trigger] b[l].contains(n) implies k == l by {
            if k >= a.len() && l >= a.len() {
                assert(s[k - a.len()].contains(n) && s[l - a.len()].contains(n));
            } else if k < a.len() && l < a.len() {
                assert(a[k].contains(n) && a[l].contains(n));
            } else {
                let lo = if k < l {
                    k
                } else {
                    l
                };
                let hi = if k < l {
                    l
                } else {
                    k
                };
                assert(a[lo].contains(n));
                assert(s[hi - a.len()].contains(n));
                assert(members.contains(n));
                let i = choose|i: int|
                    0 <= i < front.len() && linked(arcs, marked, #[trigger] front[i], n);
                lemma_linked_symmetric(arcs, marked, h, n);
                lemma_linked_transitive(arcs, marked, front[i], n, h);
                assert(heads[i] == front[i]);
                assert(linked(arcs, marked, heads[i], heads[top]));
                assert(false);
            }
        }
    }
}

/// Every marked node has a head that it is linked to: the least node it is linked
/// to.
proof fn lemma_has_head(arcs: Set<(usize, usize)>, marked: Set<usize>, n: usize) -> (h: usize)
    requires
        marked.contains(n),
    ensures
        is_head(arcs, marked, h),
        linked(arcs, marked, h, n),
    decreases n,
{
    if is_head(arcs, marked, n) {
        n
    } else {
        let m = choose|m: usize|
            m < n && marked.contains(m) && #[trigger] linked(arcs, marked, n, m);
        let h = lemma_has_head(arcs, marked, m);
        lemma_linked_symmetric(arcs, marked, n, m);
        lemma_linked_transitive(arcs, marked, h, m, n);
        h
    }
}

/// The blocks of a sweep, in whatever topological order, are a partition of the
/// marked nodes into convex blocks.
pub proof fn law_swept_partition_is_convex(
    nodes: Set<usize>,
    arcs: Set<(usize, usize)>,
    marked: Set<usize>,
    order: Seq<usize>,
    blocks: Seq<Set<usize>>,
)
    requires
        swept_partition(nodes, arcs, marked, order, blocks),
        marked.subset_of(nodes),
    ensures
        convex_partition(arcs, marked, blocks),
{
    let heads = choose|heads: Seq<usize>| #[trigger]
        component_heads(arcs, marked, heads) && blocks == as_sets(
            component_blocks(arcs, marked, order, heads),
        );
    let b = component_blocks(arcs, marked, order, heads);
    assert(blocks.len() == b.len());
    assert(forall|k: int| 0 <= k < b.len() ==> blocks[k] == b[k].to_set());
    assert forall|i: int| 0 <= i < heads.len() implies marked.contains(#[trigger] heads[i]) by {
        assert(heads.contains(heads[i]));
    }
    assert forall|i: int, j: int| 0 <= i < j < heads.len() implies !linked(
        arcs,
        marked,
        #[trigger] heads[i],
        #[trigger] heads[j],
    ) by {
        assert(heads.contains(heads[i]) && heads.contains(heads[j]));
        assert(heads[i] < heads[j]);
        if linked(arcs, marked, heads[i], heads[j]) {
            lemma_linked_symmetric(arcs, marked, heads[i], heads[j]);
            assert(is_head(arcs, marked, heads[j]));
            assert(false);
        }
    }
    lemma_component_blocks(nodes, arcs, marked, order, heads);
    assert forall|k: int| 0 <= k < blocks.len() implies #[trigger] blocks[k] != Set::<usize>::empty() by {
        assert(b[k].len() > 0);
        assert(b[k].contains(b[k][0]));
        assert(blocks[k].contains(b[k][0]));
    }
    assert forall|n: usize| #[trigger] marked.contains(n) <==> exists|k: int|
        0 <= k < blocks.len() && #[trigger] blocks[k].contains(n) by {
        if marked.contains(n) {
            let h = lemma_has_head(arcs, marked, n);
            assert(heads.contains(h));
            let i = choose|i: int| 0 <= i < heads.len() && heads[i] == h;
            assert(linked(arcs, marked, heads[i], n));
            let k = choose|k: int| 0 <= k < b.len() && #[trigger] b[k].contains(n);
            assert(blocks[k].contains(n));
        }
        if exists|k: int| 0 <= k < blocks.len() && #[trigger] blocks[k].contains(n) {
            let k = choose|k: int| 0 <= k < blocks.len() && #[trigger] blocks[k].contains(n);
            assert(b[k].contains(n));
            let i = choose|i: int| 0 <= i < heads.len() && linked(arcs, marked, #[trigger] heads[i], n);
            lemma_linked_marked(arcs, marked, heads[i], n);
        }
    }
    assert forall|k: int, l: int, n: usize|
        0 <= k < blocks.len() && 0 <= l < blocks.len() && #[trigger] blocks[k].contains(n)
            && #[trigger] blocks[l].contains(n) implies k == l by {
        assert(b[k].contains(n) && b[l].contains(n));
    }
    assert forall|k: int, u: usize, v: usize|
        0 <= k < blocks.len() && #[trigger] blocks[k].contains(u) && #[trigger] blocks[k].contains(
            v,
        ) implies linked(arcs, marked, u, v) by {
        assert(b[k].contains(u) && b[k].contains(v));
    }
}

/// An unmarked node as the sweep of one component sees it: the members that reach
/// it, and the members that it reaches, by position.
struct Witness {
    px: FixedBitSet,
    sx: FixedBitSet,
}

/// `w` stands for the node at position `x`.
spec fn witness_of(
    w: Witness,
    arcs: Set<(usize, usize)>,
    order: Seq<usize>,
    comp: Set<usize>,
    x: int,
) -> bool {
    &&& forall|p: usize| #[trigger]
        bit_members(w.px).contains(p) <==> comp.contains(p) && reaches(arcs, order[p as int], order[x])
    &&& forall|p: usize| #[trigger]
        bit_members(w.sx).contains(p) <==> comp.contains(p) && reaches(arcs, order[x], order[p as int])
}

/// `w` stands for an unmarked node.
spec fn is_witness(
    w: Witness,
    arcs: Set<(usize, usize)>,
    marked: Set<usize>,
    order: Seq<usize>,
    comp: Set<usize>,
) -> bool {
    exists|x: int|
        0 <= x < order.len() && !marked.contains(order[x]) && #[trigger] witness_of(
            w,
            arcs,
            order,
            comp,
            x,
        )
}

/// No member of the component can be told apart by the node at position `x`: none
/// reaches it, or it reaches none.
spec fn no_witness(arcs: Set<(usize, usize)>, order: Seq<usize>, comp: Set<usize>, x: int) -> bool {
    ||| forall|p: usize| comp.contains(p) ==> !reaches(arcs, #[trigger] order[p as int], order[x])
    ||| forall|p: usize| comp.contains(p) ==> !reaches(arcs, order[x], #[trigger] order[p as int])
}

/// The unmarked nodes between members of a component.
#[verifier::rlimit(50)]
fn witnesses(
    g: &DiGraph,
    marked: &HashSet<usize>,
    order: &Vec<usize>,
    rows: &Vec<FixedBitSet>,
    comp_pos: &Vec<usize>,
    in_comp: &FixedBitSet,
) -> (ws: Vec<Witness>)
    requires
        rows@.len() == order@.len(),
        forall|k: int|
            0 <= k < order@.len() ==> is_reach_row(#[trigger] rows@[k], arcs(*g), order@, k),
        forall|k: int| 0 <= k < comp_pos@.len() ==> #[trigger] comp_pos@[k] < order@.len(),
        comp_pos@.to_set() == bit_members(*in_comp),
    ensures
        forall|i: int|
            0 <= i < ws@.len() ==> is_witness(#[trigger] ws@[i], arcs(*g), marked@, order@, bit_members(*in_comp)),
        forall|x: int|
            0 <= x < order@.len() && !marked@.contains(order@[x]) ==> #[trigger] no_witness(
                arcs(*g),
                order@,
                bit_members(*in_comp),
                x,
            ) || exists|i: int|
                0 <= i < ws@.len() && witness_of(
                    #[trigger] ws@[i],
                    arcs(*g),
                    order@,
                    bit_members(*in_comp),
                    x,
                ),
{
    let ghost a = arcs(*g);
    let ghost comp = bit_members(*in_comp);
    let mut ws: Vec<Witness> = Vec::new();
    let mut x: usize = 0;
    while x < order.len()
        invariant
            a == arcs(*g),
            comp == bit_members(*in_comp),
            rows@.len() == order@.len(),
            forall|k: int|
                0 <= k < order@.len() ==> is_reach_row(#[trigger] rows@[k], a, order@, k),
            forall|k: int| 0 <= k < comp_pos@.len() ==> #[trigger] comp_pos@[k] < order@.len(),
            comp_pos@.to_set() == comp,
            x <= order@.len(),
            forall|i: int|
                0 <= i < ws@.len() ==> is_witness(#[trigger] ws@[i], a, marked@, order@, comp),
            forall|y: int|
                0 <= y < x && !marked@.contains(order@[y]) ==> #[trigger] no_witness(
                    a,
                    order@,
                    comp,
                    y,
                ) || exists|i: int|
                    0 <= i < ws@.len() && witness_of(#[trigger] ws@[i], a, order@, comp, y),
        decreases order@.len() - x,
    {
        if !marked.contains(&order[x]) {
            let mut sx = rows[x].clone();
            sx.intersect_with(in_comp);
            let px = reaching(g, order, rows, comp_pos, x);
            let ghost w = Witness { px, sx };
            proof {
                assert(is_reach_row(rows@[x as int], a, order@, x as int));
                assert forall|p: usize| comp.contains(p) implies p < order@.len() by {
                    assert(comp_pos@.contains(p));
                }
                assert(witness_of(w, a, order@, comp, x as int));
            }
            if count_all_ones(&sx) > 0 && count_all_ones(&px) > 0 {
                let ghost ws0 = ws@;
                ws.push(Witness { px, sx });
                proof {
                    assert(ws@[ws0.len() as int] == w);
                    assert forall|i: int| 0 <= i < ws@.len() implies is_witness(#[trigger] ws@[i], a, marked@, order@, comp) by {
                        if i < ws0.len() {
                            assert(ws@[i] == ws0[i]);
                        } else {
                            assert(witness_of(ws@[i], a, order@, comp, x as int));
                        }
                    }
                    assert forall|y: int|
                        0 <= y < x + 1 && !marked@.contains(order@[y]) implies #[trigger] no_witness(
                        a,
                        order@,
                        comp,
                        y,
                    ) || exists|i: int|
                        0 <= i < ws@.len() && witness_of(#[trigger] ws@[i], a, order@, comp, y) by {
                        if y < x && !no_witness(a, order@, comp, y) {
                            let i = choose|i: int|
                                0 <= i < ws0.len() && witness_of(#[trigger] ws0[i], a, order@, comp, y);
                            assert(ws@[i] == ws0[i]);
                        } else if y == x {
                            assert(witness_of(ws@[ws0.len() as int], a, order@, comp, y));
                        }
                    }
                }
            } else {
                proof {
                    assert(no_witness(a, order@, comp, x as int)) by {
                        if !exists|i: usize| bit_members(sx).contains(i) {
                            assert forall|p: usize| comp.contains(p) implies !reaches(
                                a,
                                order@[x as int],
                                #[trigger] order@[p as int],
                            ) by {
                                assert(!bit_members(w.sx).contains(p));
                            }
                        } else {
                            assert forall|p: usize| comp.contains(p) implies !reaches(
                                a,
                                #[trigger] order@[p as int],
                                order@[x as int],
                            ) by {
                                assert(!bit_members(w.px).contains(p));
                            }
                        }
                    }
                }
            }
        }
        x = x + 1;
    }
    ws
}

/// The members that reach the node at position `x`.
fn reaching(
    g: &DiGraph,
    order: &Vec<usize>,
    rows: &Vec<FixedBitSet>,
    comp_pos: &Vec<usize>,
    x: usize,
) -> (px: FixedBitSet)
    requires
        x < order@.len(),
        rows@.len() == order@.len(),
        forall|k: int|
            0 <= k < order@.len() ==> is_reach_row(#[trigger] rows@[k], arcs(*g), order@, k),
        forall|k: int| 0 <= k < comp_pos@.len() ==> #[trigger] comp_pos@[k] < order@.len(),
    ensures
        forall|p: usize| #[trigger]
            bit_members(px).contains(p) <==> comp_pos@.contains(p) && reaches(
                arcs(*g),
                order@[p as int],
                order@[x as int],
            ),
{
    let ghost a = arcs(*g);
    let mut px = FixedBitSet::with_capacity(order.len());
    let mut k: usize = 0;
    while k < comp_pos.len()
        invariant
            a == arcs(*g),
            x < order@.len(),
            rows@.len() == order@.len(),
            forall|k: int|
                0 <= k < order@.len() ==> is_reach_row(#[trigger] rows@[k], a, order@, k),
            forall|k: int| 0 <= k < comp_pos@.len() ==> #[trigger] comp_pos@[k] < order@.len(),
            k <= comp_pos@.len(),
            bit_len(px) == order@.len(),
            forall|p: usize| #[trigger]
                bit_members(px).contains(p) <==> (exists|j: int|
                    0 <= j < k && #[trigger] comp_pos@[j] == p) && reaches(
                    a,
                    order@[p as int],
                    order@[x as int],
                ),
        decreases comp_pos@.len() - k,
    {
        let u = comp_pos[k];
        assert(is_reach_row(rows@[u as int], a, order@, u as int));
        if rows[u].contains(x) {
            px.insert(u);
        }
        k = k + 1;
    }
    px
}

/// Whether two sets of bits have one in common.
fn intersects(a: &FixedBitSet, b: &FixedBitSet) -> (r: bool)
    ensures
        r <==> exists|i: usize| #[trigger] bit_members(*a).contains(i) && bit_members(*b).contains(i),
{
    let mut tmp = a.clone();
    tmp.intersect_with(b);
    let r = count_all_ones(&tmp) > 0;
    proof {
        if r {
            let i = choose|i: usize| bit_members(tmp).contains(i);
            assert(bit_members(*a).contains(i) && bit_members(*b).contains(i));
        }
        if exists|i: usize| #[trigger] bit_members(*a).contains(i) && bit_members(*b).contains(i) {
            let i = choose|i: usize| #[trigger]
                bit_members(*a).contains(i) && bit_members(*b).contains(i);
            assert(bit_members(tmp).contains(i));
        }
    }
    r
}

/// Whether the member at position `p` clashes with the block of these positions.
#[verifier::rlimit(50)]
fn would_violate(
    g: &DiGraph,
    marked: &HashSet<usize>,
    order: &Vec<usize>,
    in_comp: &FixedBitSet,
    ws: &Vec<Witness>,
    block_bits: &FixedBitSet,
    p: usize,
) -> (r: bool)
    requires
        topological(order@, graph_nodes(*g), arcs(*g)),
        p < order@.len(),
        bit_members(*in_comp).contains(p),
        bit_members(*block_bits).subset_of(bit_members(*in_comp)),
        forall|i: int|
            0 <= i < ws@.len() ==> is_witness(#[trigger] ws@[i], arcs(*g), marked@, order@, bit_members(*in_comp)),
        forall|x: int|
            0 <= x < order@.len() && !marked@.contains(order@[x]) ==> #[trigger] no_witness(
                arcs(*g),
                order@,
                bit_members(*in_comp),
                x,
            ) || exists|i: int|
                0 <= i < ws@.len() && witness_of(
                    #[trigger] ws@[i],
                    arcs(*g),
                    order@,
                    bit_members(*in_comp),
                    x,
                ),
    ensures
        r <==> exists|q: usize| #[trigger]
            bit_members(*block_bits).contains(q) && (conflict(
                arcs(*g),
                live_marked(*g, marked@),
                order@[q as int],
                order@[p as int],
            ) || conflict(
                arcs(*g),
                live_marked(*g, marked@),
                order@[p as int],
                order@[q as int],
            )),
{
    let ghost a = arcs(*g);
    let ghost m = live_marked(*g, marked@);
    let ghost comp = bit_members(*in_comp);
    let ghost bits = bit_members(*block_bits);
    let mut i: usize = 0;
    while i < ws.len()
        invariant
            a == arcs(*g),
            m == live_marked(*g, marked@),
            comp == bit_members(*in_comp),
            bits == bit_members(*block_bits),
            comp.contains(p),
            bits.subset_of(comp),
            forall|i: int|
                0 <= i < ws@.len() ==> is_witness(#[trigger] ws@[i], a, marked@, order@, comp),
            i <= ws@.len(),
            forall|k: int, q: usize|
                0 <= k < i && #[trigger] bits.contains(q) ==> !(bit_members(
                    (#[trigger] ws@[k]).px,
                ).contains(p) && bit_members(ws@[k].sx).contains(q)) && !(bit_members(
                    ws@[k].sx,
                ).contains(p) && bit_members(ws@[k].px).contains(q)),
        decreases ws@.len() - i,
    {
        let w = &ws[i];
        let hit = (w.px.contains(p) && intersects(block_bits, &w.sx)) || (w.sx.contains(p)
            && intersects(block_bits, &w.px));
        if hit {
            proof {
                let x = choose|x: int|
                    0 <= x < order@.len() && !marked@.contains(order@[x]) && #[trigger] witness_of(
                        *w,
                        a,
                        order@,
                        comp,
                        x,
                    );
                let n = order@[x];
                assert(!m.contains(n));
                if bit_members(w.px).contains(p) && exists|q: usize| #[trigger]
                    bits.contains(q) && bit_members(w.sx).contains(q) {
                    let q = choose|q: usize| #[trigger]
                        bits.contains(q) && bit_members(w.sx).contains(q);
                    assert(reaches(a, order@[p as int], n) && reaches(a, n, order@[q as int]));
                    assert(conflict(a, m, order@[p as int], order@[q as int]));
                } else {
                    let q = choose|q: usize| #[trigger]
                        bits.contains(q) && bit_members(w.px).contains(q);
                    assert(reaches(a, order@[q as int], n) && reaches(a, n, order@[p as int]));
                    assert(conflict(a, m, order@[q as int], order@[p as int]));
                }
            }
            return true;
        }
        i = i + 1;
    }
    proof {
        assert forall|q: usize| #[trigger] bits.contains(q) implies !conflict(
            a,
            m,
            order@[q as int],
            order@[p as int],
        ) && !conflict(a, m, order@[p as int], order@[q as int]) by {
            let (u, v) = (order@[q as int], order@[p as int]);
            if conflict(a, m, u, v) {
                let n = choose|n: usize|
                    !m.contains(n) && #[trigger] reaches(a, u, n) && #[trigger] reaches(a, n, v);
                lemma_reaches_ends(a, graph_nodes(*g), u, n);
                assert(order@.to_set().contains(n));
                let x = choose|x: int| 0 <= x < order@.len() && order@[x] == n;
                assert(!no_witness(a, order@, comp, x)) by {
                    assert(reaches(a, order@[q as int], order@[x]));
                    assert(reaches(a, order@[x], order@[p as int]));
                }
                let k = choose|k: int|
                    0 <= k < ws@.len() && witness_of(#[trigger] ws@[k], a, order@, comp, x);
                assert(bit_members(ws@[k].px).contains(q) && bit_members(ws@[k].sx).contains(p));
            }
            if conflict(a, m, v, u) {
                let n = choose|n: usize|
                    !m.contains(n) && #[trigger] reaches(a, v, n) && #[trigger] reaches(a, n, u);
                lemma_reaches_ends(a, graph_nodes(*g), v, n);
                assert(order@.to_set().contains(n));
                let x = choose|x: int| 0 <= x < order@.len() && order@[x] == n;
                assert(!no_witness(a, order@, comp, x)) by {
                    assert(reaches(a, order@[p as int], order@[x]));
                    assert(reaches(a, order@[x], order@[q as int]));
                }
                let k = choose|k: int|
                    0 <= k < ws@.len() && witness_of(#[trigger] ws@[k], a, order@, comp, x);
                assert(bit_members(ws@[k].sx).contains(q) && bit_members(ws@[k].px).contains(p));
            }
        }
    }
    false
}

/// `bits` holds the positions of the nodes of `block`.
spec fn block_positions(bits: Set<usize>, order: Seq<usize>, block: Seq<usize>) -> bool {
    forall|q: usize| #[trigger]
        bits.contains(q) <==> q < order.len() && block.contains(order[q as int])
}

/// The blocks of one component, given the positions of its members.
#[verifier::rlimit(50)]
fn sweep_component(
    g: &DiGraph,
    marked: &HashSet<usize>,
    order: &Vec<usize>,
    rows: &Vec<FixedBitSet>,
    comp_pos: &Vec<usize>,
    in_comp: &FixedBitSet,
) -> (blocks: Vec<HashSet<usize>>)
    requires
        topological(order@, graph_nodes(*g), arcs(*g)),
        rows@.len() == order@.len(),
        forall|k: int|
            0 <= k < order@.len() ==> is_reach_row(#[trigger] rows@[k], arcs(*g), order@, k),
        forall|k: int| 0 <= k < comp_pos@.len() ==> #[trigger] comp_pos@[k] < order@.len(),
        forall|k: int, l: int| 0 <= k < l < comp_pos@.len() ==> comp_pos@[k] < comp_pos@[l],
        comp_pos@.to_set() == bit_members(*in_comp),
    ensures
        set_views(blocks@) == as_sets(
            sweep(
                arcs(*g),
                live_marked(*g, marked@),
                comp_pos@.map_values(|p: usize| order@[p as int]),
            ),
        ),
{
    let ghost a = arcs(*g);
    let ghost m = live_marked(*g, marked@);
    let ghost members = comp_pos@.map_values(|p: usize| order@[p as int]);
    let ws = witnesses(g, marked, order, rows, comp_pos, in_comp);
    let mut out: Vec<HashSet<usize>> = Vec::new();
    let mut current: HashSet<usize> = HashSet::new();
    let n_order: usize = order.len();
    let mut block_bits = FixedBitSet::with_capacity(n_order);
    let mut k: usize = 0;
    proof {
        assert(members.take(0) =~= Seq::empty());
        assert(set_views(out@) =~= as_sets(sweep(a, m, members.take(0))));
    }
    while k < comp_pos.len()
        invariant
            a == arcs(*g),
            m == live_marked(*g, marked@),
            topological(order@, graph_nodes(*g), a),
            members == comp_pos@.map_values(|p: usize| order@[p as int]),
            forall|k: int| 0 <= k < comp_pos@.len() ==> #[trigger] comp_pos@[k] < order@.len(),
            forall|k: int, l: int| 0 <= k < l < comp_pos@.len() ==> comp_pos@[k] < comp_pos@[l],
            comp_pos@.to_set() == bit_members(*in_comp),
            forall|i: int|
                0 <= i < ws@.len() ==> is_witness(#[trigger] ws@[i], a, marked@, order@, bit_members(*in_comp)),
            forall|x: int|
                0 <= x < order@.len() && !marked@.contains(order@[x]) ==> #[trigger] no_witness(
                    a,
                    order@,
                    bit_members(*in_comp),
                    x,
                ) || exists|i: int|
                    0 <= i < ws@.len() && witness_of(
                        #[trigger] ws@[i],
                        a,
                        order@,
                        bit_members(*in_comp),
                        x,
                    ),
            k <= comp_pos@.len(),
            n_order == order@.len(),
            bit_len(block_bits) == order@.len(),
            bit_members(block_bits).subset_of(bit_members(*in_comp)),
            k == 0 ==> out@.len() == 0 && current@ == Set::<usize>::empty() && bit_members(
                block_bits,
            ) == Set::<usize>::empty(),
            k > 0 ==> ({
                let b = sweep(a, m, members.take(k as int));
                &&& b.len() > 0
                &&& set_views(out@) == as_sets(b.drop_last())
                &&& current@ == b.last().to_set()
                &&& b.last().len() > 0
                &&& block_positions(bit_members(block_bits), order@, b.last())
            }),
        decreases comp_pos@.len() - k,
    {
        let p = comp_pos[k];
        proof {
            assert(comp_pos@.to_set().contains(p));
        }
        let violates = would_violate(g, marked, order, in_comp, &ws, &block_bits, p);
        let ghost done = members.take(k as int);
        let ghost b = sweep(a, m, done);
        let ghost n = order@[p as int];
        let ghost next = members.take(k + 1);
        let ghost out0 = out@;
        proof {
            assert(next =~= done.push(n));
            assert(next.drop_last() =~= done);
            assert(next.last() == n);
            if k > 0 {
                assert(b.last().contains(b.last()[0]));
                assert(current@.contains(b.last()[0]));
                assert(violates <==> clashes(a, m, b.last(), n)) by {
                    if violates {
                        let q = choose|q: usize| #[trigger]
                            bit_members(block_bits).contains(q) && (conflict(
                                a,
                                m,
                                order@[q as int],
                                order@[p as int],
                            ) || conflict(a, m, order@[p as int], order@[q as int]));
                        assert(b.last().contains(order@[q as int]));
                    }
                    if clashes(a, m, b.last(), n) {
                        let u = choose|u: usize| #[trigger]
                            b.last().contains(u) && (conflict(a, m, u, n) || conflict(a, m, n, u));
                        assert(order@.contains(u)) by {
                            lemma_conflict_ends(a, graph_nodes(*g), m, u, n);
                            assert(order@.to_set().contains(u));
                        }
                        let q = choose|q: int| 0 <= q < order@.len() && order@[q] == u;
                        assert(q < n_order);
                        assert(bit_members(block_bits).contains(q as usize));
                    }
                }
            } else {
                assert(done =~= Seq::empty());
            }
        }
        if violates && !current.is_empty() {
            out.push(current);
            current = HashSet::new();
            block_bits.clear();
            proof {
                assert(k > 0);
                lemma_as_sets_last(b);
                assert(set_views(out@) =~= set_views(out0).push(b.last().to_set()));
            }
        }
        let ghost prev = if k > 0 && !clashes(a, m, b.last(), n) {
            b.last()
        } else {
            Seq::empty()
        };
        assert(current@ =~= prev.to_set());
        assert(block_positions(bit_members(block_bits), order@, prev));
        let ghost bits0 = bit_members(block_bits);
        current.insert(order[p]);
        block_bits.insert(p);
        proof {
            let c = sweep(a, m, next);
            assert(c.last() =~= prev.push(n));
            assert(set_views(out@) =~= as_sets(c.drop_last()));
            prev.lemma_push_to_set_commute(n);
            assert(current@ =~= c.last().to_set());
            assert forall|q: usize| #[trigger] bit_members(block_bits).contains(q) <==> q
                < order@.len() && c.last().contains(order@[q as int]) by {
                assert(prev.push(n)[prev.len() as int] == n);
                if bits0.contains(q) {
                    let i = choose|i: int| 0 <= i < prev.len() && prev[i] == order@[q as int];
                    assert(prev.push(n)[i] == order@[q as int]);
                }
                if q < order@.len() && prev.push(n).contains(order@[q as int]) {
                    let i = choose|i: int|
                        0 <= i < prev.push(n).len() && prev.push(n)[i] == order@[q as int];
                    if i < prev.len() {
                        assert(prev[i] == order@[q as int]);
                        assert(bits0.contains(q));
                    } else {
                        assert(order@[q as int] == order@[p as int]);
                    }
                }
            }
        }
        k = k + 1;
    }
    proof {
        assert(members.take(members.len() as int) =~= members);
        if k > 0 {
            let b = sweep(a, m, members);
            lemma_as_sets_last(b);
            assert(b.last().contains(b.last()[0]));
            assert(current@.contains(b.last()[0]));
        }
    }
    let ghost out0 = out@;
    if !current.is_empty() {
        out.push(current);
        proof {
            assert(set_views(out@) =~= set_views(out0).push(sweep(a, m, members).last().to_set()));
        }
    }
    out
}

proof fn lemma_as_sets_last(b: Seq<Seq<usize>>)
    requires
        b.len() > 0,
    ensures
        as_sets(b) == as_sets(b.drop_last()).push(b.last().to_set()),
{
    assert(as_sets(b) =~= as_sets(b.drop_last()).push(b.last().to_set()));
}

proof fn lemma_conflict_ends(
    arcs: Set<(usize, usize)>,
    nodes: Set<usize>,
    marked: Set<usize>,
    u: usize,
    n: usize,
)
    requires
        conflict(arcs, marked, u, n) || conflict(arcs, marked, n, u),
        forall|a: usize, b: usize| #[trigger]
            arcs.contains((a, b)) ==> nodes.contains(a) && nodes.contains(b),
    ensures
        nodes.contains(u),
{
    if conflict(arcs, marked, u, n) {
        let x = choose|x: usize|
            !marked.contains(x) && #[trigger] reaches(arcs, u, x) && #[trigger] reaches(arcs, x, n);
        lemma_reaches_ends(arcs, nodes, u, x);
    } else {
        let x = choose|x: usize|
            !marked.contains(x) && #[trigger] reaches(arcs, n, x) && #[trigger] reaches(arcs, x, u);
        lemma_reaches_ends(arcs, nodes, x, u);
    }
}

/// The positions of the nodes of a list, as bits.
fn position_bits(nodes: &Vec<usize>, order: &Vec<usize>, pos: &HashMap<usize, usize>) -> (bits:
    FixedBitSet)
    requires
        order@.no_duplicates(),
        positions_of(pos@, order@),
    ensures
        forall|q: usize| #[trigger]
            bit_members(bits).contains(q) <==> q < order@.len() && nodes@.contains(
                order@[q as int],
            ),
{
    let mut bits = FixedBitSet::with_capacity(order.len());
    let mut i: usize = 0;
    while i < nodes.len()
        invariant
            order@.no_duplicates(),
            positions_of(pos@, order@),
            i <= nodes@.len(),
            bit_len(bits) == order@.len(),
            forall|q: usize| #[trigger]
                bit_members(bits).contains(q) <==> q < order@.len() && exists|j: int|
                    0 <= j < i && #[trigger] nodes@[j] == order@[q as int],
        decreases nodes@.len() - i,
    {
        let ghost bits0 = bit_members(bits);
        let n = nodes[i];
        if let Some(p) = pos.get(&n) {
            let q: usize = *p;
            proof {
                assert(order@.contains(n));
                let k = choose|k: int| 0 <= k < order@.len() && order@[k] == n;
                assert(pos@[order@[k]] == k);
            }
            bits.insert(q);
        } else {
            assert(!order@.contains(n));
            assert(forall|q: int| 0 <= q < order@.len() ==> order@[q] != n) by {
                assert(forall|q: int| 0 <= q < order@.len() ==> order@.contains(#[trigger] order@[q]));
            }
        }
        i = i + 1;
    }
    bits
}

/// The blocks of the marked nodes, swept in the topological order given.
pub fn partition_in_order(g: &DiGraph, marked: &HashSet<usize>, order: &Vec<usize>) -> (blocks: Vec<
    HashSet<usize>,
>)
    requires
        topological(order@, graph_nodes(*g), arcs(*g)),
    ensures
        swept_partition(
            graph_nodes(*g),
            arcs(*g),
            live_marked(*g, marked@),
            order@,
            set_views(blocks@),
        ),
        convex_partition(arcs(*g), live_marked(*g, marked@), set_views(blocks@)),
{
    let ghost a = arcs(*g);
    let ghost m = live_marked(*g, marked@);
    let pos = positions(order);
    let rows = reachability(g, order, &pos);
    proof {
        assert forall|u: usize, v: usize| #[trigger] a.contains((u, v)) implies graph_nodes(
            *g,
        ).contains(u) && graph_nodes(*g).contains(v) by {
            assert(order@.to_set().contains(u) && order@.to_set().contains(v));
        }
    }
    let comps = marked_weak_components(g, marked);
    let ghost heads = comps@.map_values(|c: Vec<usize>| c@[0]);
    let mut results: Vec<HashSet<usize>> = Vec::new();
    let mut c: usize = 0;
    assert(heads.take(0) =~= Seq::empty());
    assert(set_views(results@) =~= as_sets(component_blocks(a, m, order@, heads.take(0))));
    while c < comps.len()
        invariant
            a == arcs(*g),
            m == live_marked(*g, marked@),
            topological(order@, graph_nodes(*g), a),
            positions_of(pos@, order@),
            rows@.len() == order@.len(),
            forall|k: int|
                0 <= k < order@.len() ==> is_reach_row(#[trigger] rows@[k], a, order@, k),
            heads == comps@.map_values(|c: Vec<usize>| c@[0]),
            forall|k: int, n: usize|
                0 <= k < comps@.len() ==> (#[trigger] comps@[k]@.contains(n) <==> linked(
                    a,
                    m,
                    comps@[k]@[0],
                    n,
                )),
            c <= comps@.len(),
            set_views(results@) == as_sets(component_blocks(a, m, order@, heads.take(c as int))),
        decreases comps@.len() - c,
    {
        let in_comp = position_bits(&comps[c], order, &pos);
        let comp_pos = enabled_bits(&in_comp);
        let ghost h = heads[c as int];
        let ghost pred = |n: usize| linked(a, m, h, n);
        proof {
            assert forall|k: int| 0 <= k < comp_pos@.len() implies #[trigger] comp_pos@[k]
                < order@.len() && pred(order@[comp_pos@[k] as int]) by {
                assert(comp_pos@.to_set().contains(comp_pos@[k]));
                assert(comps@[c as int]@.contains(order@[comp_pos@[k] as int]));
            }
            assert forall|i: int| 0 <= i < order@.len() && pred(#[trigger] order@[i]) implies exists|
                k: int,
            | 0 <= k < comp_pos@.len() && comp_pos@[k] == i by {
                assert(comps@[c as int]@.contains(order@[i]));
                assert(i <= usize::MAX) by {
                    assert(i < order@.len());
                    assert(pos@[order@[i]] == i);
                }
                assert(bit_members(in_comp).contains(i as usize));
                assert(comp_pos@.to_set().contains(i as usize));
            }
            lemma_filter_is(order@, pred, comp_pos@);
            assert(component_members(a, m, order@, h) == comp_pos@.map_values(
                |p: usize| order@[p as int],
            ));
        }
        let mut blocks = sweep_component(g, marked, order, &rows, &comp_pos, &in_comp);
        let ghost results0 = results@;
        let ghost blocks0 = blocks@;
        results.append(&mut blocks);
        proof {
            let next = heads.take(c + 1);
            assert(next.drop_last() =~= heads.take(c as int));
            let before = component_blocks(a, m, order@, heads.take(c as int));
            let s = sweep(a, m, component_members(a, m, order@, h));
            assert(set_views(results@) =~= set_views(results0) + set_views(blocks0));
            assert(as_sets(before + s) =~= as_sets(before) + as_sets(s));
        }
        c = c + 1;
    }
    proof {
        assert(heads.take(heads.len() as int) =~= heads);
        assert(component_heads(a, m, heads));
        law_swept_partition_is_convex(graph_nodes(*g), a, m, order@, set_views(results@));
    }
    results
}

/// Partition the marked nodes into convex blocks, or name a node on a cycle.
///
/// Without marked nodes there is nothing to partition, and the graph is not
/// looked at. The order that decides where one block ends and the next begins is
/// the topological order that `petgraph` finds.
pub fn partition_marked_convex(g: &DiGraph, marked: &HashSet<usize>) -> (r: Result<
    Vec<HashSet<usize>>,
    usize,
>)
    ensures
        marked@ == Set::<usize>::empty() ==> (r matches Ok(blocks) && blocks@.len() == 0),
        marked@ != Set::<usize>::empty() ==> (r is Ok <==> acyclic(arcs(*g))),
        r matches Err(n) ==> reaches(arcs(*g), n, n),
        r matches Ok(blocks) ==> convex_partition(
            arcs(*g),
            live_marked(*g, marked@),
            set_views(blocks@),
        ),
        r matches Ok(blocks) ==> marked@ != Set::<usize>::empty() ==> swept(
            graph_nodes(*g),
            arcs(*g),
            live_marked(*g, marked@),
            set_views(blocks@),
        ),
{
    if marked.is_empty() {
        let none: Vec<HashSet<usize>> = Vec::new();
        assert(marked@ =~= Set::<usize>::empty());
        assert(live_marked(*g, marked@) =~= Set::<usize>::empty());
        return Ok(none);
    }
    match toposort(g) {
        Ok(order) => {
            proof {
                lemma_topological_acyclic(order@, graph_nodes(*g), arcs(*g));
            }
            let blocks = partition_in_order(g, marked, &order);
            Ok(blocks)
        },
        Err(n) => Err(n),
    }
}

/// A list of lists, one after the other.
pub open spec fn joined(blocks: Seq<Seq<usize>>) -> Seq<usize>
    decreases blocks.len(),
{
    if blocks.len() == 0 {
        Seq::empty()
    } else {
        joined(blocks.drop_last()) + blocks.last()
    }
}

/// Sweeping keeps the members and their order, and splits them where it has to and nowhere
/// else: no walk between two members of a block leads through an unmarked node, and the first
/// of each further block has such a walk to or from a member of the block before.
pub proof fn law_sweep_splits_only_where_it_must(
    arcs: Set<(usize, usize)>,
    marked: Set<usize>,
    members: Seq<usize>,
    k: int,
)
    requires
        0 <= k < sweep(arcs, marked, members).len(),
    ensures
        joined(sweep(arcs, marked, members)) == members,
        ({
            let block = sweep(arcs, marked, members)[k];
            &&& block.len() > 0
            &&& forall|i: int, j: int, x: usize|
                0 <= i < j < block.len() && !marked.contains(x) ==> !(#[trigger] reaches(
                    arcs,
                    #[trigger] block[i],
                    x,
                ) && reaches(arcs, x, #[trigger] block[j])) && !(reaches(arcs, block[j], x)
                    && reaches(arcs, x, block[i]))
            &&& k > 0 ==> (exists|m: usize, x: usize|
                sweep(arcs, marked, members)[k - 1].contains(m) && !marked.contains(x)
                    && #[trigger] reaches(arcs, m, x) && reaches(arcs, x, block[0])) || (exists|
                m: usize,
                x: usize,
            |
                sweep(arcs, marked, members)[k - 1].contains(m) && !marked.contains(x) && reaches(
                    arcs,
                    block[0],
                    x,
                ) && #[trigger] reaches(arcs, x, m))
        }),
    decreases members.len(),
{
    let all = sweep(arcs, marked, members);
    lemma_sweep_joined(arcs, marked, members);
    lemma_sweep_apart(arcs, marked, members, k);
    let block = all[k];
    assert forall|i: int, j: int, x: usize|
        0 <= i < j < block.len() && !marked.contains(x) implies !(#[trigger] reaches(
        arcs,
        #[trigger] block[i],
        x,
    ) && reaches(arcs, x, #[trigger] block[j])) && !(reaches(arcs, block[j], x) && reaches(
        arcs,
        x,
        block[i],
    )) by {
        if reaches(arcs, block[i], x) && reaches(arcs, x, block[j]) {
            assert(conflict(arcs, marked, block[i], block[j]));
        }
        if reaches(arcs, block[j], x) && reaches(arcs, x, block[i]) {
            assert(conflict(arcs, marked, block[j], block[i]));
        }
    }
    if k > 0 {
        let before = all[k - 1];
        let n = block[0];
        let m = choose|m: usize| #[trigger]
            before.contains(m) && (conflict(arcs, marked, m, n) || conflict(arcs, marked, n, m));
        if conflict(arcs, marked, m, n) {
            let x = choose|x: usize|
                !marked.contains(x) && #[trigger] reaches(arcs, m, x) && #[trigger] reaches(
                    arcs,
                    x,
                    n,
                );
            assert(reaches(arcs, m, x) && reaches(arcs, x, n));
        } else {
            let x = choose|x: usize|
                !marked.contains(x) && #[trigger] reaches(arcs, n, x) && #[trigger] reaches(
                    arcs,
                    x,
                    m,
                );
            assert(reaches(arcs, n, x) && reaches(arcs, x, m));
        }
    }
}

proof fn lemma_sweep_joined(
    arcs: Set<(usize, usize)>,
    marked: Set<usize>,
    members: Seq<usize>,
)
    ensures
        joined(sweep(arcs, marked, members)) == members,
    decreases members.len(),
{
    let all = sweep(arcs, marked, members);
    if members.len() == 0 {
        assert(joined(all) =~= members);
    } else {
        let before = sweep(arcs, marked, members.drop_last());
        let n = members.last();
        lemma_sweep_joined(arcs, marked, members.drop_last());
        if before.len() == 0 || clashes(arcs, marked, before.last(), n) {
            assert(all.drop_last() =~= before);
            assert(joined(before) + seq![n] =~= members);
        } else {
            assert(all.drop_last() =~= before.drop_last());
            assert(joined(before.drop_last()) + before.last().push(n) =~= members) by {
                assert((joined(before.drop_last()) + before.last()).push(n) =~= members);
            }
        }
    }
}

/// No two of the nodes conflict.
spec fn conflict_free(arcs: Set<(usize, usize)>, marked: Set<usize>, b: Seq<usize>) -> bool {
    forall|i: int, j: int|
        0 <= i < j < b.len() ==> !conflict(arcs, marked, #[trigger] b[i], #[trigger] b[j])
            && !conflict(arcs, marked, b[j], b[i])
}

proof fn lemma_sweep_apart(
    arcs: Set<(usize, usize)>,
    marked: Set<usize>,
    members: Seq<usize>,
    k: int,
)
    requires
        0 <= k < sweep(arcs, marked, members).len(),
    ensures
        sweep(arcs, marked, members)[k].len() > 0,
        conflict_free(arcs, marked, sweep(arcs, marked, members)[k]),
        k > 0 ==> clashes(
            arcs,
            marked,
            sweep(arcs, marked, members)[k - 1],
            sweep(arcs, marked, members)[k][0],
        ),
    decreases members.len(),
{
    let all = sweep(arcs, marked, members);
    let before = sweep(arcs, marked, members.drop_last());
    let n = members.last();
    if k < before.len() {
        lemma_sweep_apart(arcs, marked, members.drop_last(), k);
    }
    if before.len() == 0 || clashes(arcs, marked, before.last(), n) {
        assert(all =~= before.push(seq![n]));
        if k == before.len() {
            assert(seq![n][0] == n);
        }
    } else {
        let last = before.last();
        assert(all =~= before.drop_last().push(last.push(n)));
        if k == before.len() - 1 {
            let block = last.push(n);
            assert(before[k] == last && all[k] == block);
            assert forall|i: int, j: int| 0 <= i < j < block.len() implies !conflict(
                arcs,
                marked,
                #[trigger] block[i],
                #[trigger] block[j],
            ) && !conflict(arcs, marked, block[j], block[i]) by {
                assert(block[i] == last[i]);
                if j < last.len() {
                    assert(block[j] == last[j]);
                } else {
                    assert(last.contains(last[i]));
                }
            }
        }
    }
}

/// The blocks of a component are among all blocks.
proof fn lemma_blocks_of_component(
    arcs: Set<(usize, usize)>,
    marked: Set<usize>,
    order: Seq<usize>,
    heads: Seq<usize>,
    i: int,
    l: int,
) -> (k: int)
    requires
        0 <= i < heads.len(),
        0 <= l < sweep(arcs, marked, component_members(arcs, marked, order, heads[i])).len(),
    ensures
        0 <= k < component_blocks(arcs, marked, order, heads).len(),
        component_blocks(arcs, marked, order, heads)[k] == sweep(
            arcs,
            marked,
            component_members(arcs, marked, order, heads[i]),
        )[l],
    decreases heads.len(),
{
    let before = component_blocks(arcs, marked, order, heads.drop_last());
    if i == heads.len() - 1 {
        before.len() as int + l
    } else {
        let k = lemma_blocks_of_component(arcs, marked, order, heads.drop_last(), i, l);
        k
    }
}

/// Marked nodes with an arc between them are in one block, unless there are two marked nodes
/// between which a walk leads through one that is not: nothing is split without need.
pub proof fn law_adjacent_nodes_share_a_block(
    nodes: Set<usize>,
    arcs: Set<(usize, usize)>,
    marked: Set<usize>,
    order: Seq<usize>,
    blocks: Seq<Set<usize>>,
    u: usize,
    v: usize,
)
    requires
        swept_partition(nodes, arcs, marked, order, blocks),
        marked.subset_of(nodes),
        marked.contains(u),
        marked.contains(v),
        arcs.contains((u, v)),
        forall|a: usize, x: usize, b: usize|
            marked.contains(a) && marked.contains(b) && !marked.contains(x) ==> !(#[trigger] reaches(
                arcs,
                a,
                x,
            ) && #[trigger] reaches(arcs, x, b)),
    ensures
        exists|k: int|
            0 <= k < blocks.len() && #[trigger] blocks[k].contains(u) && blocks[k].contains(v),
{
    let heads = choose|heads: Seq<usize>| #[trigger]
        component_heads(arcs, marked, heads) && blocks == as_sets(
            component_blocks(arcs, marked, order, heads),
        );
    let h = lemma_has_head(arcs, marked, u);
    assert(heads.contains(h));
    let i = choose|i: int| 0 <= i < heads.len() && heads[i] == h;
    let links = marked_links(arcs, marked);
    assert(links.contains((u, v)));
    lemma_reaches_arc(links, u, v);
    assert(linked(arcs, marked, u, v));
    lemma_linked_transitive(arcs, marked, h, u, v);
    let pred = |n: usize| linked(arcs, marked, h, n);
    let members = component_members(arcs, marked, order, h);
    let ps = lemma_filter_positions(order, pred);
    assert(order.to_set().contains(u) && order.to_set().contains(v));
    let a = choose|a: int| 0 <= a < order.len() && order[a] == u;
    let b = choose|b: int| 0 <= b < order.len() && order[b] == v;
    assert(pred(order[a]) && pred(order[b]));
    let ka = choose|k: int| 0 <= k < ps.len() && ps[k] == a;
    let kb = choose|k: int| 0 <= k < ps.len() && ps[k] == b;
    assert(members[ka] == u && members[kb] == v);
    assert forall|q: int| 0 <= q < members.len() implies marked.contains(#[trigger] members[q]) by {
        assert(pred(order[ps[q]]));
        lemma_linked_marked(arcs, marked, h, members[q]);
    }
    let s = sweep(arcs, marked, members);
    lemma_sweep_joined(arcs, marked, members);
    lemma_one_block(arcs, marked, members);
    assert(s[0] == members);
    let k = lemma_blocks_of_component(arcs, marked, order, heads, i, 0);
    let all = component_blocks(arcs, marked, order, heads);
    assert(blocks[k] == all[k].to_set());
    assert(all[k].contains(members[ka]) && all[k].contains(members[kb]));
    assert(blocks[k].contains(u) && blocks[k].contains(v));
}

/// Members without conflict are one block.
proof fn lemma_one_block(arcs: Set<(usize, usize)>, marked: Set<usize>, members: Seq<usize>)
    requires
        members.len() > 0,
        forall|q: int| 0 <= q < members.len() ==> marked.contains(#[trigger] members[q]),
        forall|a: usize, x: usize, b: usize|
            marked.contains(a) && marked.contains(b) && !marked.contains(x) ==> !(#[trigger] reaches(
                arcs,
                a,
                x,
            ) && #[trigger] reaches(arcs, x, b)),
    ensures
        sweep(arcs, marked, members) == seq![members],
    decreases members.len(),
{
    let front = members.drop_last();
    let n = members.last();
    assert(members[members.len() - 1] == n);
    if front.len() == 0 {
        assert(sweep(arcs, marked, front) =~= Seq::<Seq<usize>>::empty());
        assert(seq![n] =~= members);
        assert(sweep(arcs, marked, members) =~= seq![members]);
    } else {
        assert forall|q: int| 0 <= q < front.len() implies marked.contains(#[trigger] front[q]) by {
            assert(front[q] == members[q]);
        }
        lemma_one_block(arcs, marked, front);
        let before = sweep(arcs, marked, front);
        assert(before.last() == front);
        if clashes(arcs, marked, front, n) {
            let m = choose|m: usize| #[trigger]
                front.contains(m) && (conflict(arcs, marked, m, n) || conflict(arcs, marked, n, m));
            let q = choose|q: int| 0 <= q < front.len() && front[q] == m;
            assert(marked.contains(front[q]));
        }
        assert(front.push(n) =~= members);
        assert(sweep(arcs, marked, members) =~= seq![members]);
    }
}

} // verus!
