//! The topological layering engine.
//!
//! Entities are numbered 1..=n; a relation is a pair `(from, to)` of entity
//! numbers. [`topological_order`] runs a Kahn-style traversal and either
//! returns an ordering of all entities in which every relation points
//! forward, or reports [`LayoutError::CycleDetected`].
//! [`topological_sort_edges`] re-sorts the relation list along that
//! ordering, and [`calc_rank`] assigns each entity its layer (row) by
//! longest-path layering.

use vstd::prelude::*;
use vstd::seq_lib::*;
use vstd::set_lib::*;

use crate::LayoutError;

pub mod marker;

pub use marker::Markers;

verus! {

broadcast use vstd::seq_lib::lemma_seq_contains_after_push;

/// An edge endpoint pair is a reference into the entity list 1..=n.
pub open spec fn edge_in_range(n: nat, e: (usize, usize)) -> bool {
    1 <= e.0 && e.0 <= n && 1 <= e.1 && e.1 <= n
}

pub open spec fn edges_in_range(n: nat, es: Seq<(usize, usize)>) -> bool {
    forall|k: int| 0 <= k < es.len() ==> edge_in_range(n, #[trigger] es[k])
}

/// `a` appears strictly before `b` in `order`.
pub open spec fn precedes(order: Seq<usize>, a: usize, b: usize) -> bool {
    exists|i: int, j: int| 0 <= i < j < order.len() && order[i] == a && order[j] == b
}

/// `order` lists every entity exactly once and every edge points forward in it.
pub open spec fn is_topo_order(n: nat, es: Seq<(usize, usize)>, order: Seq<usize>) -> bool {
    &&& order.len() == n
    &&& (forall|i: int| 0 <= i < order.len() ==> 1 <= #[trigger] order[i] && order[i] <= n)
    &&& order.no_duplicates()
    &&& (forall|k: int| 0 <= k < es.len() ==> precedes(order, #[trigger] es[k].0, es[k].1))
}

/// The graph admits a topological ordering of its n entities.
pub open spec fn has_topo_order(n: nat, es: Seq<(usize, usize)>) -> bool {
    exists|order: Seq<usize>| is_topo_order(n, es, order)
}

/// The edge list contains an edge from `a` to `b`.
pub open spec fn is_edge(es: Seq<(usize, usize)>, a: usize, b: usize) -> bool {
    exists|k: int| 0 <= k < es.len() && es[k] == (a, b)
}

/// A closed walk through the graph: consecutive entries are edges and the
/// walk returns to its starting entity.
pub open spec fn is_cycle(es: Seq<(usize, usize)>, path: Seq<usize>) -> bool {
    &&& path.len() >= 2
    &&& path[0] == path[path.len() - 1]
    &&& (forall|i: int| 0 <= i < path.len() - 1 ==> is_edge(es, #[trigger] path[i], path[i + 1]))
}

/// Some relation targets the entity.
pub open spec fn has_incoming(es: Seq<(usize, usize)>, v: usize) -> bool {
    exists|k: int| 0 <= k < es.len() && (#[trigger] es[k]).1 == v
}

/// A directed walk: consecutive entries are edges.
pub open spec fn is_path(es: Seq<(usize, usize)>, p: Seq<usize>) -> bool {
    &&& p.len() >= 1
    &&& (forall|i: int| 0 <= i < p.len() - 1 ==> is_edge(es, #[trigger] p[i], p[i + 1]))
}

/// The rank is reached by some chain of relations ending at the entity:
/// a walk of exactly that length.
pub open spec fn rank_reached(es: Seq<(usize, usize)>, ranks: Seq<usize>, v: usize) -> bool {
    exists|p: Seq<usize>|
        #[trigger] is_path(es, p) && p.last() == v && p.len() == ranks[v as int]
}

/// Ranks that push every relation one row down bound every walk: the rank
/// of a walk's last entity is at least the walk's length. Together with
/// the reachable-walk clause of [`calc_rank`], an entity's rank is exactly
/// one more than the longest chain of relations ending at it — the
/// longest-path layering, which uses the fewest rows that keep every
/// relation strictly downward.
pub proof fn lemma_path_bounds_rank(es: Seq<(usize, usize)>, ranks: Seq<usize>, p: Seq<usize>)
    requires
        is_path(es, p),
        forall|i: int| 0 <= i < p.len() ==> 1 <= #[trigger] p[i] && p[i] < ranks.len(),
        forall|k: int|
            0 <= k < es.len() ==> ranks[#[trigger] es[k].1 as int] >= ranks[es[k].0 as int] + 1,
        forall|v: int| 0 <= v < ranks.len() ==> 1 <= #[trigger] ranks[v],
    ensures
        ranks[p.last() as int] >= p.len(),
    decreases p.len(),
{
    if p.len() > 1 {
        let q = p.drop_last();
        assert(is_path(es, q)) by {
            assert forall|i: int| 0 <= i < q.len() - 1 implies is_edge(
                es,
                #[trigger] q[i],
                q[i + 1],
            ) by {
                assert(q[i] == p[i] && q[i + 1] == p[i + 1]);
            }
        }
        lemma_path_bounds_rank(es, ranks, q);
        assert(is_edge(es, p[p.len() - 2], p[p.len() - 1]));
        let k = choose|k: int|
            0 <= k < es.len() && es[k] == (p[p.len() - 2], p[p.len() - 1]);
        assert(ranks[es[k].1 as int] >= ranks[es[k].0 as int] + 1);
    }
}

/// In a topologically sorted edge list, all edges into an entity stand
/// before all edges out of it.
pub open spec fn edges_topo_sorted(es: Seq<(usize, usize)>) -> bool {
    forall|i: int, j: int|
        0 <= i < es.len() && 0 <= j < es.len() && #[trigger] es[i].1 == #[trigger] es[j].0 ==> i
            < j
}

// ---------------------------------------------------------------------
// positions in a duplicate-free ordering
// ---------------------------------------------------------------------

/// In a duplicate-free sequence, the index of a value is the only place it occurs.
proof fn lemma_index_unique(order: Seq<usize>, v: usize, i: int)
    requires
        order.no_duplicates(),
        0 <= i < order.len(),
        order[i] == v,
    ensures
        order.contains(v),
        order.index_of(v) == i,
{
    assert(order.contains(v));
    let j = order.index_of(v);
    assert(order[j] == v && 0 <= j < order.len());
    if i != j {
        assert(order[i] != order[j]);
    }
}

/// An edge forces its source to an earlier index than its target.
proof fn lemma_edge_index(es: Seq<(usize, usize)>, order: Seq<usize>, a: usize, b: usize)
    requires
        order.no_duplicates(),
        forall|k: int| 0 <= k < es.len() ==> precedes(order, #[trigger] es[k].0, es[k].1),
        is_edge(es, a, b),
    ensures
        order.contains(a),
        order.contains(b),
        order.index_of(a) < order.index_of(b),
{
    let k = choose|k: int| 0 <= k < es.len() && es[k] == (a, b);
    assert(precedes(order, es[k].0, es[k].1));
    let (i, j) = choose|i: int, j: int|
        0 <= i < j < order.len() && order[i] == a && order[j] == b;
    lemma_index_unique(order, a, i);
    lemma_index_unique(order, b, j);
}

/// Walking forward along edges only ever increases the index in a
/// topological ordering.
proof fn lemma_walk_index(
    es: Seq<(usize, usize)>,
    order: Seq<usize>,
    path: Seq<usize>,
    m: int,
)
    requires
        order.no_duplicates(),
        forall|k: int| 0 <= k < es.len() ==> precedes(order, #[trigger] es[k].0, es[k].1),
        path.len() >= 2,
        0 <= m < path.len(),
        forall|i: int| 0 <= i < path.len() - 1 ==> is_edge(es, #[trigger] path[i], path[i + 1]),
    ensures
        order.contains(path[m]),
        m >= 1 ==> order.index_of(path[0]) < order.index_of(path[m]),
    decreases m,
{
    if m == 0 {
        assert(is_edge(es, path[0], path[1]));
        lemma_edge_index(es, order, path[0], path[1]);
    } else {
        lemma_walk_index(es, order, path, m - 1);
        assert(is_edge(es, path[m - 1], path[m]));
        lemma_edge_index(es, order, path[m - 1], path[m]);
        if m >= 2 {
            assert(order.index_of(path[0]) < order.index_of(path[m - 1]));
        }
    }
}

/// A graph with a cycle has no topological ordering: the starting entity of
/// the cycle would have to stand strictly before itself.
pub proof fn lemma_cycle_no_topo_order(n: nat, es: Seq<(usize, usize)>, path: Seq<usize>)
    requires
        is_cycle(es, path),
    ensures
        !has_topo_order(n, es),
{
    if has_topo_order(n, es) {
        let order = choose|order: Seq<usize>| is_topo_order(n, es, order);
        lemma_walk_index(es, order, path, path.len() - 1);
        assert(order.index_of(path[0]) < order.index_of(path[path.len() - 1]));
    }
}

// ---------------------------------------------------------------------
// cardinality of duplicate-free sequences over 1..=n
// ---------------------------------------------------------------------

/// Appending a fresh value keeps a sequence duplicate-free.
pub(crate) proof fn lemma_push_unique<T>(s: Seq<T>, v: T)
    requires
        s.no_duplicates(),
        !s.contains(v),
    ensures
        s.push(v).no_duplicates(),
{
    let t = s.push(v);
    assert forall|i: int, j: int| 0 <= i < t.len() && 0 <= j < t.len() && i != j implies t[i]
        != t[j] by {
        if i < s.len() && j < s.len() {
            assert(s[i] != s[j]);
        } else if i < s.len() {
            assert(t[j] == v && s.contains(s[i]));
        } else {
            assert(t[i] == v && s.contains(s[j]));
        }
    }
}

/// At most n distinct values fit in 1..=n.
proof fn lemma_distinct_in_range_len(s: Seq<usize>, n: nat)
    requires
        s.no_duplicates(),
        forall|i: int| 0 <= i < s.len() ==> 1 <= #[trigger] s[i] && s[i] <= n,
    ensures
        s.len() <= n,
{
    broadcast use vstd::seq_lib::group_seq_lib_default, vstd::set::group_set_axioms;

    let f = |x: usize| x as int;
    let t = s.map_values(f);
    s.lemma_no_duplicates_injective(f);
    t.unique_seq_to_set();
    lemma_int_range(1, n as int + 1);
    assert forall|x: int| t.to_set().contains(x) implies set_int_range(
        1,
        n as int + 1,
    ).contains(x) by {
        let i = choose|i: int| 0 <= i < t.len() && t[i] == x;
        assert(1 <= s[i] && s[i] <= n);
    }
    lemma_len_subset(t.to_set(), set_int_range(1, n as int + 1));
}

/// A duplicate-free sequence of n values out of 1..=n contains each of them.
proof fn lemma_full_range_contains(s: Seq<usize>, n: nat, v: usize)
    requires
        s.no_duplicates(),
        forall|i: int| 0 <= i < s.len() ==> 1 <= #[trigger] s[i] && s[i] <= n,
        s.len() == n,
        1 <= v <= n,
    ensures
        s.contains(v),
{
    if !s.contains(v) {
        lemma_push_unique(s, v);
        lemma_distinct_in_range_len(s.push(v), n);
    }
}

/// If every entity missing from `done` still waits on another missing
/// entity, no topological ordering can exist while `done` is short of n.
pub proof fn lemma_blocked_no_topo_order(n: nat, es: Seq<(usize, usize)>, done: Seq<usize>)
    requires
        done.len() < n,
        forall|v: usize|
            1 <= v <= n && !done.contains(v) ==> exists|k: int|
                0 <= k < es.len() && #[trigger] es[k].1 == v && !done.contains(es[k].0),
    ensures
        !has_topo_order(n, es),
{
    broadcast use vstd::set::group_set_axioms, vstd::seq_lib::group_seq_lib_default;

    if has_topo_order(n, es) {
        let order = choose|order: Seq<usize>| is_topo_order(n, es, order);
        assert forall|i: int| 0 <= i < order.len() implies done.contains(
            #[trigger] order[i],
        ) by {
            lemma_done_at(n, es, done, order, i);
        }
        order.unique_seq_to_set();
        done.lemma_cardinality_of_set();
        assert forall|x: usize| order.to_set().contains(x) implies done.to_set().contains(
            x,
        ) by {
            let i = choose|i: int| 0 <= i < order.len() && order[i] == x;
            assert(done.contains(x));
            let j = choose|j: int| 0 <= j < done.len() && done[j] == x;
        }
        lemma_len_subset(order.to_set(), done.to_set());
    }
}

/// Strong induction behind [`lemma_blocked_no_topo_order`]: every entity the
/// ordering places must already be in `done`.
#[verifier::rlimit(50)]
proof fn lemma_done_at(
    n: nat,
    es: Seq<(usize, usize)>,
    done: Seq<usize>,
    order: Seq<usize>,
    i: int,
)
    requires
        is_topo_order(n, es, order),
        forall|v: usize|
            1 <= v <= n && !done.contains(v) ==> exists|k: int|
                0 <= k < es.len() && #[trigger] es[k].1 == v && !done.contains(es[k].0),
        0 <= i < order.len(),
    ensures
        done.contains(order[i]),
    decreases i,
{
    let v = order[i];
    if !done.contains(v) {
        assert(1 <= v <= n);
        assert(exists|k: int|
            0 <= k < es.len() && #[trigger] es[k].1 == v && !done.contains(es[k].0));
        let k = choose|k: int|
            0 <= k < es.len() && #[trigger] es[k].1 == v && !done.contains(es[k].0);
        let a = es[k].0;
        assert(precedes(order, es[k].0, es[k].1));
        let (i0, j0) = choose|i0: int, j0: int|
            0 <= i0 < j0 < order.len() && order[i0] == a && order[j0] == v;
        if j0 != i {
            assert(order[j0] != order[i]);
        }
        assert(i0 < i);
        lemma_done_at(n, es, done, order, i0);
        assert(done.contains(a));
    }
}

// ---------------------------------------------------------------------
// extracting a concrete cycle from a stuck traversal
// ---------------------------------------------------------------------

/// More than n values out of 1..=n repeat somewhere.
proof fn lemma_range_repeat(s: Seq<usize>, n: nat)
    requires
        forall|i: int| 0 <= i < s.len() ==> 1 <= #[trigger] s[i] && s[i] <= n,
        s.len() > n,
    ensures
        exists|i: int, j: int| 0 <= i < j < s.len() && s[i] == s[j],
{
    if !(exists|i: int, j: int| 0 <= i < j < s.len() && s[i] == s[j]) {
        assert forall|i: int, j: int|
            0 <= i < s.len() && 0 <= j < s.len() && i != j implies s[i] != s[j] by {
            if i < j {
                assert(!(0 <= i < j < s.len() && s[i] == s[j]));
            } else {
                assert(!(0 <= j < i < s.len() && s[j] == s[i]));
            }
        }
        lemma_distinct_in_range_len(s, n);
    }
}

/// Fewer than n values out of 1..=n miss at least one of them.
proof fn lemma_range_missing(s: Seq<usize>, n: nat)
    requires
        s.len() < n,
        n <= usize::MAX,
    ensures
        exists|v: usize| 1 <= v <= n && !s.contains(v),
{
    broadcast use vstd::set::group_set_axioms;

    if !(exists|v: usize| 1 <= v <= n && !s.contains(v)) {
        let f = |x: usize| x as int;
        let t = s.map_values(f);
        lemma_int_range(1, n as int + 1);
        assert forall|x: int| set_int_range(1, n as int + 1).contains(x) implies t.to_set().contains(
            x,
        ) by {
            let v = x as usize;
            assert(v as int == x);
            assert(1 <= v <= n);
            assert(s.contains(v));
            let i = choose|i: int| 0 <= i < s.len() && s[i] == v;
            assert(t[i] == x);
        }
        lemma_len_subset(set_int_range(1, n as int + 1), t.to_set());
        t.lemma_cardinality_of_set();
    }
}

/// A walk backwards through pending predecessors, entirely outside `done`.
proof fn build_blocked_walk(
    n: nat,
    es: Seq<(usize, usize)>,
    done: Seq<usize>,
    v0: usize,
    len: nat,
) -> (w: Seq<usize>)
    requires
        edges_in_range(n, es),
        forall|v: usize|
            1 <= v <= n && !done.contains(v) ==> exists|k: int|
                0 <= k < es.len() && #[trigger] es[k].1 == v && !done.contains(es[k].0),
        1 <= v0 <= n,
        !done.contains(v0),
        len >= 1,
    ensures
        w.len() == len,
        forall|i: int| 0 <= i < w.len() ==> 1 <= #[trigger] w[i] && w[i] <= n && !done.contains(
            w[i],
        ),
        forall|i: int| 0 <= i < w.len() - 1 ==> is_edge(es, w[i + 1], #[trigger] w[i]),
    decreases len,
{
    if len == 1 {
        seq![v0]
    } else {
        let w0 = build_blocked_walk(n, es, done, v0, (len - 1) as nat);
        let last = w0.last();
        let k = choose|k: int|
            0 <= k < es.len() && #[trigger] es[k].1 == last && !done.contains(es[k].0);
        let p = es[k].0;
        assert(edge_in_range(n, es[k]));
        assert(is_edge(es, p, last));
        let w = w0.push(p);
        assert forall|i: int| 0 <= i < w.len() - 1 implies is_edge(
            es,
            w[i + 1],
            #[trigger] w[i],
        ) by {
            if i < w0.len() - 1 {
                assert(w[i] == w0[i] && w[i + 1] == w0[i + 1]);
            } else {
                assert(w[i] == last && w[i + 1] == p);
            }
        }
        w
    }
}

/// If every entity missing from `done` still waits on another missing
/// entity and some entity is missing, the graph holds a closed walk: the
/// backward chain of pending predecessors must repeat.
#[verifier::rlimit(100)]
pub proof fn lemma_blocked_has_cycle(n: nat, es: Seq<(usize, usize)>, done: Seq<usize>)
    requires
        edges_in_range(n, es),
        n <= usize::MAX,
        done.len() < n,
        forall|v: usize|
            1 <= v <= n && !done.contains(v) ==> exists|k: int|
                0 <= k < es.len() && #[trigger] es[k].1 == v && !done.contains(es[k].0),
    ensures
        exists|p: Seq<usize>| is_cycle(es, p),
{
    lemma_range_missing(done, n);
    let v0 = choose|v: usize| 1 <= v <= n && !done.contains(v);
    let w = build_blocked_walk(n, es, done, v0, n + 1);
    lemma_range_repeat(w, n);
    let (i, j) = choose|i: int, j: int| 0 <= i < j < w.len() && w[i] == w[j];
    let seg = w.subrange(i, j + 1);
    let p = seg.reverse();
    assert(p.len() == j - i + 1);
    assert(p[0] == seg[seg.len() - 1] == w[j]);
    assert(p[p.len() - 1] == seg[0] == w[i]);
    assert forall|m: int| 0 <= m < p.len() - 1 implies is_edge(
        es,
        #[trigger] p[m],
        p[m + 1],
    ) by {
        assert(p[m] == seg[seg.len() - 1 - m] == w[j - m]);
        assert(p[m + 1] == seg[seg.len() - 2 - m] == w[j - m - 1]);
        assert(is_edge(es, w[(j - m - 1) + 1], w[j - m - 1]));
    }
    assert(is_cycle(es, p));
}

// ---------------------------------------------------------------------
// pending in-degrees
// ---------------------------------------------------------------------

/// Whether edge `k` still counts towards `v`'s in-degree: it targets `v`
/// and its source has not been processed yet.
pub open spec fn pending_at(
    es: Seq<(usize, usize)>,
    done: Seq<usize>,
    v: usize,
    k: int,
) -> nat {
    if es[k].1 == v && !done.contains(es[k].0) {
        1nat
    } else {
        0nat
    }
}

/// Number of edges with index in `[from, to)` that still count towards
/// `v`'s in-degree.
pub open spec fn pending_between(
    es: Seq<(usize, usize)>,
    done: Seq<usize>,
    v: usize,
    from: int,
    to: int,
) -> nat
    decreases to - from,
{
    if from >= to {
        0
    } else {
        pending_at(es, done, v, from) + pending_between(es, done, v, from + 1, to)
    }
}

/// `v`'s whole pending in-degree.
pub open spec fn pending_count(es: Seq<(usize, usize)>, done: Seq<usize>, v: usize) -> nat {
    pending_between(es, done, v, 0, es.len() as int)
}

proof fn lemma_pending_split(
    es: Seq<(usize, usize)>,
    done: Seq<usize>,
    v: usize,
    from: int,
    mid: int,
    to: int,
)
    requires
        from <= mid <= to,
    ensures
        pending_between(es, done, v, from, to) == pending_between(es, done, v, from, mid)
            + pending_between(es, done, v, mid, to),
    decreases mid - from,
{
    if from < mid {
        lemma_pending_split(es, done, v, from + 1, mid, to);
    }
}

proof fn lemma_pending_bound(es: Seq<(usize, usize)>, done: Seq<usize>, v: usize, from: int, to: int)
    ensures
        pending_between(es, done, v, from, to) <= (if to >= from {
            to - from
        } else {
            0
        }),
    decreases to - from,
{
    if from < to {
        lemma_pending_bound(es, done, v, from + 1, to);
    }
}

/// Processing more entities never raises a pending in-degree.
proof fn lemma_pending_mono(
    es: Seq<(usize, usize)>,
    done1: Seq<usize>,
    done2: Seq<usize>,
    v: usize,
    from: int,
    to: int,
)
    requires
        forall|x: usize| done1.contains(x) ==> done2.contains(x),
    ensures
        pending_between(es, done2, v, from, to) <= pending_between(es, done1, v, from, to),
    decreases to - from,
{
    if from < to {
        lemma_pending_mono(es, done1, done2, v, from + 1, to);
    }
}

/// A positive pending in-degree names a concrete pending edge.
proof fn lemma_pending_witness(
    es: Seq<(usize, usize)>,
    done: Seq<usize>,
    v: usize,
    from: int,
    to: int,
)
    requires
        pending_between(es, done, v, from, to) > 0,
    ensures
        exists|k: int|
            from <= k < to && #[trigger] es[k].1 == v && !done.contains(es[k].0),
    decreases to - from,
{
    if from < to {
        if pending_at(es, done, v, from) == 0 {
            lemma_pending_witness(es, done, v, from + 1, to);
        }
    }
}

/// Conversely, a concrete pending edge keeps the count positive.
proof fn lemma_pending_edge(
    es: Seq<(usize, usize)>,
    done: Seq<usize>,
    v: usize,
    from: int,
    to: int,
    k: int,
)
    requires
        from <= k < to,
        es[k].1 == v,
        !done.contains(es[k].0),
    ensures
        pending_between(es, done, v, from, to) >= 1,
    decreases k - from,
{
    if from < k {
        lemma_pending_edge(es, done, v, from + 1, to, k);
    }
}

// ---------------------------------------------------------------------
// the traversal itself
// ---------------------------------------------------------------------

/// A vector of `n` copies of `x`.
pub(crate) fn filled<T: Copy>(n: usize, x: T) -> (v: Vec<T>)
    ensures
        v@.len() == n,
        forall|i: int| 0 <= i < n ==> v@[i] == x,
{
    let mut v: Vec<T> = Vec::new();
    let mut i: usize = 0;
    while i < n
        invariant
            i <= n,
            v@.len() == i,
            forall|j: int| 0 <= j < i ==> v@[j] == x,
        decreases n - i,
    {
        v.push(x);
        i = i + 1;
    }
    v
}

/// Kahn's-algorithm traversal of the entity graph.
///
/// Returns an ordering of the entities 1..=n in which every relation's
/// source stands before its target, or reports a cyclic graph. The
/// traversal seeds a FIFO queue with the entities of in-degree zero in
/// ascending order, and processes outgoing edges of each popped entity.
pub fn topological_order(n: usize, edges: &Vec<(usize, usize)>) -> (r: Result<
    Vec<usize>,
    LayoutError,
>)
    requires
        edges_in_range(n as nat, edges@),
    ensures
        match r {
            Ok(order) => is_topo_order(n as nat, edges@, order@),
            Err(e) => e == LayoutError::CycleDetected && !has_topo_order(n as nat, edges@),
        },
        (exists|p: Seq<usize>| is_cycle(edges@, p)) <==> r is Err,
{
    let ghost es = edges@;
    let ghost none: Seq<usize> = Seq::empty();
    let mut cnts: Vec<usize> = filled(n, 0);

    // in-degree of every entity
    let mut k: usize = 0;
    while k < edges.len()
        invariant
            es == edges@,
            edges_in_range(n as nat, es),
            none.len() == 0,
            cnts@.len() == n,
            k <= edges.len(),
            forall|v: usize|
                1 <= v <= n ==> #[trigger] cnts@[v - 1] == pending_between(
                    es,
                    none,
                    v,
                    0,
                    k as int,
                ),
        decreases edges.len() - k,
    {
        let t = edges[k].1;
        proof {
            assert(edge_in_range(n as nat, es[k as int]));
            lemma_pending_bound(es, none, t, 0, k as int);
        }
        let c = cnts[t - 1];
        cnts[t - 1] = c + 1;
        proof {
            assert forall|v: usize| 1 <= v <= n implies #[trigger] cnts@[v - 1]
                == pending_between(es, none, v, 0, k as int + 1) by {
                lemma_pending_split(es, none, v, 0, k as int, k as int + 1);
                assert(pending_between(es, none, v, k as int, k as int + 1) == pending_at(
                    es,
                    none,
                    v,
                    k as int,
                ) + pending_between(es, none, v, k as int + 1, k as int + 1));
                assert(pending_between(es, none, v, k as int + 1, k as int + 1) == 0);
                assert(none.len() == 0);
                assert(!none.contains(es[k as int].0));
            }
        }
        k = k + 1;
    }

    // seed the queue with the entities of in-degree zero, in ascending order
    let mut queue: std::collections::VecDeque<usize> = std::collections::VecDeque::new();
    let mut i: usize = 0;
    while i < n
        invariant
            es == edges@,
            none.len() == 0,
            cnts@.len() == n,
            i <= n,
            forall|v: usize|
                1 <= v <= n ==> #[trigger] cnts@[v - 1] == pending_count(es, none, v),
            queue@.no_duplicates(),
            forall|x: usize| queue@.contains(x) ==> 1 <= x <= i,
            forall|x: usize| #[trigger] queue@.contains(x) ==> cnts@[x - 1] == 0,
            forall|w: usize|
                1 <= w <= i ==> queue@.contains(w) || #[trigger] cnts@[w - 1] > 0,
        decreases n - i,
    {
        let v = i + 1;
        if cnts[v - 1] == 0 {
            proof {
                lemma_push_unique(queue@, v);
            }
            queue.push_back(v);
        }
        i = i + 1;
    }

    // pop entities whose remaining in-degree is zero; an edge out of a
    // popped entity releases one unit of its target's in-degree
    let mut order: Vec<usize> = Vec::new();
    proof {
        assert(order@ =~= none);
        assert forall|v: usize| 1 <= v <= n implies #[trigger] cnts@[v - 1] == pending_count(
            es,
            order@,
            v,
        ) by {
            assert(cnts@[v - 1] == pending_count(es, none, v));
        }
    }
    while queue.len() > 0
        invariant
            es == edges@,
            edges_in_range(n as nat, es),
            cnts@.len() == n,
            order@.no_duplicates(),
            forall|idx: int| 0 <= idx < order@.len() ==> 1 <= #[trigger] order@[idx] && order@[idx] <= n,
            queue@.no_duplicates(),
            forall|x: usize| #[trigger] queue@.contains(x) ==> 1 <= x <= n,
            forall|x: usize| !(order@.contains(x) && queue@.contains(x)),
            forall|v: usize|
                1 <= v <= n ==> #[trigger] cnts@[v - 1] == pending_count(es, order@, v),
            forall|x: usize| #[trigger] queue@.contains(x) ==> cnts@[x - 1] == 0,
            forall|x: usize| #[trigger] order@.contains(x) ==> cnts@[x - 1] == 0,
            forall|k0: int|
                0 <= k0 < es.len() && order@.contains(#[trigger] es[k0].1) ==> precedes(
                    order@,
                    es[k0].0,
                    es[k0].1,
                ),
            forall|w: usize|
                1 <= w <= n ==> order@.contains(w) || queue@.contains(w)
                    || #[trigger] cnts@[w - 1] > 0,
        decreases n - order@.len(),
    {
        proof {
            assert forall|a: int, b: int|
                0 <= a < order@.len() && 0 <= b < queue@.len() implies order@[a]
                != queue@[b] by {
                assert(order@.contains(order@[a]) && queue@.contains(queue@[b]));
            }
            lemma_no_dup_in_concat(order@, queue@);
            let both = order@ + queue@;
            assert forall|idx: int| 0 <= idx < both.len() implies 1 <= #[trigger] both[idx]
                && both[idx] <= n by {
                if idx < order@.len() {
                    assert(both[idx] == order@[idx]);
                } else {
                    assert(both[idx] == queue@[idx - order@.len()]);
                    assert(queue@.contains(queue@[idx - order@.len()]));
                }
            }
            lemma_distinct_in_range_len(order@ + queue@, n as nat);
        }
        let ghost prev = order@;
        let ghost prevq = queue@;
        let u = match queue.pop_front() {
            Some(u) => u,
            None => {
                proof {
                    assert(false);
                }
                1
            },
        };
        proof {
            assert(prevq.contains(u)) by {
                assert(prevq[0] == u);
            }
            assert forall|x: usize| #[trigger] queue@.contains(x) implies prevq.contains(
                x,
            ) by {
                let idx = choose|idx: int| 0 <= idx < queue@.len() && queue@[idx] == x;
                assert(prevq[idx + 1] == x);
            }
            assert(queue@.no_duplicates()) by {
                assert forall|a: int, b: int|
                    0 <= a < queue@.len() && 0 <= b < queue@.len() && a != b implies queue@[a]
                    != queue@[b] by {
                    assert(prevq[a + 1] == queue@[a] && prevq[b + 1] == queue@[b]);
                }
            }
            assert(!queue@.contains(u)) by {
                if queue@.contains(u) {
                    let idx = choose|idx: int| 0 <= idx < queue@.len() && queue@[idx] == u;
                    assert(prevq[idx + 1] == u && prevq[0] == u);
                }
            }
            assert forall|x: usize| prevq.contains(x) && x != u implies queue@.contains(
                x,
            ) by {
                let idx = choose|idx: int| 0 <= idx < prevq.len() && prevq[idx] == x;
                assert(idx != 0);
                assert(queue@[idx - 1] == x);
            }
            lemma_push_unique(prev, u);
        }
        order.push(u);
        proof {
            // every edge into u is already released, so its source is in prev
            assert forall|k0: int|
                0 <= k0 < es.len() && order@.contains(#[trigger] es[k0].1) implies precedes(
                order@,
                es[k0].0,
                es[k0].1,
            ) by {
                if es[k0].1 == u {
                    assert(pending_count(es, prev, u) == 0);
                    if !prev.contains(es[k0].0) {
                        lemma_pending_edge(es, prev, u, 0, es.len() as int, k0);
                    }
                    let idx = choose|idx: int| 0 <= idx < prev.len() && prev[idx] == es[k0].0;
                    assert(order@[idx] == es[k0].0 && order@[prev.len() as int] == u);
                } else {
                    assert(prev.contains(es[k0].1));
                    assert(precedes(prev, es[k0].0, es[k0].1));
                    let (a, b) = choose|a: int, b: int|
                        0 <= a < b < prev.len() && prev[a] == es[k0].0 && prev[b] == es[k0].1;
                    assert(order@[a] == es[k0].0 && order@[b] == es[k0].1);
                }
            }
            // the pending counts split into the accounted prefix and the rest
            assert forall|v: usize| 1 <= v <= n implies #[trigger] cnts@[v - 1]
                == pending_between(es, order@, v, 0, 0) + pending_between(
                es,
                prev,
                v,
                0,
                es.len() as int,
            ) by {
                lemma_pending_mono(es, prev, order@, v, 0, es.len() as int);
            }
        }
        let mut j: usize = 0;
        while j < edges.len()
            invariant
                es == edges@,
                edges_in_range(n as nat, es),
                cnts@.len() == n,
                j <= edges.len(),
                1 <= u <= n,
                order@ == prev.push(u),
                !prev.contains(u),
                order@.no_duplicates(),
                forall|idx: int|
                    0 <= idx < order@.len() ==> 1 <= #[trigger] order@[idx] && order@[idx]
                        <= n,
                queue@.no_duplicates(),
                forall|x: usize| #[trigger] queue@.contains(x) ==> 1 <= x <= n,
                forall|x: usize| !(order@.contains(x) && queue@.contains(x)),
                forall|v: usize|
                    1 <= v <= n ==> #[trigger] cnts@[v - 1] == pending_between(
                        es,
                        order@,
                        v,
                        0,
                        j as int,
                    ) + pending_between(es, prev, v, j as int, es.len() as int),
                forall|x: usize| #[trigger] queue@.contains(x) ==> cnts@[x - 1] == 0,
                forall|x: usize| #[trigger] order@.contains(x) ==> cnts@[x - 1] == 0,
                forall|k0: int|
                    0 <= k0 < es.len() && order@.contains(#[trigger] es[k0].1) ==> precedes(
                        order@,
                        es[k0].0,
                        es[k0].1,
                    ),
                forall|w: usize|
                    1 <= w <= n ==> order@.contains(w) || queue@.contains(w)
                        || #[trigger] cnts@[w - 1] > 0,
            decreases edges.len() - j,
        {
            let e = edges[j];
            proof {
                assert(edge_in_range(n as nat, es[j as int]));
            }
            if e.0 == u {
                let t = e.1;
                proof {
                    // the suffix still counts edge j, so the entry is positive
                    assert(pending_at(es, prev, t, j as int) == 1);
                    assert(pending_between(es, prev, t, j as int, es.len() as int) >= 1);
                    assert(cnts@[t - 1] >= 1);
                    assert(!order@.contains(t) && !queue@.contains(t));
                }
                let c = cnts[t - 1];
                cnts[t - 1] = c - 1;
                proof {
                    assert forall|v: usize| 1 <= v <= n implies #[trigger] cnts@[v - 1]
                        == pending_between(es, order@, v, 0, j as int + 1) + pending_between(
                        es,
                        prev,
                        v,
                        j as int + 1,
                        es.len() as int,
                    ) by {
                        lemma_pending_split(es, order@, v, 0, j as int, j as int + 1);
                        assert(pending_between(es, order@, v, j as int, j as int + 1)
                            == pending_at(es, order@, v, j as int) + pending_between(
                            es,
                            order@,
                            v,
                            j as int + 1,
                            j as int + 1,
                        ));
                        assert(pending_between(es, order@, v, j as int + 1, j as int + 1)
                            == 0);
                        assert(pending_between(es, prev, v, j as int, es.len() as int)
                            == pending_at(es, prev, v, j as int) + pending_between(
                            es,
                            prev,
                            v,
                            j as int + 1,
                            es.len() as int,
                        ));
                        assert(order@.contains(u));
                        assert(pending_at(es, order@, v, j as int) == 0);
                        if v == t {
                            assert(pending_at(es, prev, v, j as int) == 1);
                        } else {
                            assert(pending_at(es, prev, v, j as int) == 0);
                        }
                    }
                }
                if cnts[t - 1] == 0 {
                    proof {
                        lemma_push_unique(queue@, t);
                    }
                    queue.push_back(t);
                }
            } else {
                proof {
                    assert forall|v: usize| 1 <= v <= n implies #[trigger] cnts@[v - 1]
                        == pending_between(es, order@, v, 0, j as int + 1) + pending_between(
                        es,
                        prev,
                        v,
                        j as int + 1,
                        es.len() as int,
                    ) by {
                        lemma_pending_split(es, order@, v, 0, j as int, j as int + 1);
                        assert(pending_between(es, order@, v, j as int, j as int + 1)
                            == pending_at(es, order@, v, j as int) + pending_between(
                            es,
                            order@,
                            v,
                            j as int + 1,
                            j as int + 1,
                        ));
                        assert(pending_between(es, order@, v, j as int + 1, j as int + 1)
                            == 0);
                        assert(pending_between(es, prev, v, j as int, es.len() as int)
                            == pending_at(es, prev, v, j as int) + pending_between(
                            es,
                            prev,
                            v,
                            j as int + 1,
                            es.len() as int,
                        ));
                        assert(order@ == prev.push(u));
                        assert(order@.contains(es[j as int].0) <==> prev.contains(
                            es[j as int].0,
                        ) || es[j as int].0 == u);
                        assert(pending_at(es, order@, v, j as int) == pending_at(
                            es,
                            prev,
                            v,
                            j as int,
                        ));
                    }
                }
            }
            j = j + 1;
        }
    }

    if order.len() == n {
        proof {
            assert forall|k0: int| 0 <= k0 < es.len() implies precedes(
                order@,
                #[trigger] es[k0].0,
                es[k0].1,
            ) by {
                assert(edge_in_range(n as nat, es[k0]));
                lemma_full_range_contains(order@, n as nat, es[k0].1);
            }
            assert(is_topo_order(n as nat, es, order@));
            if exists|p: Seq<usize>| is_cycle(es, p) {
                let p = choose|p: Seq<usize>| is_cycle(es, p);
                lemma_cycle_no_topo_order(n as nat, es, p);
            }
        }
        Ok(order)
    } else {
        proof {
            lemma_distinct_in_range_len(order@, n as nat);
            assert forall|v: usize| 1 <= v <= n && !order@.contains(v) implies exists|k0: int|
                0 <= k0 < es.len() && #[trigger] es[k0].1 == v && !order@.contains(
                es[k0].0,
            ) by {
                assert(cnts@[v - 1] > 0);
                lemma_pending_witness(es, order@, v, 0, es.len() as int);
            }
            lemma_blocked_no_topo_order(n as nat, es, order@);
            lemma_blocked_has_cycle(n as nat, es, order@);
        }
        Err(LayoutError::CycleDetected)
    }
}

// ---------------------------------------------------------------------
// sorting the edge list along the ordering
// ---------------------------------------------------------------------

/// Lexicographic comparison of edges by the positions of their endpoints:
/// `pos` holds, at `entity - 1`, the entity's index in a topological order.
pub open spec fn key_le(pos: Seq<usize>, e1: (usize, usize), e2: (usize, usize)) -> bool {
    pos[e1.0 - 1] < pos[e2.0 - 1] || (pos[e1.0 - 1] == pos[e2.0 - 1] && pos[e1.1 - 1] <= pos[e2.1
        - 1])
}

/// The edge list ascends by `(position of source, position of target)`.
pub open spec fn sorted_by_key(pos: Seq<usize>, es: Seq<(usize, usize)>) -> bool {
    forall|i: int, j: int| 0 <= i < j < es.len() ==> key_le(pos, #[trigger] es[i], #[trigger] es[j])
}

/// The index each entity takes in the ordering, stored at `entity - 1`.
fn positions(n: usize, order: &Vec<usize>) -> (pos: Vec<usize>)
    requires
        order@.len() == n,
        forall|i: int| 0 <= i < order@.len() ==> 1 <= #[trigger] order@[i] && order@[i] <= n,
        order@.no_duplicates(),
    ensures
        pos@.len() == n,
        forall|k: int| 0 <= k < n ==> #[trigger] pos@[order@[k] - 1] == k,
{
    let mut pos: Vec<usize> = filled(n, 0);
    let mut k: usize = 0;
    while k < n
        invariant
            order@.len() == n,
            forall|i: int| 0 <= i < order@.len() ==> 1 <= #[trigger] order@[i] && order@[i] <= n,
            order@.no_duplicates(),
            pos@.len() == n,
            k <= n,
            forall|m: int| 0 <= m < k ==> #[trigger] pos@[order@[m] - 1] == m,
        decreases n - k,
    {
        let v = order[k];
        pos[v - 1] = k;
        proof {
            assert forall|m: int| 0 <= m < k + 1 implies #[trigger] pos@[order@[m] - 1]
                == m by {
                if m < k {
                    assert(order@[m] != order@[k as int]);
                }
            }
        }
        k = k + 1;
    }
    pos
}

/// Stable insertion sort of the edge list by endpoint positions.
fn sort_edges_by_pos(n: usize, pos: &Vec<usize>, edges: &Vec<(usize, usize)>) -> (sorted: Vec<
    (usize, usize),
>)
    requires
        pos@.len() == n,
        edges_in_range(n as nat, edges@),
    ensures
        sorted@.to_multiset() == edges@.to_multiset(),
        sorted_by_key(pos@, sorted@),
        edges_in_range(n as nat, sorted@),
{
    broadcast use vstd::seq_lib::group_to_multiset_ensures;

    let mut out: Vec<(usize, usize)> = Vec::new();
    let mut k: usize = 0;
    while k < edges.len()
        invariant
            pos@.len() == n,
            edges_in_range(n as nat, edges@),
            k <= edges.len(),
            out@.to_multiset() == edges@.take(k as int).to_multiset(),
            sorted_by_key(pos@, out@),
            edges_in_range(n as nat, out@),
        decreases edges.len() - k,
    {
        broadcast use vstd::seq_lib::group_to_multiset_ensures;

        let e = edges[k];
        proof {
            assert(edge_in_range(n as nat, edges@[k as int]));
        }
        let mut idx: usize = 0;
        while idx < out.len() && key_le_exec(pos, out[idx], e)
            invariant
                pos@.len() == n,
                edges_in_range(n as nat, out@),
                edge_in_range(n as nat, e),
                idx <= out@.len(),
                sorted_by_key(pos@, out@),
                forall|m: int| 0 <= m < idx ==> key_le(pos@, #[trigger] out@[m], e),
            decreases out.len() - idx,
        {
            idx = idx + 1;
        }
        proof {
            assert forall|m: int| idx <= m < out@.len() implies key_le(
                pos@,
                e,
                #[trigger] out@[m],
            ) by {
                assert(!key_le(pos@, out@[idx as int], e));
            }
        }
        let ghost prevout = out@;
        out.insert(idx, e);
        proof {
            prevout.insert_ensures(idx as int, e);
            assert forall|i: int, j: int| 0 <= i < j < out@.len() implies key_le(
                pos@,
                #[trigger] out@[i],
                #[trigger] out@[j],
            ) by {
                let ii = if i < idx { i } else { i - 1 };
                let jj = if j < idx { j } else { j - 1 };
                if i == idx && j == idx {
                } else if i == idx {
                    assert(out@[j] == prevout[jj]);
                } else if j == idx {
                    assert(out@[i] == prevout[ii]);
                } else {
                    assert(out@[i] == prevout[ii] && out@[j] == prevout[jj]);
                }
            }
            assert forall|i: int| 0 <= i < out@.len() implies edge_in_range(
                n as nat,
                #[trigger] out@[i],
            ) by {
                if i != idx {
                    let ii = if i < idx { i } else { i - 1 };
                    assert(out@[i] == prevout[ii]);
                }
            }
            // the new element lands in the multiset like a push would
            assert(prevout =~= prevout.subrange(0, idx as int) + prevout.subrange(
                idx as int,
                prevout.len() as int,
            ));
            lemma_multiset_commutative(
                prevout.subrange(0, idx as int),
                prevout.subrange(idx as int, prevout.len() as int),
            );
            lemma_multiset_commutative(
                prevout.subrange(0, idx as int).push(e),
                prevout.subrange(idx as int, prevout.len() as int),
            );
            assert(out@.to_multiset() =~= prevout.to_multiset().insert(e));
            assert(edges@.take(k as int + 1) =~= edges@.take(k as int).push(
                edges@[k as int],
            ));
        }
        k = k + 1;
    }
    proof {
        assert(edges@.take(edges@.len() as int) =~= edges@);
    }
    out
}

/// Executable form of [`key_le`].
fn key_le_exec(pos: &Vec<usize>, e1: (usize, usize), e2: (usize, usize)) -> (r: bool)
    requires
        1 <= e1.0 <= pos@.len(),
        1 <= e1.1 <= pos@.len(),
        1 <= e2.0 <= pos@.len(),
        1 <= e2.1 <= pos@.len(),
    ensures
        r == key_le(pos@, e1, e2),
{
    pos[e1.0 - 1] < pos[e2.0 - 1] || (pos[e1.0 - 1] == pos[e2.0 - 1] && pos[e1.1 - 1] <= pos[e2.1
        - 1])
}

/// Everything a successful re-sort promises: the result is a permutation
/// of the input that ascends by `(position of source, position of target)`
/// under a topological ordering of the entities, so every edge into an
/// entity stands before every edge out of it.
pub open spec fn sorted_edges_ok(n: nat, input: Seq<(usize, usize)>, sorted: Seq<(usize, usize)>) -> bool {
    &&& sorted.to_multiset() == input.to_multiset()
    &&& edges_in_range(n, sorted)
    &&& edges_topo_sorted(sorted)
    &&& has_topo_order(n, input)
    &&& exists|pos: Seq<usize>|
        {
            &&& pos.len() == n
            &&& (forall|k: int|
                0 <= k < sorted.len() ==> pos[#[trigger] sorted[k].0 - 1] < pos[sorted[k].1
                    - 1])
            &&& #[trigger] sorted_by_key(pos, sorted)
        }
}

/// Re-sorts the relation list so that it follows a Kahn traversal of the
/// entity graph: every edge into an entity stands before every edge out of
/// it. The caller's list is left untouched; a cyclic graph is reported as
/// an error.
pub fn topological_sort_edges(n: usize, edges: &Vec<(usize, usize)>) -> (r: Result<
    Vec<(usize, usize)>,
    LayoutError,
>)
    requires
        edges_in_range(n as nat, edges@),
    ensures
        match r {
            Ok(sorted) => sorted_edges_ok(n as nat, edges@, sorted@),
            Err(e) => e == LayoutError::CycleDetected && !has_topo_order(n as nat, edges@),
        },
        (exists|p: Seq<usize>| is_cycle(edges@, p)) <==> r is Err,
{
    let order = match topological_order(n, edges) {
        Ok(order) => order,
        Err(e) => {
            return Err(e);
        },
    };
    let pos = positions(n, &order);
    let sorted = sort_edges_by_pos(n, &pos, edges);
    proof {
        let es = sorted@;
        // every edge keeps its endpoints in order, so its key is strictly
        // increasing along the edge itself
        assert forall|k: int|
            0 <= k < es.len() implies pos@[#[trigger] es[k].0 - 1] < pos@[es[k].1 - 1] by {
            lemma_sorted_edge_key(n as nat, edges@, es, order@, pos@, k);
        }
        assert(pos@.len() == n);
        assert forall|i: int, j: int|
            0 <= i < es.len() && 0 <= j < es.len() && #[trigger] es[i].1
                == #[trigger] es[j].0 implies i < j by {
            if j < i {
                assert(key_le(pos@, es[j], es[i]));
            } else if i == j {
            }
        }
        assert(exists|pos2: Seq<usize>|
            {
                &&& pos2.len() == n
                &&& (forall|k: int|
                    0 <= k < es.len() ==> pos2[#[trigger] es[k].0 - 1] < pos2[es[k].1 - 1])
                &&& #[trigger] sorted_by_key(pos2, es)
            }) by {
            assert({
                &&& pos@.len() == n
                &&& (forall|k: int|
                    0 <= k < es.len() ==> pos@[#[trigger] es[k].0 - 1] < pos@[es[k].1 - 1])
                &&& sorted_by_key(pos@, es)
            });
        }
        assert(sorted_edges_ok(n as nat, edges@, sorted@));
    }
    Ok(sorted)
}

/// An edge of the sorted list is an edge of the input list, so its source
/// precedes its target in the ordering.
proof fn lemma_sorted_edge_key(
    n: nat,
    input: Seq<(usize, usize)>,
    es: Seq<(usize, usize)>,
    order: Seq<usize>,
    pos: Seq<usize>,
    k: int,
)
    requires
        es.to_multiset() == input.to_multiset(),
        is_topo_order(n, input, order),
        pos.len() == n,
        forall|m: int| 0 <= m < n ==> #[trigger] pos[order[m] - 1] == m,
        0 <= k < es.len(),
        edge_in_range(n, es[k]),
    ensures
        pos[es[k].0 - 1] < pos[es[k].1 - 1],
{
    broadcast use vstd::seq_lib::group_to_multiset_ensures;

    assert(es.contains(es[k]));
    assert(es.to_multiset().count(es[k]) > 0);
    assert(input.contains(es[k]));
    let k0 = choose|k0: int| 0 <= k0 < input.len() && input[k0] == es[k];
    assert(precedes(order, input[k0].0, input[k0].1));
    let (i, j) = choose|i: int, j: int|
        0 <= i < j < order.len() && order[i] == es[k].0 && order[j] == es[k].1;
    assert(pos[order[i] - 1] == i && pos[order[j] - 1] == j);
}

// ---------------------------------------------------------------------
// longest-path layering
// ---------------------------------------------------------------------

/// Longest-path layering over a topologically sorted edge list.
///
/// Entities are 1-indexed; index 0 is the virtual root that seeds entities
/// without predecessors and keeps rank 1. Every rank starts at 1; walking
/// the edges in topological order raises each target at least one layer
/// above its source, and a repair pass re-propagates through targets that
/// were already visited. The result: every relation points to a strictly
/// later row, exactly the source entities sit in the first row, and each
/// entity's rank is reached by a chain of relations ending at it — with
/// [`lemma_path_bounds_rank`], the rank is one more than the longest such
/// chain.
pub fn calc_rank<T>(nodes: &Vec<T>, edges: &Vec<(usize, usize)>) -> (ranks: Vec<usize>)
    requires
        edges_in_range(nodes@.len(), edges@),
        edges_topo_sorted(edges@),
        2 * edges@.len() + 1 <= usize::MAX,
    ensures
        ranks@.len() == nodes@.len() + 1,
        forall|k: int|
            0 <= k < edges@.len() ==> ranks@[#[trigger] edges@[k].1 as int] >= ranks@[edges@[
                k
            ].0 as int] + 1,
        forall|v: int| 0 <= v < ranks@.len() ==> 1 <= #[trigger] ranks@[v] <= 1 + 2 * edges@.len(),
        ranks@[0] == 1,
        forall|v: usize|
            1 <= v <= nodes@.len() ==> ((#[trigger] ranks@[v as int] == 1) <==> !has_incoming(
                edges@,
                v,
            )),
        forall|v: usize|
            1 <= v <= nodes@.len() ==> #[trigger] rank_reached(edges@, ranks@, v),
{
    let ghost es = edges@;
    let n = nodes.len();
    // the virtual root 0 counts as visited from the start
    let mut visited: Vec<bool> = filled(n, false);
    visited.push(false);
    visited[0] = true;
    let mut ranks: Vec<usize> = filled(n, 1);
    ranks.push(1);
    // ghost witnesses: a chain of relations that reaches each entity's rank
    let ghost mut paths: Seq<Seq<usize>> = Seq::new((n + 1) as nat, |v: int| seq![v as usize]);
    proof {
        assert forall|v: int| 1 <= v < n + 1 implies is_path(es, #[trigger] paths[v])
            && paths[v].last() as int == v && paths[v].len() == ranks@[v] by {
            assert(paths[v] =~= seq![v as usize]);
            assert(is_path(es, paths[v]));
        }
    }

    let mut k: usize = 0;
    while k < edges.len()
        invariant
            es == edges@,
            n == nodes@.len(),
            edges_in_range(n as nat, es),
            edges_topo_sorted(es),
            2 * es.len() + 1 <= usize::MAX,
            ranks@.len() == n + 1,
            visited@.len() == n + 1,
            k <= es.len(),
            forall|i: int|
                0 <= i < k ==> ranks@[#[trigger] es[i].1 as int] >= ranks@[es[i].0 as int] + 1,
            forall|v: int| 0 <= v < n + 1 ==> 1 <= #[trigger] ranks@[v] <= 1 + 2 * k,
            ranks@[0] == 1,
            forall|v: usize|
                1 <= v <= n && !has_incoming(es, v) ==> #[trigger] ranks@[v as int] == 1,
            paths.len() == n + 1,
            forall|v: int|
                1 <= v < n + 1 ==> is_path(es, #[trigger] paths[v]) && paths[v].last() as int
                    == v && paths[v].len() == ranks@[v],
        decreases es.len() - k,
    {
        let e = edges[k];
        let (a, b) = (e.0, e.1);
        proof {
            assert(edge_in_range(n as nat, es[k as int]));
            if es[k as int].0 == es[k as int].1 {
                assert(k < k);  // a self-loop contradicts the sorted order
            }
        }
        let ra = ranks[a];
        let ghost pre0 = ranks@;
        if ranks[b] < ra + 1 {
            ranks[b] = ra + 1;
            proof {
                assert(has_incoming(es, b)) by {
                    assert(es[k as int].1 == b);
                }
                let pa = paths[a as int];
                let pb = pa.push(b);
                assert(is_path(es, pb)) by {
                    assert forall|ii: int| 0 <= ii < pb.len() - 1 implies is_edge(
                        es,
                        #[trigger] pb[ii],
                        pb[ii + 1],
                    ) by {
                        if ii < pa.len() - 1 {
                            assert(pb[ii] == pa[ii] && pb[ii + 1] == pa[ii + 1]);
                        } else {
                            assert(pb[ii] == pa.last() && pb[ii + 1] == b);
                            assert(es[k as int] == (a, b));
                        }
                    }
                }
                let ghost oldpaths = paths;
                paths = paths.update(b as int, pb);
                assert forall|v: int|
                    1 <= v < n + 1 implies is_path(es, #[trigger] paths[v]) && paths[
                    v
                ].last() as int == v && paths[v].len() == ranks@[v] by {
                    if v == b {
                        assert(paths[v] == pb);
                        assert(pa.len() == pre0[a as int]);
                    } else {
                        assert(paths[v] == oldpaths[v]);
                        assert(ranks@[v] == pre0[v]);
                    }
                }
            }
        }
        let ghost mid = ranks@;
        proof {
            assert forall|i: int|
                0 <= i < k implies mid[#[trigger] es[i].1 as int] >= mid[es[i].0 as int]
                + 1 by {
                if es[i].0 == b {
                    assert(es[k as int].1 == es[i].0);  // forces k < i
                }
            }
            assert(mid[b as int] >= mid[a as int] + 1);
        }
        if visited[b] {
            // repair pass: edges out of b may have been processed before
            // b's rank settled, so raise their targets again now
            let mut j: usize = 0;
            while j < edges.len()
                invariant
                    es == edges@,
                    n == nodes@.len(),
                    edges_in_range(n as nat, es),
                    edges_topo_sorted(es),
                    2 * es.len() + 1 <= usize::MAX,
                    ranks@.len() == n + 1,
                    k < es.len(),
                    j <= es.len(),
                    a == es[k as int].0 && b == es[k as int].1,
                    ranks@[a as int] == mid[a as int],
                    ranks@[b as int] == mid[b as int],
                    forall|i: int|
                        0 <= i < k ==> ranks@[#[trigger] es[i].1 as int] >= ranks@[es[
                            i
                        ].0 as int] + 1,
                    ranks@[b as int] >= ranks@[a as int] + 1,
                    forall|v: int| 0 <= v < n + 1 ==> #[trigger] mid[v] <= 1 + 2 * k + 1,
                    forall|v: int|
                        0 <= v < n + 1 ==> mid[v] <= #[trigger] ranks@[v] <= 1 + 2 * k + 2,
                    ranks@[0] == 1,
                    forall|v: usize|
                        1 <= v <= n && !has_incoming(es, v) ==> #[trigger] ranks@[v as int]
                            == 1,
                    paths.len() == n + 1,
                    forall|v: int|
                        1 <= v < n + 1 ==> is_path(es, #[trigger] paths[v]) && paths[
                            v
                        ].last() as int == v && paths[v].len() == ranks@[v],
                decreases es.len() - j,
            {
                let e2 = edges[j];
                if e2.0 == b {
                    let c = e2.1;
                    proof {
                        assert(edge_in_range(n as nat, es[j as int]));
                        // b's edges all stand after edge k in the sorted list
                        assert(es[k as int].1 == es[j as int].0);  // forces k < j
                        if es[j as int].0 == es[j as int].1 {
                            assert(j < j);
                        }
                        if es[j as int].1 == es[k as int].0 {
                            assert(j < k);  // an edge back to a cannot exist
                        }
                    }
                    let rb = ranks[b];
                    if ranks[c] < rb + 1 {
                        let ghost before = ranks@;
                        ranks[c] = rb + 1;
                        proof {
                            assert forall|i: int|
                                0 <= i < k implies ranks@[#[trigger] es[i].1 as int]
                                >= ranks@[es[i].0 as int] + 1 by {
                                if es[i].0 == c {
                                    assert(es[j as int].1 == es[i].0);  // forces j < i
                                }
                            }
                            assert(has_incoming(es, c)) by {
                                assert(es[j as int].1 == c);
                            }
                            let pb2 = paths[b as int];
                            let pc = pb2.push(c);
                            assert(is_path(es, pc)) by {
                                assert forall|ii: int|
                                    0 <= ii < pc.len() - 1 implies is_edge(
                                    es,
                                    #[trigger] pc[ii],
                                    pc[ii + 1],
                                ) by {
                                    if ii < pb2.len() - 1 {
                                        assert(pc[ii] == pb2[ii] && pc[ii + 1] == pb2[ii
                                            + 1]);
                                    } else {
                                        assert(pc[ii] == pb2.last() && pc[ii + 1] == c);
                                        assert(es[j as int] == (b, c));
                                    }
                                }
                            }
                            let ghost oldpaths = paths;
                            paths = paths.update(c as int, pc);
                            assert forall|v: int|
                                1 <= v < n + 1 implies is_path(es, #[trigger] paths[v])
                                && paths[v].last() as int == v && paths[v].len() == ranks@[
                                v
                            ] by {
                                if v == c {
                                    assert(paths[v] == pc);
                                    assert(pb2.len() == before[b as int]);
                                } else {
                                    assert(paths[v] == oldpaths[v]);
                                    assert(ranks@[v] == before[v]);
                                }
                            }
                        }
                    }
                }
                j = j + 1;
            }
        }
        visited[a] = true;
        visited[b] = true;
        k = k + 1;
        proof {
            assert forall|v: int|
                0 <= v < n + 1 implies 1 <= #[trigger] ranks@[v] <= 1 + 2 * k by {
                assert(mid[v] <= 1 + 2 * (k - 1) + 1);
            }
        }
    }
    proof {
        assert forall|v: usize|
            1 <= v <= n && has_incoming(es, v) implies #[trigger] ranks@[v as int] >= 2 by {
            let k0 = choose|k0: int| 0 <= k0 < es.len() && (#[trigger] es[k0]).1 == v;
            assert(ranks@[es[k0].1 as int] >= ranks@[es[k0].0 as int] + 1);
        }
        assert forall|v: usize| 1 <= v <= n implies #[trigger] rank_reached(es, ranks@, v) by {
            let p = paths[v as int];
            assert(is_path(es, p) && p.last() == v && p.len() == ranks@[v as int]);
        }
    }
    ranks
}

} // verus!
