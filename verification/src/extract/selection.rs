//! What a choice of one node per class means: the classes it reaches, whether
//! it is cyclic, and what it weighs.
use crate::cost::{larger, plus, settle, Cost, INFINITY};
use crate::egraph::{ClassId, EGraph, NodeId};
use vstd::prelude::*;

verus! {

/// The node chosen for class `a` has a child in class `b`.
pub open spec fn edge(g: EGraph, sel: Map<ClassId, NodeId>, a: ClassId, b: ClassId) -> bool {
    sel.contains_key(a) && g.depends(sel[a], b)
}

/// Class `b` is `n` chosen edges below class `a`.
pub open spec fn walk(g: EGraph, sel: Map<ClassId, NodeId>, a: ClassId, b: ClassId, n: nat) -> bool
    decreases n,
{
    if n == 0 {
        a == b
    } else {
        exists|m: ClassId| walk(g, sel, a, m, (n - 1) as nat) && #[trigger] edge(g, sel, m, b)
    }
}

/// Class `c` is below one of the roots, or is one.
pub open spec fn reaches(
    g: EGraph,
    sel: Map<ClassId, NodeId>,
    roots: Seq<ClassId>,
    c: ClassId,
) -> bool {
    exists|r: ClassId, n: nat| roots.contains(r) && #[trigger] walk(g, sel, r, c, n)
}

/// Class `c` is below itself.
pub open spec fn on_cycle(g: EGraph, sel: Map<ClassId, NodeId>, c: ClassId) -> bool {
    exists|n: nat| n > 0 && #[trigger] walk(g, sel, c, c, n)
}

/// Every chosen node is a node of the e-graph.
pub open spec fn nodes_known(g: EGraph, sel: Map<ClassId, NodeId>) -> bool {
    forall|c: ClassId| #[trigger] sel.contains_key(c) ==> sel[c] < g.nodes@.len()
}

/// Every chosen node belongs to the class it is chosen for.
pub open spec fn in_class(g: EGraph, sel: Map<ClassId, NodeId>) -> bool {
    forall|c: ClassId| #[trigger]
        sel.contains_key(c) ==> sel[c] < g.nodes@.len() && g.nodes@[sel[c] as int].eclass == c
}

/// Every node chosen for a class below the roots belongs to it.
pub open spec fn placed(g: EGraph, sel: Map<ClassId, NodeId>, roots: Seq<ClassId>) -> bool {
    forall|c: ClassId| #[trigger]
        reaches(g, sel, roots, c) && sel.contains_key(c) ==> sel[c] < g.nodes@.len()
            && g.nodes@[sel[c] as int].eclass == c
}

/// Every class below the roots has a choice.
pub open spec fn covers(g: EGraph, sel: Map<ClassId, NodeId>, roots: Seq<ClassId>) -> bool {
    forall|c: ClassId| #[trigger] reaches(g, sel, roots, c) ==> sel.contains_key(c)
}

/// Except along edges into `except`, `rank` falls from every class below the
/// roots to its children.
pub open spec fn ranked_except(
    g: EGraph,
    sel: Map<ClassId, NodeId>,
    roots: Seq<ClassId>,
    except: Seq<ClassId>,
    rank: Map<ClassId, nat>,
) -> bool {
    forall|a: ClassId, b: ClassId|
        reaches(g, sel, roots, a) && #[trigger] edge(g, sel, a, b) ==> except.contains(b) || rank[b]
            < rank[a]
}

/// `rank` falls from every class below the roots to its children.
pub open spec fn ranked(
    g: EGraph,
    sel: Map<ClassId, NodeId>,
    roots: Seq<ClassId>,
    rank: Map<ClassId, nat>,
) -> bool {
    ranked_except(g, sel, roots, Seq::<ClassId>::empty(), rank)
}

/// The classes below the roots can be ordered with children before parents.
pub open spec fn acyclic(g: EGraph, sel: Map<ClassId, NodeId>, roots: Seq<ClassId>) -> bool {
    exists|rank: Map<ClassId, nat>| ranked(g, sel, roots, rank)
}

/// A selection that can be costed and converted: complete and acyclic below the
/// roots, with every node there in its own class. What is chosen for other
/// classes does not matter, as long as it is a node.
pub open spec fn valid(g: EGraph, sel: Map<ClassId, NodeId>, roots: Seq<ClassId>) -> bool {
    &&& nodes_known(g, sel)
    &&& placed(g, sel, roots)
    &&& covers(g, sel, roots)
    &&& acyclic(g, sel, roots)
}

/// Every root is a class of the e-graph.
pub open spec fn roots_known(g: EGraph, roots: Seq<ClassId>) -> bool {
    forall|i: int| 0 <= i < roots.len() ==> (#[trigger] roots[i]) < g.classes@.len()
}

// ---------------------------------------------------------------------------
// Walks
// ---------------------------------------------------------------------------

pub proof fn lemma_reaches_root(
    g: EGraph,
    sel: Map<ClassId, NodeId>,
    roots: Seq<ClassId>,
    c: ClassId,
)
    requires
        roots.contains(c),
    ensures
        reaches(g, sel, roots, c),
{
    assert(walk(g, sel, c, c, 0));
}

pub proof fn lemma_reaches_step(
    g: EGraph,
    sel: Map<ClassId, NodeId>,
    roots: Seq<ClassId>,
    a: ClassId,
    b: ClassId,
)
    requires
        reaches(g, sel, roots, a),
        edge(g, sel, a, b),
    ensures
        reaches(g, sel, roots, b),
{
    let (r, n) = choose|r: ClassId, n: nat| roots.contains(r) && #[trigger] walk(g, sel, r, a, n);
    assert(walk(g, sel, r, b, n + 1));
}

pub proof fn lemma_walk_step(
    g: EGraph,
    sel: Map<ClassId, NodeId>,
    a: ClassId,
    b: ClassId,
    c: ClassId,
    n: nat,
)
    requires
        walk(g, sel, a, b, n),
        edge(g, sel, b, c),
    ensures
        walk(g, sel, a, c, n + 1),
{
    assert(walk(g, sel, a, b, (n + 1 - 1) as nat));
}

pub proof fn lemma_walk_trans(
    g: EGraph,
    sel: Map<ClassId, NodeId>,
    a: ClassId,
    b: ClassId,
    c: ClassId,
    n: nat,
    m: nat,
)
    requires
        walk(g, sel, a, b, n),
        walk(g, sel, b, c, m),
    ensures
        walk(g, sel, a, c, n + m),
    decreases m,
{
    if m > 0 {
        let k = choose|k: ClassId|
            walk(g, sel, b, k, (m - 1) as nat) && #[trigger] edge(g, sel, k, c);
        lemma_walk_trans(g, sel, a, b, k, n, (m - 1) as nat);
        lemma_walk_step(g, sel, a, k, c, (n + (m - 1)) as nat);
    }
}

pub proof fn lemma_reaches_walk(
    g: EGraph,
    sel: Map<ClassId, NodeId>,
    roots: Seq<ClassId>,
    a: ClassId,
    b: ClassId,
    n: nat,
)
    requires
        reaches(g, sel, roots, a),
        walk(g, sel, a, b, n),
    ensures
        reaches(g, sel, roots, b),
{
    let (r, m) = choose|r: ClassId, m: nat| roots.contains(r) && #[trigger] walk(g, sel, r, a, m);
    lemma_walk_trans(g, sel, r, a, b, m, n);
}

/// A set that holds the roots and, with a class, its children, holds every
/// class below the roots.
pub proof fn lemma_reaches_closed(
    g: EGraph,
    sel: Map<ClassId, NodeId>,
    roots: Seq<ClassId>,
    closed: Set<ClassId>,
    c: ClassId,
)
    requires
        forall|r: ClassId| #[trigger] roots.contains(r) ==> closed.contains(r),
        forall|a: ClassId, b: ClassId|
            closed.contains(a) && #[trigger] edge(g, sel, a, b) ==> closed.contains(b),
        reaches(g, sel, roots, c),
    ensures
        closed.contains(c),
{
    let (r, n) = choose|r: ClassId, n: nat| roots.contains(r) && #[trigger] walk(g, sel, r, c, n);
    lemma_walk_closed(g, sel, closed, r, c, n);
}

proof fn lemma_walk_closed(
    g: EGraph,
    sel: Map<ClassId, NodeId>,
    closed: Set<ClassId>,
    a: ClassId,
    c: ClassId,
    n: nat,
)
    requires
        closed.contains(a),
        forall|x: ClassId, y: ClassId|
            closed.contains(x) && #[trigger] edge(g, sel, x, y) ==> closed.contains(y),
        walk(g, sel, a, c, n),
    ensures
        closed.contains(c),
    decreases n,
{
    if n > 0 {
        let m = choose|m: ClassId|
            walk(g, sel, a, m, (n - 1) as nat) && #[trigger] edge(g, sel, m, c);
        lemma_walk_closed(g, sel, closed, a, m, (n - 1) as nat);
    }
}

/// A rank that falls along every edge falls along every walk.
pub proof fn lemma_rank_walk(
    g: EGraph,
    sel: Map<ClassId, NodeId>,
    roots: Seq<ClassId>,
    rank: Map<ClassId, nat>,
    a: ClassId,
    b: ClassId,
    n: nat,
)
    requires
        ranked(g, sel, roots, rank),
        reaches(g, sel, roots, a),
        walk(g, sel, a, b, n),
    ensures
        rank[b] + n <= rank[a],
        reaches(g, sel, roots, b),
    decreases n,
{
    if n > 0 {
        let m = choose|m: ClassId|
            walk(g, sel, a, m, (n - 1) as nat) && #[trigger] edge(g, sel, m, b);
        lemma_rank_walk(g, sel, roots, rank, a, m, (n - 1) as nat);
        lemma_reaches_step(g, sel, roots, m, b);
    }
}

/// An acyclic selection has no class below the roots that is below itself.
pub proof fn acyclic_means_no_cycle(
    g: EGraph,
    sel: Map<ClassId, NodeId>,
    roots: Seq<ClassId>,
    c: ClassId,
)
    requires
        acyclic(g, sel, roots),
        reaches(g, sel, roots, c),
    ensures
        !on_cycle(g, sel, c),
{
    let rank = choose|rank: Map<ClassId, nat>| ranked(g, sel, roots, rank);
    if on_cycle(g, sel, c) {
        let n = choose|n: nat| n > 0 && #[trigger] walk(g, sel, c, c, n);
        lemma_rank_walk(g, sel, roots, rank, c, c, n);
    }
}

/// Choices for classes that are not below the roots do not matter: two
/// selections that agree below the roots reach the same classes.
pub proof fn lemma_reaches_agree(
    g: EGraph,
    s1: Map<ClassId, NodeId>,
    s2: Map<ClassId, NodeId>,
    roots: Seq<ClassId>,
    c: ClassId,
)
    requires
        forall|x: ClassId| #[trigger]
            reaches(g, s1, roots, x) ==> s1.contains_key(x) == s2.contains_key(x) && s1[x] == s2[x],
        reaches(g, s1, roots, c),
    ensures
        reaches(g, s2, roots, c),
{
    let (r, n) = choose|r: ClassId, n: nat| roots.contains(r) && #[trigger] walk(g, s1, r, c, n);
    lemma_walk_agree(g, s1, s2, roots, r, c, n);
}

proof fn lemma_walk_agree(
    g: EGraph,
    s1: Map<ClassId, NodeId>,
    s2: Map<ClassId, NodeId>,
    roots: Seq<ClassId>,
    r: ClassId,
    c: ClassId,
    n: nat,
)
    requires
        forall|x: ClassId| #[trigger]
            reaches(g, s1, roots, x) ==> s1.contains_key(x) == s2.contains_key(x) && s1[x] == s2[x],
        roots.contains(r),
        walk(g, s1, r, c, n),
    ensures
        walk(g, s2, r, c, n),
    decreases n,
{
    if n > 0 {
        let m = choose|m: ClassId|
            walk(g, s1, r, m, (n - 1) as nat) && #[trigger] edge(g, s1, m, c);
        lemma_walk_agree(g, s1, s2, roots, r, m, (n - 1) as nat);
        assert(reaches(g, s1, roots, m));
        assert(edge(g, s2, m, c));
    }
}

/// Choices for unreachable classes are ignored: whatever node is chosen for a
/// class that is not below the roots, a selection stays as valid as it was.
pub proof fn stray_choices_are_ignored(
    g: EGraph,
    sel: Map<ClassId, NodeId>,
    roots: Seq<ClassId>,
    c: ClassId,
    n: NodeId,
)
    requires
        nodes_known(g, sel),
        !reaches(g, sel, roots, c),
        n < g.nodes@.len(),
    ensures
        valid(g, sel.insert(c, n), roots) <==> valid(g, sel, roots),
{
    let other = sel.insert(c, n);
    let below = Set::new(|x: ClassId| reaches(g, sel, roots, x));
    assert forall|x: ClassId| #[trigger] reaches(g, other, roots, x) implies reaches(
        g,
        sel,
        roots,
        x,
    ) by {
        assert forall|r: ClassId| #[trigger] roots.contains(r) implies below.contains(r) by {
            lemma_reaches_root(g, sel, roots, r);
        }
        assert forall|a: ClassId, b: ClassId|
            below.contains(a) && #[trigger] edge(g, other, a, b) implies below.contains(b) by {
            assert(edge(g, sel, a, b));
            lemma_reaches_step(g, sel, roots, a, b);
        }
        lemma_reaches_closed(g, other, roots, below, x);
    }
    assert forall|x: ClassId| #[trigger] reaches(g, sel, roots, x) implies reaches(
        g,
        other,
        roots,
        x,
    ) by {
        lemma_reaches_agree(g, sel, other, roots, x);
    }
    if valid(g, sel, roots) {
        let rank = choose|rank: Map<ClassId, nat>| ranked(g, sel, roots, rank);
        assert forall|a: ClassId, b: ClassId|
            reaches(g, other, roots, a) && #[trigger] edge(g, other, a, b) implies Seq::<
            ClassId,
        >::empty().contains(b) || rank[b] < rank[a] by {
            assert(reaches(g, sel, roots, a));
            assert(edge(g, sel, a, b));
        }
        assert(ranked(g, other, roots, rank));
        assert forall|x: ClassId| #[trigger] reaches(
            g,
            other,
            roots,
            x,
        ) implies other.contains_key(x) && other[x] < g.nodes@.len()
            && g.nodes@[other[x] as int].eclass == x by {
            assert(reaches(g, sel, roots, x));
        }
    }
    if valid(g, other, roots) {
        let rank = choose|rank: Map<ClassId, nat>| ranked(g, other, roots, rank);
        assert forall|a: ClassId, b: ClassId|
            reaches(g, sel, roots, a) && #[trigger] edge(g, sel, a, b) implies Seq::<
            ClassId,
        >::empty().contains(b) || rank[b] < rank[a] by {
            assert(reaches(g, other, roots, a));
            assert(edge(g, other, a, b));
        }
        assert(ranked(g, sel, roots, rank));
        assert forall|x: ClassId| #[trigger] reaches(g, sel, roots, x) implies sel.contains_key(x)
            && sel[x] < g.nodes@.len() && g.nodes@[sel[x] as int].eclass == x by {
            assert(reaches(g, other, roots, x));
        }
    }
}

// ---------------------------------------------------------------------------
// Size
// ---------------------------------------------------------------------------

/// The sizes of the chosen nodes of the classes among the first `n` that are
/// below the roots, each counted once; infinite ones are left out.
pub open spec fn size_below(
    g: EGraph,
    sel: Map<ClassId, NodeId>,
    roots: Seq<ClassId>,
    n: nat,
) -> int
    decreases n,
{
    if n == 0 {
        0
    } else {
        let c = (n - 1) as ClassId;
        size_below(g, sel, roots, (n - 1) as nat) + (if reaches(g, sel, roots, c) && g.nodes@[sel[c] as int].cost
            != INFINITY {
            g.nodes@[sel[c] as int].cost as int
        } else {
            0
        })
    }
}

/// Some class below the roots has a node of infinite size chosen.
pub open spec fn infinite_below(g: EGraph, sel: Map<ClassId, NodeId>, roots: Seq<ClassId>) -> bool {
    exists|c: ClassId| #[trigger]
        reaches(g, sel, roots, c) && g.nodes@[sel[c] as int].cost == INFINITY
}

/// The size of a selection: every class below the roots counted once.
pub open spec fn dag_size(g: EGraph, sel: Map<ClassId, NodeId>, roots: Seq<ClassId>) -> Cost {
    settle(infinite_below(g, sel, roots), size_below(g, sel, roots, g.classes@.len()))
}

// ---------------------------------------------------------------------------
// Depth
// ---------------------------------------------------------------------------

/// The largest of `times` over the classes of the first `k` children of node
/// `n`, and at least zero.
pub open spec fn latest_child(g: EGraph, times: Map<ClassId, Cost>, n: NodeId, k: nat) -> Cost
    decreases k,
{
    if k == 0 {
        0
    } else {
        larger(latest_child(g, times, n, (k - 1) as nat), times[g.child_class(n, k - 1)])
    }
}

/// When the output of node `n` arrives, given when those of its children do.
pub open spec fn arrival(g: EGraph, times: Map<ClassId, Cost>, n: NodeId) -> Cost {
    plus(
        g.nodes@[n as int].delay,
        latest_child(g, times, n, g.nodes@[n as int].children@.len()),
    )
}

/// `times` gives every class below the roots its arrival time: the depth of
/// the chosen node on top of the latest of its children.
pub open spec fn is_timing(
    g: EGraph,
    sel: Map<ClassId, NodeId>,
    roots: Seq<ClassId>,
    times: Map<ClassId, Cost>,
) -> bool {
    forall|c: ClassId| #[trigger]
        reaches(g, sel, roots, c) ==> times[c] == arrival(g, times, sel[c])
}

/// The arrival times below the roots.
pub open spec fn timing(g: EGraph, sel: Map<ClassId, NodeId>, roots: Seq<ClassId>) -> Map<
    ClassId,
    Cost,
> {
    choose|times: Map<ClassId, Cost>| is_timing(g, sel, roots, times)
}

/// The largest of `times` over the first `k` roots, and at least `floor`.
pub open spec fn latest_root(
    roots: Seq<ClassId>,
    times: Map<ClassId, Cost>,
    floor: Cost,
    k: nat,
) -> Cost
    decreases k,
{
    if k == 0 {
        floor
    } else {
        larger(latest_root(roots, times, floor, (k - 1) as nat), times[roots[k - 1]])
    }
}

/// The depth of a selection: the largest sum of depths along a path from a
/// root, zero without roots.
pub open spec fn dag_depth_of(g: EGraph, sel: Map<ClassId, NodeId>, roots: Seq<ClassId>) -> Cost {
    if roots.len() == 0 {
        0
    } else {
        latest_root(roots, timing(g, sel, roots), NEG_LIMIT, roots.len())
    }
}

/// Not above any arrival time.
pub const NEG_LIMIT: Cost = i64::MIN;

pub proof fn lemma_latest_child_agree(
    g: EGraph,
    t1: Map<ClassId, Cost>,
    t2: Map<ClassId, Cost>,
    n: NodeId,
    k: nat,
)
    requires
        forall|j: int| 0 <= j < k ==> t1[#[trigger] g.child_class(n, j)] == t2[g.child_class(n, j)],
    ensures
        latest_child(g, t1, n, k) == latest_child(g, t2, n, k),
    decreases k,
{
    if k > 0 {
        lemma_latest_child_agree(g, t1, t2, n, (k - 1) as nat);
        let c = g.child_class(n, k - 1);
        assert(t1[c] == t2[c]);
    }
}

/// Two timings that agree on the children of a node agree on the node.
pub proof fn lemma_arrival_agree(
    g: EGraph,
    t1: Map<ClassId, Cost>,
    t2: Map<ClassId, Cost>,
    n: NodeId,
)
    requires
        forall|c: ClassId| #[trigger] g.depends(n, c) ==> t1[c] == t2[c],
    ensures
        arrival(g, t1, n) == arrival(g, t2, n),
{
    let k = g.nodes@[n as int].children@.len();
    assert forall|j: int| 0 <= j < k implies t1[#[trigger] g.child_class(n, j)]
        == t2[g.child_class(n, j)] by {
        assert(g.depends(n, g.child_class(n, j)));
    }
    lemma_latest_child_agree(g, t1, t2, n, k);
}

/// Every child arrives no later than the latest one.
pub proof fn lemma_latest_child_bound(
    g: EGraph,
    times: Map<ClassId, Cost>,
    n: NodeId,
    k: nat,
    j: int,
)
    requires
        0 <= j < k,
    ensures
        times[g.child_class(n, j)] <= latest_child(g, times, n, k),
    decreases k,
{
    if j < k - 1 {
        lemma_latest_child_bound(g, times, n, (k - 1) as nat, j);
    }
}

/// An acyclic selection has one timing only.
pub proof fn timing_is_unique(
    g: EGraph,
    sel: Map<ClassId, NodeId>,
    roots: Seq<ClassId>,
    t1: Map<ClassId, Cost>,
    t2: Map<ClassId, Cost>,
    c: ClassId,
)
    requires
        acyclic(g, sel, roots),
        covers(g, sel, roots),
        is_timing(g, sel, roots, t1),
        is_timing(g, sel, roots, t2),
        reaches(g, sel, roots, c),
    ensures
        t1[c] == t2[c],
{
    let rank = choose|rank: Map<ClassId, nat>| ranked(g, sel, roots, rank);
    lemma_timing_unique(g, sel, roots, rank, t1, t2, c);
}

proof fn lemma_timing_unique(
    g: EGraph,
    sel: Map<ClassId, NodeId>,
    roots: Seq<ClassId>,
    rank: Map<ClassId, nat>,
    t1: Map<ClassId, Cost>,
    t2: Map<ClassId, Cost>,
    c: ClassId,
)
    requires
        ranked(g, sel, roots, rank),
        covers(g, sel, roots),
        is_timing(g, sel, roots, t1),
        is_timing(g, sel, roots, t2),
        reaches(g, sel, roots, c),
    ensures
        t1[c] == t2[c],
    decreases rank[c],
{
    let n = sel[c];
    assert forall|b: ClassId| #[trigger] g.depends(n, b) implies t1[b] == t2[b] by {
        assert(edge(g, sel, c, b));
        lemma_reaches_step(g, sel, roots, c, b);
        lemma_timing_unique(g, sel, roots, rank, t1, t2, b);
    }
    lemma_arrival_agree(g, t1, t2, n);
}

/// The arrival time of class `c`, looking no more than `k` levels down.
spec fn arrival_within(g: EGraph, sel: Map<ClassId, NodeId>, c: ClassId, k: nat) -> Cost
    decreases k, 0nat,
{
    if k == 0 {
        0
    } else {
        arrival(g, times_within(g, sel, (k - 1) as nat), sel[c])
    }
}

/// [`arrival_within`] of every class.
spec fn times_within(g: EGraph, sel: Map<ClassId, NodeId>, k: nat) -> Map<ClassId, Cost>
    decreases k, 1nat,
{
    Map::total(|b: ClassId| arrival_within(g, sel, b, k))
}

proof fn lemma_arrival_within(
    g: EGraph,
    sel: Map<ClassId, NodeId>,
    roots: Seq<ClassId>,
    rank: Map<ClassId, nat>,
    c: ClassId,
    k: nat,
    m: nat,
)
    requires
        ranked(g, sel, roots, rank),
        covers(g, sel, roots),
        reaches(g, sel, roots, c),
        rank[c] < k,
        rank[c] < m,
    ensures
        arrival_within(g, sel, c, k) == arrival_within(g, sel, c, m),
    decreases rank[c],
{
    let n = sel[c];
    let t1 = times_within(g, sel, (k - 1) as nat);
    let t2 = times_within(g, sel, (m - 1) as nat);
    assert forall|b: ClassId| #[trigger] g.depends(n, b) implies t1[b] == t2[b] by {
        assert(edge(g, sel, c, b));
        lemma_reaches_step(g, sel, roots, c, b);
        lemma_arrival_within(g, sel, roots, rank, b, (k - 1) as nat, (m - 1) as nat);
    }
    lemma_arrival_agree(g, t1, t2, n);
}

/// An acyclic selection has a timing.
pub proof fn timing_exists(g: EGraph, sel: Map<ClassId, NodeId>, roots: Seq<ClassId>)
    requires
        acyclic(g, sel, roots),
        covers(g, sel, roots),
    ensures
        is_timing(g, sel, roots, timing(g, sel, roots)),
{
    let rank = choose|rank: Map<ClassId, nat>| ranked(g, sel, roots, rank);
    let times = Map::total(|c: ClassId| arrival_within(g, sel, c, rank[c] + 1));
    assert forall|c: ClassId| #[trigger] reaches(g, sel, roots, c) implies times[c] == arrival(
        g,
        times,
        sel[c],
    ) by {
        let n = sel[c];
        let t = times_within(g, sel, rank[c]);
        assert(times[c] == arrival(g, t, n));
        assert forall|b: ClassId| #[trigger] g.depends(n, b) implies times[b] == t[b] by {
            assert(edge(g, sel, c, b));
            lemma_reaches_step(g, sel, roots, c, b);
            lemma_arrival_within(g, sel, roots, rank, b, rank[b] + 1, rank[c]);
        }
        lemma_arrival_agree(g, times, t, n);
    }
    assert(is_timing(g, sel, roots, times));
}

/// [`timing`] of an acyclic selection agrees with any timing of it.
pub proof fn lemma_timing_is(
    g: EGraph,
    sel: Map<ClassId, NodeId>,
    roots: Seq<ClassId>,
    times: Map<ClassId, Cost>,
)
    requires
        acyclic(g, sel, roots),
        covers(g, sel, roots),
        is_timing(g, sel, roots, times),
    ensures
        is_timing(g, sel, roots, timing(g, sel, roots)),
        forall|c: ClassId| #[trigger]
            reaches(g, sel, roots, c) ==> timing(g, sel, roots)[c] == times[c],
{
    let t = timing(g, sel, roots);
    assert(is_timing(g, sel, roots, t));
    assert forall|c: ClassId| #[trigger] reaches(g, sel, roots, c) implies t[c] == times[c] by {
        timing_is_unique(g, sel, roots, t, times, c);
    }
}

pub proof fn lemma_latest_root_agree(
    roots: Seq<ClassId>,
    t1: Map<ClassId, Cost>,
    t2: Map<ClassId, Cost>,
    floor: Cost,
    k: nat,
)
    requires
        k <= roots.len(),
        forall|i: int| 0 <= i < roots.len() ==> t1[#[trigger] roots[i]] == t2[roots[i]],
    ensures
        latest_root(roots, t1, floor, k) == latest_root(roots, t2, floor, k),
    decreases k,
{
    if k > 0 {
        lemma_latest_root_agree(roots, t1, t2, floor, (k - 1) as nat);
        assert(t1[roots[k - 1]] == t2[roots[k - 1]]);
    }
}

// ---------------------------------------------------------------------------
// Tree size
// ---------------------------------------------------------------------------

/// The sum of `sizes` over the classes of the first `k` children of node `n`.
pub open spec fn children_sum(g: EGraph, sizes: Map<ClassId, Cost>, n: NodeId, k: nat) -> Cost
    decreases k,
{
    if k == 0 {
        0
    } else {
        plus(children_sum(g, sizes, n, (k - 1) as nat), sizes[g.child_class(n, k - 1)])
    }
}

/// The size of node `n` and of all that hangs below it, given that of its
/// children; what is shared counts every time.
pub open spec fn tree_size(g: EGraph, sizes: Map<ClassId, Cost>, n: NodeId) -> Cost {
    plus(
        g.nodes@[n as int].cost,
        children_sum(g, sizes, n, g.nodes@[n as int].children@.len()),
    )
}

/// `sizes` gives every class below the roots its tree size.
pub open spec fn is_tree_sizing(
    g: EGraph,
    sel: Map<ClassId, NodeId>,
    roots: Seq<ClassId>,
    sizes: Map<ClassId, Cost>,
) -> bool {
    forall|c: ClassId| #[trigger]
        reaches(g, sel, roots, c) ==> sizes[c] == tree_size(g, sizes, sel[c])
}

/// The tree sizes below the roots.
pub open spec fn tree_sizing(g: EGraph, sel: Map<ClassId, NodeId>, roots: Seq<ClassId>) -> Map<
    ClassId,
    Cost,
> {
    choose|sizes: Map<ClassId, Cost>| is_tree_sizing(g, sel, roots, sizes)
}

/// The sum of `sizes` over the first `k` roots.
pub open spec fn roots_sum(roots: Seq<ClassId>, sizes: Map<ClassId, Cost>, k: nat) -> Cost
    decreases k,
{
    if k == 0 {
        0
    } else {
        plus(roots_sum(roots, sizes, (k - 1) as nat), sizes[roots[k - 1]])
    }
}

/// The tree cost of the roots.
pub open spec fn tree_cost_of(g: EGraph, sel: Map<ClassId, NodeId>, roots: Seq<ClassId>) -> Cost {
    roots_sum(roots, tree_sizing(g, sel, roots), roots.len())
}

pub proof fn lemma_children_sum_agree(
    g: EGraph,
    t1: Map<ClassId, Cost>,
    t2: Map<ClassId, Cost>,
    n: NodeId,
    k: nat,
)
    requires
        forall|j: int| 0 <= j < k ==> t1[#[trigger] g.child_class(n, j)] == t2[g.child_class(n, j)],
    ensures
        children_sum(g, t1, n, k) == children_sum(g, t2, n, k),
    decreases k,
{
    if k > 0 {
        lemma_children_sum_agree(g, t1, t2, n, (k - 1) as nat);
        let c = g.child_class(n, k - 1);
        assert(t1[c] == t2[c]);
    }
}

/// An acyclic selection has one tree sizing only.
pub proof fn tree_sizing_is_unique(
    g: EGraph,
    sel: Map<ClassId, NodeId>,
    roots: Seq<ClassId>,
    t1: Map<ClassId, Cost>,
    t2: Map<ClassId, Cost>,
    c: ClassId,
)
    requires
        acyclic(g, sel, roots),
        covers(g, sel, roots),
        is_tree_sizing(g, sel, roots, t1),
        is_tree_sizing(g, sel, roots, t2),
        reaches(g, sel, roots, c),
    ensures
        t1[c] == t2[c],
{
    let rank = choose|rank: Map<ClassId, nat>| ranked(g, sel, roots, rank);
    lemma_tree_sizing_unique(g, sel, roots, rank, t1, t2, c);
}

proof fn lemma_tree_sizing_unique(
    g: EGraph,
    sel: Map<ClassId, NodeId>,
    roots: Seq<ClassId>,
    rank: Map<ClassId, nat>,
    t1: Map<ClassId, Cost>,
    t2: Map<ClassId, Cost>,
    c: ClassId,
)
    requires
        ranked(g, sel, roots, rank),
        covers(g, sel, roots),
        is_tree_sizing(g, sel, roots, t1),
        is_tree_sizing(g, sel, roots, t2),
        reaches(g, sel, roots, c),
    ensures
        t1[c] == t2[c],
    decreases rank[c],
{
    let n = sel[c];
    let k = g.nodes@[n as int].children@.len();
    assert forall|j: int| 0 <= j < k implies t1[#[trigger] g.child_class(n, j)]
        == t2[g.child_class(n, j)] by {
        let b = g.child_class(n, j);
        assert(g.depends(n, b));
        assert(edge(g, sel, c, b));
        lemma_reaches_step(g, sel, roots, c, b);
        lemma_tree_sizing_unique(g, sel, roots, rank, t1, t2, b);
    }
    lemma_children_sum_agree(g, t1, t2, n, k);
}

/// The tree size of class `c`, looking no more than `k` levels down.
spec fn size_within(g: EGraph, sel: Map<ClassId, NodeId>, c: ClassId, k: nat) -> Cost
    decreases k, 0nat,
{
    if k == 0 {
        0
    } else {
        tree_size(g, sizes_within(g, sel, (k - 1) as nat), sel[c])
    }
}

/// [`size_within`] of every class.
spec fn sizes_within(g: EGraph, sel: Map<ClassId, NodeId>, k: nat) -> Map<ClassId, Cost>
    decreases k, 1nat,
{
    Map::total(|b: ClassId| size_within(g, sel, b, k))
}

/// Sizes that agree on the children of a node agree on its tree size.
pub proof fn lemma_tree_size_agree(
    g: EGraph,
    t1: Map<ClassId, Cost>,
    t2: Map<ClassId, Cost>,
    n: NodeId,
)
    requires
        forall|c: ClassId| #[trigger] g.depends(n, c) ==> t1[c] == t2[c],
    ensures
        tree_size(g, t1, n) == tree_size(g, t2, n),
{
    let k = g.nodes@[n as int].children@.len();
    assert forall|j: int| 0 <= j < k implies t1[#[trigger] g.child_class(n, j)]
        == t2[g.child_class(n, j)] by {
        assert(g.depends(n, g.child_class(n, j)));
    }
    lemma_children_sum_agree(g, t1, t2, n, k);
}

proof fn lemma_size_within(
    g: EGraph,
    sel: Map<ClassId, NodeId>,
    roots: Seq<ClassId>,
    rank: Map<ClassId, nat>,
    c: ClassId,
    k: nat,
    m: nat,
)
    requires
        ranked(g, sel, roots, rank),
        covers(g, sel, roots),
        reaches(g, sel, roots, c),
        rank[c] < k,
        rank[c] < m,
    ensures
        size_within(g, sel, c, k) == size_within(g, sel, c, m),
    decreases rank[c],
{
    let n = sel[c];
    let t1 = sizes_within(g, sel, (k - 1) as nat);
    let t2 = sizes_within(g, sel, (m - 1) as nat);
    assert forall|b: ClassId| #[trigger] g.depends(n, b) implies t1[b] == t2[b] by {
        assert(edge(g, sel, c, b));
        lemma_reaches_step(g, sel, roots, c, b);
        lemma_size_within(g, sel, roots, rank, b, (k - 1) as nat, (m - 1) as nat);
    }
    lemma_tree_size_agree(g, t1, t2, n);
}

/// An acyclic selection has a tree sizing.
pub proof fn tree_sizing_exists(g: EGraph, sel: Map<ClassId, NodeId>, roots: Seq<ClassId>)
    requires
        acyclic(g, sel, roots),
        covers(g, sel, roots),
    ensures
        is_tree_sizing(g, sel, roots, tree_sizing(g, sel, roots)),
{
    let rank = choose|rank: Map<ClassId, nat>| ranked(g, sel, roots, rank);
    let sizes = Map::total(|c: ClassId| size_within(g, sel, c, rank[c] + 1));
    assert forall|c: ClassId| #[trigger] reaches(g, sel, roots, c) implies sizes[c] == tree_size(
        g,
        sizes,
        sel[c],
    ) by {
        let n = sel[c];
        let t = sizes_within(g, sel, rank[c]);
        assert(sizes[c] == tree_size(g, t, n));
        assert forall|b: ClassId| #[trigger] g.depends(n, b) implies sizes[b] == t[b] by {
            assert(edge(g, sel, c, b));
            lemma_reaches_step(g, sel, roots, c, b);
            lemma_size_within(g, sel, roots, rank, b, rank[b] + 1, rank[c]);
        }
        lemma_tree_size_agree(g, sizes, t, n);
    }
    assert(is_tree_sizing(g, sel, roots, sizes));
}

} // verus!
