//! What an extraction costs: as a tree, as a DAG, and in depth.
use crate::cost::{plus, Cost, INFINITY};
use crate::egraph::{ClassId, EGraph, Node, NodeId};
use crate::extract::selection;
use crate::extract::selection::{
    children_sum, dag_depth_of, dag_size, edge, infinite_below, is_timing, is_tree_sizing,
    latest_child, latest_root, ranked, reaches, roots_sum, size_below, timing, tree_cost_of,
    tree_sizing, valid, walk, NEG_LIMIT,
};
use crate::extract::{ExtractionResult, MapGet};
use vstd::prelude::*;

verus! {

/// The classes of the children of the node chosen for class `c`, in order.
pub open spec fn children_of(g: EGraph, sel: Map<ClassId, NodeId>, c: ClassId) -> Seq<ClassId> {
    Seq::new(
        g.nodes@[sel[c] as int].children@.len(),
        |j: int| g.nodes@[g.nodes@[sel[c] as int].children@[j] as int].eclass,
    )
}

/// No node has a negative size.
pub open spec fn sizes_not_negative(g: EGraph) -> bool {
    forall|n: int| 0 <= n < g.nodes@.len() ==> (#[trigger] g.nodes@[n]).cost >= 0
}

/// The chosen edges are those from a class to the classes of its node's children.
pub proof fn edges_lead_to_children(g: EGraph, sel: Map<ClassId, NodeId>, a: ClassId, b: ClassId)
    requires
        sel.contains_key(a),
    ensures
        edge(g, sel, a, b) <==> children_of(g, sel, a).contains(b),
{
    let list = children_of(g, sel, a);
    if edge(g, sel, a, b) {
        let j = choose|j: int|
            0 <= j < g.nodes@[sel[a] as int].children@.len() && g.child_class(sel[a], j) == b;
        assert(list[j] == b);
    }
    if list.contains(b) {
        let j = choose|j: int| 0 <= j < list.len() && list[j] == b;
        assert(g.child_class(sel[a], j) == b);
    }
}

/// What is reached from more roots.
proof fn lemma_reaches_more(
    g: EGraph,
    sel: Map<ClassId, NodeId>,
    few: Seq<ClassId>,
    many: Seq<ClassId>,
    c: ClassId,
)
    requires
        forall|r: ClassId| #[trigger] few.contains(r) ==> reaches(g, sel, many, r),
        reaches(g, sel, few, c),
    ensures
        reaches(g, sel, many, c),
{
    let all = Set::new(|x: ClassId| reaches(g, sel, many, x));
    assert forall|a: ClassId, b: ClassId|
        all.contains(a) && #[trigger] edge(g, sel, a, b) implies all.contains(b) by {
        selection::lemma_reaches_step(g, sel, many, a, b);
    }
    selection::lemma_reaches_closed(g, sel, few, all, c);
}

/// What is reached from a further root is reached from the others or from it.
proof fn lemma_reaches_push(
    g: EGraph,
    sel: Map<ClassId, NodeId>,
    roots: Seq<ClassId>,
    c: ClassId,
    x: ClassId,
)
    ensures
        reaches(g, sel, roots.push(c), x) <==> reaches(g, sel, roots, x) || reaches(
            g,
            sel,
            seq![c],
            x,
        ),
{
    let many = roots.push(c);
    assert(many[roots.len() as int] == c);
    assert forall|r: ClassId| #[trigger] roots.contains(r) implies many.contains(r) by {
        let i = choose|i: int| 0 <= i < roots.len() && roots[i] == r;
        assert(many[i] == r);
    }
    if reaches(g, sel, roots, x) {
        assert forall|r: ClassId| #[trigger] roots.contains(r) implies reaches(g, sel, many, r) by {
            selection::lemma_reaches_root(g, sel, many, r);
        }
        lemma_reaches_more(g, sel, roots, many, x);
    }
    if reaches(g, sel, seq![c], x) {
        assert forall|r: ClassId| #[trigger] seq![c].contains(r) implies reaches(
            g,
            sel,
            many,
            r,
        ) by {
            assert(r == c);
            selection::lemma_reaches_root(g, sel, many, r);
        }
        lemma_reaches_more(g, sel, seq![c], many, x);
    }
    if reaches(g, sel, many, x) {
        let (r, n) = choose|r: ClassId, n: nat|
            many.contains(r) && #[trigger] walk(g, sel, r, x, n);
        let i = choose|i: int| 0 <= i < many.len() && many[i] == r;
        if i < roots.len() {
            assert(roots[i] == r);
            assert(roots.contains(r));
        } else {
            assert(seq![c][0] == r);
            assert(seq![c].contains(r));
        }
    }
}

/// What is below a class is the class itself, or below its children.
proof fn lemma_reaches_one(g: EGraph, sel: Map<ClassId, NodeId>, c: ClassId, x: ClassId)
    requires
        sel.contains_key(c),
    ensures
        reaches(g, sel, seq![c], x) <==> x == c || reaches(g, sel, children_of(g, sel, c), x),
{
    let one = seq![c];
    let kids = children_of(g, sel, c);
    assert(one[0] == c);
    assert(one.contains(c));
    selection::lemma_reaches_root(g, sel, one, c);
    if reaches(g, sel, kids, x) {
        assert forall|r: ClassId| #[trigger] kids.contains(r) implies reaches(g, sel, one, r) by {
            edges_lead_to_children(g, sel, c, r);
            selection::lemma_reaches_step(g, sel, one, c, r);
        }
        lemma_reaches_more(g, sel, kids, one, x);
    }
    if reaches(g, sel, one, x) {
        let all = Set::new(|y: ClassId| y == c || reaches(g, sel, kids, y));
        assert forall|a: ClassId, b: ClassId|
            all.contains(a) && #[trigger] edge(g, sel, a, b) implies all.contains(b) by {
            if a == c {
                edges_lead_to_children(g, sel, c, b);
                selection::lemma_reaches_root(g, sel, kids, b);
            } else {
                selection::lemma_reaches_step(g, sel, kids, a, b);
            }
        }
        selection::lemma_reaches_closed(g, sel, one, all, x);
    }
}

/// An extraction of some roots is one of any roots below them.
pub proof fn lower_roots_are_extracted_too(
    g: EGraph,
    sel: Map<ClassId, NodeId>,
    many: Seq<ClassId>,
    few: Seq<ClassId>,
)
    requires
        valid(g, sel, many),
        forall|r: ClassId| #[trigger] few.contains(r) ==> reaches(g, sel, many, r),
    ensures
        valid(g, sel, few),
{
    assert forall|x: ClassId| #[trigger] reaches(g, sel, few, x) implies reaches(
        g,
        sel,
        many,
        x,
    ) by {
        lemma_reaches_more(g, sel, few, many, x);
    }
    let rank = choose|rank: Map<ClassId, nat>| ranked(g, sel, many, rank);
    assert(ranked(g, sel, few, rank));
}

/// The roots without the last, the last alone and its children are extracted too.
proof fn lemma_parts_valid(
    g: EGraph,
    sel: Map<ClassId, NodeId>,
    roots: Seq<ClassId>,
    c: ClassId,
)
    requires
        valid(g, sel, roots.push(c)),
    ensures
        valid(g, sel, roots),
        valid(g, sel, seq![c]),
        valid(g, sel, children_of(g, sel, c)),
        sel.contains_key(c),
{
    let many = roots.push(c);
    assert(many[roots.len() as int] == c);
    selection::lemma_reaches_root(g, sel, many, c);
    assert forall|r: ClassId| #[trigger] roots.contains(r) implies reaches(g, sel, many, r) by {
        let i = choose|i: int| 0 <= i < roots.len() && roots[i] == r;
        assert(many[i] == r);
        selection::lemma_reaches_root(g, sel, many, r);
    }
    lower_roots_are_extracted_too(g, sel, many, roots);
    lower_roots_are_extracted_too(g, sel, many, seq![c]);
    assert forall|r: ClassId| #[trigger] children_of(g, sel, c).contains(r) implies reaches(
        g,
        sel,
        many,
        r,
    ) by {
        edges_lead_to_children(g, sel, c, r);
        selection::lemma_reaches_step(g, sel, many, c, r);
    }
    lower_roots_are_extracted_too(g, sel, many, children_of(g, sel, c));
}

// ---------------------------------------------------------------------------
// Tree cost
// ---------------------------------------------------------------------------

proof fn lemma_roots_sum_same(
    a: Seq<ClassId>,
    s: Map<ClassId, Cost>,
    b: Seq<ClassId>,
    t: Map<ClassId, Cost>,
    k: nat,
)
    requires
        k <= a.len(),
        k <= b.len(),
        forall|i: int| 0 <= i < k ==> s[#[trigger] a[i]] == t[b[i]],
    ensures
        roots_sum(a, s, k) == roots_sum(b, t, k),
    decreases k,
{
    if k > 0 {
        lemma_roots_sum_same(a, s, b, t, (k - 1) as nat);
        assert(s[a[k - 1]] == t[b[k - 1]]);
    }
}

/// A class has one tree size, whatever the roots.
proof fn lemma_sizing_shared(
    g: EGraph,
    sel: Map<ClassId, NodeId>,
    many: Seq<ClassId>,
    few: Seq<ClassId>,
    x: ClassId,
)
    requires
        valid(g, sel, many),
        forall|r: ClassId| #[trigger] few.contains(r) ==> reaches(g, sel, many, r),
        reaches(g, sel, few, x),
    ensures
        tree_sizing(g, sel, few)[x] == tree_sizing(g, sel, many)[x],
{
    lower_roots_are_extracted_too(g, sel, many, few);
    selection::tree_sizing_exists(g, sel, many);
    selection::tree_sizing_exists(g, sel, few);
    let t = tree_sizing(g, sel, many);
    assert(is_tree_sizing(g, sel, few, t)) by {
        assert forall|y: ClassId| #[trigger] reaches(g, sel, few, y) implies t[y]
            == selection::tree_size(g, t, sel[y]) by {
            lemma_reaches_more(g, sel, few, many, y);
        }
    }
    selection::tree_sizing_is_unique(g, sel, few, tree_sizing(g, sel, few), t, x);
}

/// The tree cost of no roots is nothing; that of a further root comes on top.
pub proof fn tree_cost_adds_up(
    g: EGraph,
    sel: Map<ClassId, NodeId>,
    roots: Seq<ClassId>,
    c: ClassId,
)
    requires
        valid(g, sel, roots.push(c)),
    ensures
        tree_cost_of(g, sel, Seq::empty()) == 0,
        tree_cost_of(g, sel, roots.push(c)) == plus(
            tree_cost_of(g, sel, roots),
            tree_cost_of(g, sel, seq![c]),
        ),
{
    let many = roots.push(c);
    let one = seq![c];
    lemma_parts_valid(g, sel, roots, c);
    let s = tree_sizing(g, sel, many);
    assert forall|i: int| 0 <= i < roots.len() implies s[#[trigger] many[i]] == tree_sizing(
        g,
        sel,
        roots,
    )[roots[i]] by {
        assert forall|r: ClassId| #[trigger] roots.contains(r) implies reaches(
            g,
            sel,
            many,
            r,
        ) by {
            let j = choose|j: int| 0 <= j < roots.len() && roots[j] == r;
            assert(many[j] == r);
            selection::lemma_reaches_root(g, sel, many, r);
        }
        assert(roots.contains(roots[i]));
        selection::lemma_reaches_root(g, sel, roots, roots[i]);
        lemma_sizing_shared(g, sel, many, roots, roots[i]);
    }
    lemma_roots_sum_same(many, s, roots, tree_sizing(g, sel, roots), roots.len());
    assert(many[roots.len() as int] == c);
    assert(one[0] == c);
    assert(one.contains(c));
    selection::lemma_reaches_root(g, sel, many, c);
    selection::lemma_reaches_root(g, sel, one, c);
    lemma_sizing_shared(g, sel, many, one, c);
    let t = tree_sizing(g, sel, one);
    assert(roots_sum(one, t, 1) == plus(roots_sum(one, t, 0), t[c]));
    assert(plus(0, t[c]) == t[c]);
}

proof fn lemma_children_are_roots(
    g: EGraph,
    sel: Map<ClassId, NodeId>,
    c: ClassId,
    s: Map<ClassId, Cost>,
    k: nat,
)
    requires
        k <= g.nodes@[sel[c] as int].children@.len(),
    ensures
        children_sum(g, s, sel[c], k) == roots_sum(children_of(g, sel, c), s, k),
    decreases k,
{
    if k > 0 {
        lemma_children_are_roots(g, sel, c, s, (k - 1) as nat);
    }
}

/// The tree cost of one root is the size of its node and the tree cost of its
/// children, each as often as it occurs.
pub proof fn tree_cost_of_one_root(g: EGraph, sel: Map<ClassId, NodeId>, c: ClassId)
    requires
        valid(g, sel, seq![c]),
    ensures
        tree_cost_of(g, sel, seq![c]) == plus(
            g.nodes@[sel[c] as int].cost,
            tree_cost_of(g, sel, children_of(g, sel, c)),
        ),
{
    let one = seq![c];
    let kids = children_of(g, sel, c);
    assert(Seq::<ClassId>::empty().push(c) =~= one);
    lemma_parts_valid(g, sel, Seq::empty(), c);
    assert(one[0] == c);
    assert(one.contains(c));
    selection::lemma_reaches_root(g, sel, one, c);
    selection::tree_sizing_exists(g, sel, one);
    let s = tree_sizing(g, sel, one);
    let t = tree_sizing(g, sel, kids);
    assert forall|r: ClassId| #[trigger] kids.contains(r) implies reaches(g, sel, one, r) by {
        edges_lead_to_children(g, sel, c, r);
        selection::lemma_reaches_step(g, sel, one, c, r);
    }
    assert forall|i: int| 0 <= i < kids.len() implies s[#[trigger] kids[i]] == t[kids[i]] by {
        assert(kids.contains(kids[i]));
        selection::lemma_reaches_root(g, sel, kids, kids[i]);
        lemma_sizing_shared(g, sel, one, kids, kids[i]);
    }
    lemma_roots_sum_same(kids, s, kids, t, kids.len());
    lemma_children_are_roots(g, sel, c, s, kids.len());
    assert(roots_sum(one, s, 1) == plus(roots_sum(one, s, 0), s[c]));
    assert(plus(0, s[c]) == s[c]);
}

// ---------------------------------------------------------------------------
// DAG cost
// ---------------------------------------------------------------------------

proof fn lemma_size_same(
    g: EGraph,
    sel: Map<ClassId, NodeId>,
    a: Seq<ClassId>,
    b: Seq<ClassId>,
    n: nat,
)
    requires
        forall|x: ClassId| reaches(g, sel, a, x) == reaches(g, sel, b, x),
    ensures
        size_below(g, sel, a, n) == size_below(g, sel, b, n),
    decreases n,
{
    if n > 0 {
        lemma_size_same(g, sel, a, b, (n - 1) as nat);
        let c = (n - 1) as ClassId;
        assert(reaches(g, sel, a, c) == reaches(g, sel, b, c));
    }
}

proof fn lemma_size_one_more(
    g: EGraph,
    sel: Map<ClassId, NodeId>,
    a: Seq<ClassId>,
    b: Seq<ClassId>,
    c: ClassId,
    n: nat,
)
    requires
        n <= usize::MAX,
        forall|x: ClassId| reaches(g, sel, a, x) == (x == c || reaches(g, sel, b, x)),
        !reaches(g, sel, b, c),
    ensures
        size_below(g, sel, a, n) == size_below(g, sel, b, n) + (if c < n && g.nodes@[sel[c] as int].cost
            != INFINITY {
            g.nodes@[sel[c] as int].cost as int
        } else {
            0
        }),
    decreases n,
{
    if n > 0 {
        lemma_size_one_more(g, sel, a, b, c, (n - 1) as nat);
        let x = (n - 1) as ClassId;
        assert(reaches(g, sel, a, x) == (x == c || reaches(g, sel, b, x)));
    }
}

proof fn lemma_size_not_negative(
    g: EGraph,
    sel: Map<ClassId, NodeId>,
    roots: Seq<ClassId>,
    n: nat,
)
    requires
        g.wf(),
        sizes_not_negative(g),
        valid(g, sel, roots),
    ensures
        size_below(g, sel, roots, n) >= 0,
    decreases n,
{
    if n > 0 {
        lemma_size_not_negative(g, sel, roots, (n - 1) as nat);
        let c = (n - 1) as ClassId;
        if reaches(g, sel, roots, c) {
            assert(sel.contains_key(c));
            assert(g.nodes@[sel[c] as int].cost >= 0);
        }
    }
}

/// The DAG cost of no roots is nothing, and a root that is already below the others
/// adds nothing: what is shared counts once.
pub proof fn shared_classes_count_once(
    g: EGraph,
    sel: Map<ClassId, NodeId>,
    roots: Seq<ClassId>,
    c: ClassId,
)
    requires
        reaches(g, sel, roots, c),
    ensures
        dag_size(g, sel, Seq::empty()) == 0,
        dag_size(g, sel, roots.push(c)) == dag_size(g, sel, roots),
{
    assert forall|x: ClassId|
        reaches(g, sel, roots.push(c), x) == reaches(g, sel, roots, x) by {
        lemma_reaches_push(g, sel, roots, c, x);
        if reaches(g, sel, seq![c], x) {
            assert forall|r: ClassId| #[trigger] seq![c].contains(r) implies reaches(
                g,
                sel,
                roots,
                r,
            ) by {
                assert(r == c);
            }
            lemma_reaches_more(g, sel, seq![c], roots, x);
        }
    }
    lemma_size_same(g, sel, roots.push(c), roots, g.classes@.len());
    lemma_empty_size(g, sel, g.classes@.len());
    if infinite_below(g, sel, roots) {
        let y = choose|y: ClassId| #[trigger]
            reaches(g, sel, roots, y) && g.nodes@[sel[y] as int].cost == INFINITY;
        assert(reaches(g, sel, roots.push(c), y));
    }
    if infinite_below(g, sel, roots.push(c)) {
        let y = choose|y: ClassId| #[trigger]
            reaches(g, sel, roots.push(c), y) && g.nodes@[sel[y] as int].cost == INFINITY;
        assert(reaches(g, sel, roots, y));
    }
}

proof fn lemma_empty_size(g: EGraph, sel: Map<ClassId, NodeId>, n: nat)
    ensures
        size_below(g, sel, Seq::empty(), n) == 0,
        !infinite_below(g, sel, Seq::empty()),
    decreases n,
{
    assert forall|x: ClassId| !#[trigger] reaches(g, sel, Seq::empty(), x) by {}
    if n > 0 {
        lemma_empty_size(g, sel, (n - 1) as nat);
        assert(!reaches(g, sel, Seq::empty(), (n - 1) as ClassId));
    }
}

/// A root that is not below the others adds the size of its node, and its children
/// become roots in its place.
pub proof fn new_roots_add_their_node(
    g: EGraph,
    sel: Map<ClassId, NodeId>,
    roots: Seq<ClassId>,
    c: ClassId,
)
    requires
        g.wf(),
        sizes_not_negative(g),
        valid(g, sel, roots.push(c)),
        !reaches(g, sel, roots, c),
    ensures
        dag_size(g, sel, roots.push(c)) == plus(
            g.nodes@[sel[c] as int].cost,
            dag_size(g, sel, roots + children_of(g, sel, c)),
        ),
{
    let many = roots.push(c);
    let kids = children_of(g, sel, c);
    let rest = roots + kids;
    let n = g.classes@.len();
    vstd::std_specs::vec::axiom_spec_len(&g.classes);
    lemma_parts_valid(g, sel, roots, c);
    assert(many[roots.len() as int] == c);
    selection::lemma_reaches_root(g, sel, many, c);
    assert forall|x: ClassId| reaches(g, sel, rest, x) == (reaches(g, sel, roots, x) || reaches(
        g,
        sel,
        kids,
        x,
    )) by {
        lemma_reaches_both(g, sel, roots, kids, x);
    }
    assert forall|x: ClassId| reaches(g, sel, many, x) == (x == c || reaches(g, sel, rest, x)) by {
        lemma_reaches_push(g, sel, roots, c, x);
        lemma_reaches_one(g, sel, c, x);
    }
    assert(!reaches(g, sel, rest, c)) by {
        if reaches(g, sel, kids, c) {
            let (r, k) = choose|r: ClassId, k: nat|
                kids.contains(r) && #[trigger] walk(g, sel, r, c, k);
            edges_lead_to_children(g, sel, c, r);
            assert(walk(g, sel, c, c, 0));
            assert(walk(g, sel, c, r, 1));
            selection::lemma_walk_trans(g, sel, c, r, c, 1, k);
            assert(selection::on_cycle(g, sel, c));
            selection::acyclic_means_no_cycle(g, sel, many, c);
        }
    }
    assert forall|r: ClassId| #[trigger] rest.contains(r) implies reaches(g, sel, many, r) by {
        selection::lemma_reaches_root(g, sel, rest, r);
        assert(reaches(g, sel, many, r) == (r == c || reaches(g, sel, rest, r)));
    }
    lower_roots_are_extracted_too(g, sel, many, rest);
    lemma_size_one_more(g, sel, many, rest, c, n);
    lemma_size_not_negative(g, sel, rest, n);
    assert(g.nodes@[sel[c] as int].cost >= 0);
    assert(g.nodes@[sel[c] as int].eclass == c);
    assert(c < n);
    if infinite_below(g, sel, rest) {
        let y = choose|y: ClassId| #[trigger]
            reaches(g, sel, rest, y) && g.nodes@[sel[y] as int].cost == INFINITY;
        assert(reaches(g, sel, many, y));
    }
    if infinite_below(g, sel, many) {
        let y = choose|y: ClassId| #[trigger]
            reaches(g, sel, many, y) && g.nodes@[sel[y] as int].cost == INFINITY;
        if y != c {
            assert(reaches(g, sel, rest, y));
        }
    } else {
        assert(g.nodes@[sel[c] as int].cost != INFINITY);
    }
}

proof fn lemma_reaches_both(
    g: EGraph,
    sel: Map<ClassId, NodeId>,
    a: Seq<ClassId>,
    b: Seq<ClassId>,
    x: ClassId,
)
    ensures
        reaches(g, sel, a + b, x) <==> reaches(g, sel, a, x) || reaches(g, sel, b, x),
{
    let all = a + b;
    assert forall|r: ClassId| a.contains(r) implies #[trigger] all.contains(r) by {
        let i = choose|i: int| 0 <= i < a.len() && a[i] == r;
        assert(all[i] == r);
    }
    assert forall|r: ClassId| b.contains(r) implies #[trigger] all.contains(r) by {
        let i = choose|i: int| 0 <= i < b.len() && b[i] == r;
        assert(all[a.len() + i] == r);
    }
    if reaches(g, sel, a, x) {
        let (r, n) = choose|r: ClassId, n: nat| a.contains(r) && #[trigger] walk(g, sel, r, x, n);
        assert(all.contains(r));
    }
    if reaches(g, sel, b, x) {
        let (r, n) = choose|r: ClassId, n: nat| b.contains(r) && #[trigger] walk(g, sel, r, x, n);
        assert(all.contains(r));
    }
    if reaches(g, sel, all, x) {
        let (r, n) = choose|r: ClassId, n: nat| all.contains(r) && #[trigger] walk(g, sel, r, x, n);
        let i = choose|i: int| 0 <= i < all.len() && all[i] == r;
        if i < a.len() {
            assert(a[i] == r);
            assert(a.contains(r));
        } else {
            assert(b[i - a.len()] == r);
            assert(b.contains(r));
        }
    }
}

proof fn lemma_size_union(
    g: EGraph,
    sel: Map<ClassId, NodeId>,
    all: Seq<ClassId>,
    a: Seq<ClassId>,
    b: Seq<ClassId>,
    n: nat,
)
    requires
        g.wf(),
        sizes_not_negative(g),
        valid(g, sel, all),
        forall|x: ClassId| #[trigger]
            reaches(g, sel, all, x) <==> reaches(g, sel, a, x) || reaches(g, sel, b, x),
    ensures
        size_below(g, sel, all, n) <= size_below(g, sel, a, n) + size_below(g, sel, b, n),
    decreases n,
{
    if n > 0 {
        lemma_size_union(g, sel, all, a, b, (n - 1) as nat);
        let c = (n - 1) as ClassId;
        assert(reaches(g, sel, all, c) <==> reaches(g, sel, a, c) || reaches(g, sel, b, c));
        if reaches(g, sel, all, c) {
            assert(sel.contains_key(c));
            assert(g.nodes@[sel[c] as int].cost >= 0);
        }
    }
}

/// Together, roots cost no more than apart.
pub proof fn sharing_never_costs(
    g: EGraph,
    sel: Map<ClassId, NodeId>,
    roots: Seq<ClassId>,
    c: ClassId,
)
    requires
        g.wf(),
        sizes_not_negative(g),
        valid(g, sel, roots.push(c)),
    ensures
        dag_size(g, sel, roots.push(c)) <= plus(
            dag_size(g, sel, roots),
            dag_size(g, sel, seq![c]),
        ),
        dag_size(g, sel, roots) >= 0,
        dag_size(g, sel, seq![c]) >= 0,
{
    let many = roots.push(c);
    let one = seq![c];
    let n = g.classes@.len();
    lemma_parts_valid(g, sel, roots, c);
    assert forall|x: ClassId| #[trigger] reaches(g, sel, many, x) <==> reaches(g, sel, roots, x)
        || reaches(g, sel, one, x) by {
        lemma_reaches_push(g, sel, roots, c, x);
    }
    lemma_size_union(g, sel, many, roots, one, n);
    lemma_size_not_negative(g, sel, roots, n);
    lemma_size_not_negative(g, sel, one, n);
    if infinite_below(g, sel, many) {
        let y = choose|y: ClassId| #[trigger]
            reaches(g, sel, many, y) && g.nodes@[sel[y] as int].cost == INFINITY;
        assert(reaches(g, sel, roots, y) || reaches(g, sel, one, y));
    }
}

/// An extraction is no smaller as a tree than as a DAG.
pub proof fn tree_cost_is_at_least_dag_cost(
    g: EGraph,
    sel: Map<ClassId, NodeId>,
    roots: Seq<ClassId>,
)
    requires
        g.wf(),
        sizes_not_negative(g),
        valid(g, sel, roots),
    ensures
        dag_size(g, sel, roots) <= tree_cost_of(g, sel, roots),
        tree_cost_of(g, sel, roots) >= 0,
{
    let rank = choose|rank: Map<ClassId, nat>| ranked(g, sel, roots, rank);
    let top = lemma_ranks_bounded(roots, rank, roots.len());
    assert forall|x: ClassId| #[trigger] reaches(g, sel, roots, x) implies rank[x] < top by {
        let (r, n) = choose|r: ClassId, n: nat| roots.contains(r) && #[trigger] walk(
            g,
            sel,
            r,
            x,
            n,
        );
        selection::lemma_reaches_root(g, sel, roots, r);
        selection::lemma_rank_walk(g, sel, roots, rank, r, x, n);
        let i = choose|i: int| 0 <= i < roots.len() && roots[i] == r;
        assert(rank[roots[i]] < top);
    }
    assert forall|r: ClassId| #[trigger] roots.contains(r) implies reaches(g, sel, roots, r)
        && rank[r] < top by {
        selection::lemma_reaches_root(g, sel, roots, r);
    }
    lemma_tree_above_dag(g, sel, roots, rank, top, roots);
}

proof fn lemma_ranks_bounded(roots: Seq<ClassId>, rank: Map<ClassId, nat>, k: nat) -> (top: nat)
    requires
        k <= roots.len(),
    ensures
        forall|i: int| 0 <= i < k ==> rank[#[trigger] roots[i]] < top,
    decreases k,
{
    if k == 0 {
        0
    } else {
        let before = lemma_ranks_bounded(roots, rank, (k - 1) as nat);
        let here = rank[roots[k - 1]] + 1;
        if before > here {
            before
        } else {
            here
        }
    }
}

proof fn lemma_tree_above_dag(
    g: EGraph,
    sel: Map<ClassId, NodeId>,
    all: Seq<ClassId>,
    rank: Map<ClassId, nat>,
    top: nat,
    roots: Seq<ClassId>,
)
    requires
        g.wf(),
        sizes_not_negative(g),
        valid(g, sel, all),
        ranked(g, sel, all, rank),
        forall|r: ClassId| #[trigger] roots.contains(r) ==> reaches(g, sel, all, r) && rank[r] < top,
    ensures
        dag_size(g, sel, roots) <= tree_cost_of(g, sel, roots),
        tree_cost_of(g, sel, roots) >= 0,
    decreases top, roots.len(),
{
    if roots.len() == 0 {
        assert(roots =~= Seq::empty());
        lemma_empty_size(g, sel, g.classes@.len());
        assert(roots_sum(roots, tree_sizing(g, sel, roots), 0) == 0);
    } else {
        let c = roots.last();
        let front = roots.drop_last();
        assert(front.push(c) =~= roots);
        assert(roots.contains(c));
        lower_roots_are_extracted_too(g, sel, all, roots);
        assert forall|r: ClassId| #[trigger] front.contains(r) implies reaches(g, sel, all, r)
            && rank[r] < top by {
            let i = choose|i: int| 0 <= i < front.len() && front[i] == r;
            assert(roots[i] == r);
            assert(roots.contains(r));
        }
        lemma_tree_above_dag(g, sel, all, rank, top, front);
        lemma_parts_valid(g, sel, front, c);
        let kids = children_of(g, sel, c);
        assert forall|r: ClassId| #[trigger] kids.contains(r) implies reaches(g, sel, all, r)
            && rank[r] < top - 1 by {
            edges_lead_to_children(g, sel, c, r);
            selection::lemma_reaches_step(g, sel, all, c, r);
        }
        lemma_tree_above_dag(g, sel, all, rank, (top - 1) as nat, kids);
        sharing_never_costs(g, sel, front, c);
        tree_cost_adds_up(g, sel, front, c);
        tree_cost_of_one_root(g, sel, c);
        let none = Seq::<ClassId>::empty();
        assert(none.push(c) =~= seq![c]);
        assert(!reaches(g, sel, none, c));
        new_roots_add_their_node(g, sel, none, c);
        assert(none + kids =~= kids);
        assert(g.nodes@[sel[c] as int].cost >= 0);
    }
}

// ---------------------------------------------------------------------------
// Depth
// ---------------------------------------------------------------------------

proof fn lemma_latest_same(
    a: Seq<ClassId>,
    s: Map<ClassId, Cost>,
    b: Seq<ClassId>,
    t: Map<ClassId, Cost>,
    floor: Cost,
    k: nat,
)
    requires
        k <= a.len(),
        k <= b.len(),
        forall|i: int| 0 <= i < k ==> s[#[trigger] a[i]] == t[b[i]],
    ensures
        latest_root(a, s, floor, k) == latest_root(b, t, floor, k),
    decreases k,
{
    if k > 0 {
        lemma_latest_same(a, s, b, t, floor, (k - 1) as nat);
        assert(s[a[k - 1]] == t[b[k - 1]]);
    }
}

/// A class has one arrival time, whatever the roots.
proof fn lemma_timing_shared(
    g: EGraph,
    sel: Map<ClassId, NodeId>,
    many: Seq<ClassId>,
    few: Seq<ClassId>,
    x: ClassId,
)
    requires
        valid(g, sel, many),
        forall|r: ClassId| #[trigger] few.contains(r) ==> reaches(g, sel, many, r),
        reaches(g, sel, few, x),
    ensures
        timing(g, sel, few)[x] == timing(g, sel, many)[x],
{
    lower_roots_are_extracted_too(g, sel, many, few);
    selection::timing_exists(g, sel, many);
    selection::timing_exists(g, sel, few);
    let t = timing(g, sel, many);
    assert(is_timing(g, sel, few, t)) by {
        assert forall|y: ClassId| #[trigger] reaches(g, sel, few, y) implies t[y]
            == selection::arrival(g, t, sel[y]) by {
            lemma_reaches_more(g, sel, few, many, y);
        }
    }
    selection::timing_is_unique(g, sel, few, timing(g, sel, few), t, x);
}

/// The depth of several roots is the largest of theirs, and that of no roots zero.
pub proof fn depth_is_that_of_the_deepest_root(
    g: EGraph,
    sel: Map<ClassId, NodeId>,
    roots: Seq<ClassId>,
    c: ClassId,
)
    requires
        valid(g, sel, roots.push(c)),
    ensures
        dag_depth_of(g, sel, Seq::empty()) == 0,
        roots.len() > 0 ==> dag_depth_of(g, sel, roots.push(c)) == (if dag_depth_of(g, sel, roots)
            < dag_depth_of(g, sel, seq![c]) {
            dag_depth_of(g, sel, seq![c])
        } else {
            dag_depth_of(g, sel, roots)
        }),
{
    let many = roots.push(c);
    let one = seq![c];
    lemma_parts_valid(g, sel, roots, c);
    let s = timing(g, sel, many);
    assert forall|i: int| 0 <= i < roots.len() implies s[#[trigger] many[i]] == timing(
        g,
        sel,
        roots,
    )[roots[i]] by {
        assert forall|r: ClassId| #[trigger] roots.contains(r) implies reaches(
            g,
            sel,
            many,
            r,
        ) by {
            let j = choose|j: int| 0 <= j < roots.len() && roots[j] == r;
            assert(many[j] == r);
            selection::lemma_reaches_root(g, sel, many, r);
        }
        assert(roots.contains(roots[i]));
        selection::lemma_reaches_root(g, sel, roots, roots[i]);
        lemma_timing_shared(g, sel, many, roots, roots[i]);
    }
    lemma_latest_same(many, s, roots, timing(g, sel, roots), NEG_LIMIT, roots.len());
    assert(many[roots.len() as int] == c);
    assert(one[0] == c);
    assert(one.contains(c));
    selection::lemma_reaches_root(g, sel, many, c);
    selection::lemma_reaches_root(g, sel, one, c);
    lemma_timing_shared(g, sel, many, one, c);
    let t = timing(g, sel, one);
    assert(latest_root(one, t, NEG_LIMIT, 1) == crate::cost::larger(
        latest_root(one, t, NEG_LIMIT, 0),
        t[c],
    ));
}

proof fn lemma_latest_children(
    g: EGraph,
    sel: Map<ClassId, NodeId>,
    c: ClassId,
    s: Map<ClassId, Cost>,
    k: nat,
)
    requires
        k <= g.nodes@[sel[c] as int].children@.len(),
    ensures
        k > 0 ==> latest_child(g, s, sel[c], k) == (if latest_root(
            children_of(g, sel, c),
            s,
            NEG_LIMIT,
            k,
        ) > 0 {
            latest_root(children_of(g, sel, c), s, NEG_LIMIT, k)
        } else {
            0
        }),
        k == 0 ==> latest_child(g, s, sel[c], k) == 0,
    decreases k,
{
    if k > 0 {
        lemma_latest_children(g, sel, c, s, (k - 1) as nat);
        let kids = children_of(g, sel, c);
        assert(kids[k - 1] == g.child_class(sel[c], k - 1));
        assert(latest_root(kids, s, NEG_LIMIT, 0) == NEG_LIMIT);
    }
}

/// The depth of one root is the depth of its node on top of that of its children, and
/// that of its node alone where it has none.
pub proof fn depth_of_one_root(g: EGraph, sel: Map<ClassId, NodeId>, c: ClassId)
    requires
        valid(g, sel, seq![c]),
    ensures
        dag_depth_of(g, sel, seq![c]) == plus(
            g.nodes@[sel[c] as int].delay,
            if dag_depth_of(g, sel, children_of(g, sel, c)) > 0 {
                dag_depth_of(g, sel, children_of(g, sel, c))
            } else {
                0
            },
        ),
{
    let one = seq![c];
    let kids = children_of(g, sel, c);
    assert(Seq::<ClassId>::empty().push(c) =~= one);
    lemma_parts_valid(g, sel, Seq::empty(), c);
    assert(one[0] == c);
    assert(one.contains(c));
    selection::lemma_reaches_root(g, sel, one, c);
    selection::timing_exists(g, sel, one);
    let s = timing(g, sel, one);
    let t = timing(g, sel, kids);
    assert forall|r: ClassId| #[trigger] kids.contains(r) implies reaches(g, sel, one, r) by {
        edges_lead_to_children(g, sel, c, r);
        selection::lemma_reaches_step(g, sel, one, c, r);
    }
    assert forall|i: int| 0 <= i < kids.len() implies s[#[trigger] kids[i]] == t[kids[i]] by {
        assert(kids.contains(kids[i]));
        selection::lemma_reaches_root(g, sel, kids, kids[i]);
        lemma_timing_shared(g, sel, one, kids, kids[i]);
    }
    lemma_latest_same(kids, s, kids, t, NEG_LIMIT, kids.len());
    lemma_latest_children(g, sel, c, s, kids.len());
    assert(latest_root(one, s, NEG_LIMIT, 1) == crate::cost::larger(
        latest_root(one, s, NEG_LIMIT, 0),
        s[c],
    ));
}

// ---------------------------------------------------------------------------
// The functions
// ---------------------------------------------------------------------------

/// What [`ExtractionResult::tree_cost`] returns for some roots, a further one and all
/// of them, and for the children of that one.
pub proof fn tree_costs(
    e: ExtractionResult,
    g: EGraph,
    roots: &[ClassId],
    one: &[ClassId],
    all: &[ClassId],
    kids: &[ClassId],
    of_roots: Cost,
    of_one: Cost,
    of_all: Cost,
    of_kids: Cost,
    c: ClassId,
)
    requires
        g.wf(),
        one@ == seq![c],
        all@ == roots@.push(c),
        kids@ == children_of(g, e@, c),
        valid(g, e@, all@),
        call_ensures(ExtractionResult::tree_cost, (&e, &g, roots), of_roots),
        call_ensures(ExtractionResult::tree_cost, (&e, &g, one), of_one),
        call_ensures(ExtractionResult::tree_cost, (&e, &g, all), of_all),
        call_ensures(ExtractionResult::tree_cost, (&e, &g, kids), of_kids),
    ensures
        roots@.len() == 0 ==> of_roots == 0,
        of_all == plus(of_roots, of_one),
        of_one == plus(g.nodes@[e@[c] as int].cost, of_kids),
{
    tree_cost_adds_up(g, e@, roots@, c);
    lemma_parts_valid(g, e@, roots@, c);
    tree_cost_of_one_root(g, e@, c);
    if roots@.len() == 0 {
        assert(roots@ =~= Seq::empty());
    }
}

/// What [`ExtractionResult::dag_cost`] and [`ExtractionResult::tree_cost`] return for
/// some roots and a further one: what is shared counts once in the one and every time
/// in the other.
pub proof fn dag_costs(
    e: ExtractionResult,
    g: EGraph,
    roots: &[ClassId],
    all: &[ClassId],
    rest: &[ClassId],
    of_roots: Cost,
    of_all: Cost,
    of_rest: Cost,
    tree: Cost,
    c: ClassId,
)
    requires
        g.wf(),
        sizes_not_negative(g),
        all@ == roots@.push(c),
        rest@ == roots@ + children_of(g, e@, c),
        valid(g, e@, all@),
        call_ensures(ExtractionResult::dag_cost, (&e, &g, roots), of_roots),
        call_ensures(ExtractionResult::dag_cost, (&e, &g, all), of_all),
        call_ensures(ExtractionResult::dag_cost, (&e, &g, rest), of_rest),
        call_ensures(ExtractionResult::tree_cost, (&e, &g, all), tree),
    ensures
        roots@.len() == 0 ==> of_roots == 0,
        reaches(g, e@, roots@, c) ==> of_all == of_roots,
        !reaches(g, e@, roots@, c) ==> of_all == plus(g.nodes@[e@[c] as int].cost, of_rest),
        of_all <= tree,
{
    if reaches(g, e@, roots@, c) {
        shared_classes_count_once(g, e@, roots@, c);
    } else {
        new_roots_add_their_node(g, e@, roots@, c);
    }
    if roots@.len() == 0 {
        assert(roots@ =~= Seq::empty());
        lemma_empty_size(g, e@, g.classes@.len());
    }
    tree_cost_is_at_least_dag_cost(g, e@, all@);
}

/// What [`ExtractionResult::dag_depth`] returns for some roots, a further one and all
/// of them, and for the children of that one.
pub proof fn depths(
    e: ExtractionResult,
    g: EGraph,
    roots: &[ClassId],
    one: &[ClassId],
    all: &[ClassId],
    kids: &[ClassId],
    of_roots: Cost,
    of_one: Cost,
    of_all: Cost,
    of_kids: Cost,
    c: ClassId,
)
    requires
        g.wf(),
        one@ == seq![c],
        all@ == roots@.push(c),
        kids@ == children_of(g, e@, c),
        valid(g, e@, all@),
        call_ensures(ExtractionResult::dag_depth, (&e, &g, roots), of_roots),
        call_ensures(ExtractionResult::dag_depth, (&e, &g, one), of_one),
        call_ensures(ExtractionResult::dag_depth, (&e, &g, all), of_all),
        call_ensures(ExtractionResult::dag_depth, (&e, &g, kids), of_kids),
    ensures
        roots@.len() == 0 ==> of_roots == 0 && of_all == of_one,
        roots@.len() > 0 ==> of_all == (if of_roots < of_one {
            of_one
        } else {
            of_roots
        }),
        of_one == plus(
            g.nodes@[e@[c] as int].delay,
            if of_kids > 0 {
                of_kids
            } else {
                0
            },
        ),
{
    lemma_parts_valid(g, e@, roots@, c);
    depth_is_that_of_the_deepest_root(g, e@, roots@, c);
    depth_of_one_root(g, e@, c);
    if roots@.len() == 0 {
        assert(roots@ =~= Seq::empty());
        assert(all@ =~= one@);
    }
}

/// What [`ExtractionResult::node_sum_cost`] returns for a node, and for the node with a
/// further child: the size of the node, what the map holds for each child, and
/// infinity for a child that it does not hold.
pub proof fn sums_over_children<M: MapGet<ClassId, Cost>>(
    e: ExtractionResult,
    g: EGraph,
    node: Node,
    longer: Node,
    child: NodeId,
    costs: M,
    of_node: Cost,
    of_longer: Cost,
)
    requires
        longer.cost == node.cost,
        longer.children@ == node.children@.push(child),
        node.cost >= 0,
        forall|c: ClassId| (#[trigger] costs.entry(c)) matches Some(v) ==> v >= 0,
        call_ensures(ExtractionResult::node_sum_cost::<M>, (&e, &g, &node, &costs), of_node),
        call_ensures(ExtractionResult::node_sum_cost::<M>, (&e, &g, &longer, &costs), of_longer),
    ensures
        node.children@.len() == 0 ==> of_node == node.cost,
        costs.entry(g.nodes@[child as int].eclass) matches Some(v) ==> of_longer == plus(
            of_node,
            v,
        ),
        costs.entry(g.nodes@[child as int].eclass) is None ==> of_longer == INFINITY,
{
    let k = node.children@.len();
    lemma_priced_prefix(g, costs, node.children@, longer.children@, k);
    lemma_priced_not_negative(g, costs, node.children@, k);
    assert(longer.children@[k as int] == child);
}

proof fn lemma_priced_prefix<M: MapGet<ClassId, Cost>>(
    g: EGraph,
    costs: M,
    a: Seq<NodeId>,
    b: Seq<NodeId>,
    k: nat,
)
    requires
        k <= a.len(),
        k <= b.len(),
        forall|i: int| 0 <= i < k ==> #[trigger] a[i] == b[i],
    ensures
        crate::extract::measure::priced_sum(g, &costs, a, k) == crate::extract::measure::priced_sum(
            g,
            &costs,
            b,
            k,
        ),
    decreases k,
{
    if k > 0 {
        lemma_priced_prefix(g, costs, a, b, (k - 1) as nat);
        assert(a[k - 1] == b[k - 1]);
    }
}

proof fn lemma_priced_not_negative<M: MapGet<ClassId, Cost>>(
    g: EGraph,
    costs: M,
    a: Seq<NodeId>,
    k: nat,
)
    requires
        k <= a.len(),
        forall|c: ClassId| (#[trigger] costs.entry(c)) matches Some(v) ==> v >= 0,
    ensures
        crate::extract::measure::priced_sum(g, &costs, a, k) >= 0,
    decreases k,
{
    if k > 0 {
        lemma_priced_not_negative(g, costs, a, (k - 1) as nat);
        let c = g.nodes@[a[k - 1] as int].eclass;
        if costs.entry(c) is Some {
            assert(costs.entry(c)->0 >= 0);
        }
    }
}

} // verus!
