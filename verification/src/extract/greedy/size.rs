//! Small extractions without a solver.
use crate::cost::{add_costs, larger, max_cost, plus, Cost};
use crate::egraph::{ClassId, EGraph, Node, NodeId};
use crate::extract::greedy::fixpoint::{
    allowed_below, child_costs, cost_of, extract_superior, extractable, fixpoint_is_complete, greedy_choices,
    fixpoint_is_optimal, fixpoint_is_valid, is_costing, is_fixpoint, monotone, superior,
    well_chosen, CostRule,
};
use crate::extract::selection;
use crate::extract::selection::{
    children_sum, covers, edge, is_tree_sizing, nodes_known, placed, ranked, reaches, roots_sum,
    tree_cost_of, tree_size, tree_sizing, valid,
};
use crate::extract::{ExtractionResult, Extractor};
use vstd::prelude::*;

verus! {

/// A heuristic for small extractions: every class gets the node that heads the
/// smallest tree. What trees share is counted every time, so the result need
/// not be the smallest extraction, but it is one whenever there is one, and of
/// the least tree cost.
pub struct GreedySizeExtractor;

/// Any node may be chosen; a node is as large as the tree it heads.
pub struct TreeRule;

/// The sum of the first `k` of `costs`, in which less than nothing counts as
/// nothing.
pub open spec fn total(costs: Seq<Cost>, k: nat) -> Cost
    decreases k,
{
    if k == 0 {
        0
    } else {
        plus(total(costs, (k - 1) as nat), larger(0, costs[k - 1]))
    }
}

impl CostRule for TreeRule {
    open spec fn allowed(&self, node: Node) -> bool {
        true
    }

    open spec fn price(&self, node: Node, children: Seq<Cost>) -> Cost {
        plus(node.cost, total(children, children.len()))
    }

    fn allows(&self, node: &Node) -> (r: bool) {
        true
    }

    fn node_cost(&self, node: &Node, children: &[Cost]) -> (r: Cost) {
        let mut sum: Cost = 0;
        let mut k: usize = 0;
        while k < children.len()
            invariant
                k <= children@.len(),
                sum == total(children@, k as nat),
            decreases children@.len() - k,
        {
            sum = add_costs(sum, max_cost(0, children[k]));
            k += 1;
        }
        add_costs(node.cost, sum)
    }
}

/// No node has a negative size.
pub open spec fn sizes_non_negative(g: EGraph) -> bool {
    forall|n: int| 0 <= n < g.nodes@.len() ==> (#[trigger] g.nodes@[n]).cost >= 0
}

proof fn lemma_total(costs: Seq<Cost>, k: nat, j: int)
    requires
        0 <= j < k <= costs.len(),
    ensures
        costs[j] <= total(costs, k),
        0 <= total(costs, k),
    decreases k,
{
    if k > 1 {
        let i = if j < k - 1 {
            j
        } else {
            0
        };
        lemma_total(costs, (k - 1) as nat, i);
    } else {
        assert(total(costs, 0) == 0);
    }
}

proof fn lemma_total_monotone(a: Seq<Cost>, b: Seq<Cost>, k: nat)
    requires
        k <= a.len() == b.len(),
        forall|j: int| 0 <= j < a.len() ==> a[j] <= b[j],
    ensures
        0 <= total(a, k) <= total(b, k),
    decreases k,
{
    if k > 0 {
        lemma_total_monotone(a, b, (k - 1) as nat);
        assert(a[k - 1] <= b[k - 1]);
    }
}

proof fn lemma_tree_rule(g: EGraph)
    requires
        sizes_non_negative(g),
    ensures
        monotone(TreeRule, g),
        superior(TreeRule, g),
{
    assert forall|n: NodeId, a: Seq<Cost>, b: Seq<Cost>|
        n < g.nodes@.len() && a.len() == b.len() && (forall|j: int|
            0 <= j < a.len() ==> a[j] <= b[j]) implies #[trigger] TreeRule.price(
        g.nodes@[n as int],
        a,
    ) <= #[trigger] TreeRule.price(g.nodes@[n as int], b) by {
        lemma_total_monotone(a, b, a.len());
    }
    assert forall|n: NodeId, costs: Seq<Cost>, j: int|
        n < g.nodes@.len() && TreeRule.allowed(g.nodes@[n as int]) && 0 <= j
            < costs.len() implies #[trigger] costs[j] <= #[trigger] TreeRule.price(
        g.nodes@[n as int],
        costs,
    ) by {
        lemma_total(costs, costs.len(), j);
        assert(g.nodes@[n as int].cost >= 0);
    }
}

/// Where no child is smaller than nothing, the rule prices a node at its tree
/// size, which is not smaller than nothing either.
proof fn lemma_price_is_size(g: EGraph, sizes: Map<ClassId, Cost>, n: NodeId)
    requires
        sizes_non_negative(g),
        n < g.nodes@.len(),
        forall|c: ClassId| #[trigger] g.depends(n, c) ==> sizes[c] >= 0,
    ensures
        cost_of(g, TreeRule, sizes, n) == tree_size(g, sizes, n),
        tree_size(g, sizes, n) >= 0,
{
    let k = g.nodes@[n as int].children@.len();
    lemma_total_is_sum(g, sizes, n, k);
    assert(g.nodes@[n as int].cost >= 0);
}

proof fn lemma_total_is_sum(g: EGraph, sizes: Map<ClassId, Cost>, n: NodeId, k: nat)
    requires
        k <= g.nodes@[n as int].children@.len(),
        forall|c: ClassId| #[trigger] g.depends(n, c) ==> sizes[c] >= 0,
    ensures
        total(child_costs(g, sizes, n), k) == children_sum(g, sizes, n, k),
        children_sum(g, sizes, n, k) >= 0,
    decreases k,
{
    if k > 0 {
        lemma_total_is_sum(g, sizes, n, (k - 1) as nat);
        assert(g.depends(n, g.child_class(n, k - 1)));
    }
}

proof fn lemma_sizing_non_negative(
    g: EGraph,
    sel: Map<ClassId, NodeId>,
    roots: Seq<ClassId>,
    rank: Map<ClassId, nat>,
    sizes: Map<ClassId, Cost>,
    c: ClassId,
)
    requires
        sizes_non_negative(g),
        placed(g, sel, roots),
        covers(g, sel, roots),
        ranked(g, sel, roots, rank),
        is_tree_sizing(g, sel, roots, sizes),
        reaches(g, sel, roots, c),
    ensures
        sizes[c] >= 0,
        sizes[c] == cost_of(g, TreeRule, sizes, sel[c]),
    decreases rank[c],
{
    let n = sel[c];
    assert(sel.contains_key(c));
    assert forall|b: ClassId| #[trigger] g.depends(n, b) implies sizes[b] >= 0 by {
        assert(edge(g, sel, c, b));
        selection::lemma_reaches_step(g, sel, roots, c, b);
        lemma_sizing_non_negative(g, sel, roots, rank, sizes, b);
    }
    lemma_price_is_size(g, sizes, n);
}

proof fn lemma_fixpoint_non_negative(
    g: EGraph,
    sel: Map<ClassId, NodeId>,
    f: Map<ClassId, Cost>,
    rank: Map<ClassId, nat>,
    c: ClassId,
)
    requires
        sizes_non_negative(g),
        is_fixpoint(g, TreeRule, sel, f, rank),
        f.contains_key(c),
    ensures
        f[c] >= 0,
        f[c] == tree_size(g, f, sel[c]),
    decreases rank[c],
{
    assert(well_chosen(g, TreeRule, sel, f, rank, c));
    let n = sel[c];
    assert forall|b: ClassId| #[trigger] g.depends(n, b) implies f[b] >= 0 by {
        lemma_fixpoint_non_negative(g, sel, f, rank, b);
    }
    lemma_price_is_size(g, f, n);
}

proof fn lemma_roots_sum_monotone(
    roots: Seq<ClassId>,
    a: Map<ClassId, Cost>,
    b: Map<ClassId, Cost>,
    k: nat,
)
    requires
        k <= roots.len(),
        forall|i: int| 0 <= i < roots.len() ==> a[#[trigger] roots[i]] <= b[roots[i]],
    ensures
        roots_sum(roots, a, k) <= roots_sum(roots, b, k),
    decreases k,
{
    if k > 0 {
        lemma_roots_sum_monotone(roots, a, b, (k - 1) as nat);
        assert(a[roots[k - 1]] <= b[roots[k - 1]]);
    }
}

/// With sizes that are not negative, no valid extraction has a lower tree cost
/// than the fixpoint of the tree rule.
pub proof fn tree_fixpoint_is_smallest(
    g: EGraph,
    sel: Map<ClassId, NodeId>,
    f: Map<ClassId, Cost>,
    rank: Map<ClassId, nat>,
    other: Map<ClassId, NodeId>,
    roots: Seq<ClassId>,
)
    requires
        sizes_non_negative(g),
        is_fixpoint(g, TreeRule, sel, f, rank),
        valid(g, other, roots),
    ensures
        valid(g, sel, roots),
        tree_cost_of(g, sel, roots) <= tree_cost_of(g, other, roots),
{
    lemma_tree_rule(g);
    selection::tree_sizing_exists(g, other, roots);
    let t = tree_sizing(g, other, roots);
    let depth = choose|depth: Map<ClassId, nat>| ranked(g, other, roots, depth);
    assert(is_costing(g, TreeRule, other, roots, t)) by {
        assert forall|c: ClassId| #[trigger] reaches(g, other, roots, c) implies t[c] == cost_of(
            g,
            TreeRule,
            t,
            other[c],
        ) by {
            lemma_sizing_non_negative(g, other, roots, depth, t, c);
        }
    }
    assert(allowed_below(g, TreeRule, other, roots));
    assert forall|i: int| 0 <= i < roots.len() implies f.contains_key(#[trigger] roots[i])
        && f[roots[i]] <= t[roots[i]] by {
        assert(roots.contains(roots[i]));
        selection::lemma_reaches_root(g, other, roots, roots[i]);
        fixpoint_is_optimal(g, TreeRule, sel, f, rank, other, roots, t, roots[i]);
    }
    fixpoint_is_valid(g, TreeRule, sel, f, rank, roots);
    assert(is_tree_sizing(g, sel, roots, f)) by {
        assert forall|c: ClassId| #[trigger] reaches(g, sel, roots, c) implies f[c] == tree_size(
            g,
            f,
            sel[c],
        ) by {
            assert(sel.contains_key(c));
            assert(sel.dom().contains(c));
            assert(f.contains_key(c));
            lemma_fixpoint_non_negative(g, sel, f, rank, c);
        }
    }
    let s = tree_sizing(g, sel, roots);
    assert(is_tree_sizing(g, sel, roots, s));
    assert forall|i: int| 0 <= i < roots.len() implies s[#[trigger] roots[i]] <= t[roots[i]] by {
        assert(roots.contains(roots[i]));
        selection::lemma_reaches_root(g, sel, roots, roots[i]);
        selection::tree_sizing_is_unique(g, sel, roots, s, f, roots[i]);
    }
    lemma_roots_sum_monotone(roots, s, t, roots.len());
}

impl Extractor for GreedySizeExtractor {
    /// A choice for exactly the classes that have an acyclic one; valid for
    /// any roots that some extraction is valid for, and of the least tree cost.
    fn extract(&self, egraph: &EGraph, roots: &[ClassId]) -> (r: ExtractionResult)
        ensures
            nodes_known(*egraph, r@),
            exists|f: Map<ClassId, Cost>, rank: Map<ClassId, nat>| #[trigger]
                is_fixpoint(*egraph, TreeRule, r@, f, rank),
            (r@, r.order()) == greedy_choices(*egraph, TreeRule),
            forall|c: ClassId| #[trigger]
                r@.contains_key(c) <==> extractable(*egraph, TreeRule, seq![c]),
            extractable(*egraph, TreeRule, roots@) <==> valid(*egraph, r@, roots@),
            sizes_non_negative(*egraph) ==> forall|other: Map<ClassId, NodeId>| #[trigger]
                valid(*egraph, other, roots@) ==> tree_cost_of(*egraph, r@, roots@)
                    <= tree_cost_of(*egraph, other, roots@),
    {
        let r: ExtractionResult = extract_superior(egraph, &TreeRule);
        proof {
            let (f, rank) = choose|f: Map<ClassId, Cost>, rank: Map<ClassId, nat>| #[trigger]
                is_fixpoint(*egraph, TreeRule, r@, f, rank);
            fixpoint_is_complete(*egraph, TreeRule, r@, f, rank, roots@);
            if sizes_non_negative(*egraph) {
                assert forall|other: Map<ClassId, NodeId>| #[trigger]
                    valid(*egraph, other, roots@) implies tree_cost_of(*egraph, r@, roots@)
                    <= tree_cost_of(*egraph, other, roots@) by {
                    tree_fixpoint_is_smallest(*egraph, r@, f, rank, other, roots@);
                }
            }
        }
        r
    }
}

/// Roots that can be extracted at all can be extracted with the tree rule,
/// which allows every node.
pub proof fn extractable_by_size(g: EGraph, sel: Map<ClassId, NodeId>, roots: Seq<ClassId>)
    requires
        valid(g, sel, roots),
    ensures
        extractable(g, TreeRule, roots),
{
    assert(allowed_below(g, TreeRule, sel, roots));
}

} // verus!
