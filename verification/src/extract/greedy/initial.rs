//! The initial expression back out of an e-graph.
use crate::cost::{add_costs, plus, Cost, ONE};
use crate::egraph::{ClassId, EGraph, Node, NodeId};
use crate::extract::greedy::depth::{
    greatest, greatest_cost, lemma_greatest_bound, lemma_greatest_monotone,
};
use crate::extract::greedy::fixpoint::{
    extract_superior, extractable, fixpoint_is_complete, greedy_choices, is_fixpoint, monotone, ready,
    superior,
    CostRule,
};
use crate::extract::selection::{nodes_known, valid};
use crate::extract::{ExtractionResult, Extractor};
use vstd::prelude::*;

verus! {

/// Rebuilds the initial expression from the nodes flagged `initial`.
///
/// Usually each class holds at most one initial node and this is just a walk.
/// But rewriting can prove two subexpressions of the initial expression
/// equivalent and union their classes, leaving a class with several initial
/// nodes, one of which may be an ancestor of the other. Choosing the one of
/// **minimum height** (levels above the leaves, over initial nodes only)
/// always yields an acyclic extraction; see [`initial_classes_are_chosen`].
///
/// Returns an empty extraction when the e-graph has no initial nodes; see
/// [`has_initial_nodes`].
pub struct InitialExtractor;

/// Only initial nodes may be chosen; a node is one level above its highest
/// child.
pub struct HeightRule;

impl CostRule for HeightRule {
    open spec fn allowed(&self, node: Node) -> bool {
        node.initial
    }

    open spec fn price(&self, node: Node, children: Seq<Cost>) -> Cost {
        plus(ONE, greatest(children, children.len()))
    }

    fn allows(&self, node: &Node) -> (r: bool) {
        node.initial
    }

    fn node_cost(&self, node: &Node, children: &[Cost]) -> (r: Cost) {
        add_costs(ONE, greatest_cost(children))
    }
}

/// Heights never fall from a child to its parent, nor when the children rise.
pub proof fn height_is_superior(g: EGraph)
    ensures
        superior(HeightRule, g),
        monotone(HeightRule, g),
{
    assert forall|n: NodeId, a: Seq<Cost>, b: Seq<Cost>|
        n < g.nodes@.len() && a.len() == b.len() && (forall|j: int|
            0 <= j < a.len() ==> a[j] <= b[j]) implies #[trigger] HeightRule.price(
        g.nodes@[n as int],
        a,
    ) <= #[trigger] HeightRule.price(g.nodes@[n as int], b) by {
        lemma_greatest_monotone(a, b, a.len());
    }
    assert forall|n: NodeId, costs: Seq<Cost>, j: int|
        n < g.nodes@.len() && HeightRule.allowed(g.nodes@[n as int]) && 0 <= j
            < costs.len() implies #[trigger] costs[j] <= #[trigger] HeightRule.price(
        g.nodes@[n as int],
        costs,
    ) by {
        lemma_greatest_bound(costs, costs.len(), j);
    }
}

/// Node `m` of class `c` is initial and lower than `bound`.
pub open spec fn initial_below(
    g: EGraph,
    height: Map<NodeId, nat>,
    c: ClassId,
    m: NodeId,
    bound: nat,
) -> bool {
    m < g.nodes@.len() && g.nodes@[m as int].initial && g.nodes@[m as int].eclass == c && height[m]
        < bound
}

/// `height` is a height of the initial nodes: every child class of one holds a
/// lower one. Any expression that was inserted whole has such heights,
/// whatever classes have been unioned since.
pub open spec fn initial_heights(g: EGraph, height: Map<NodeId, nat>) -> bool {
    forall|n: NodeId, c: ClassId|
        n < g.nodes@.len() && g.nodes@[n as int].initial && #[trigger] g.depends(n, c)
            ==> exists|m: NodeId| #[trigger] initial_below(g, height, c, m, height[n])
}

/// Where the initial nodes have heights, every class that holds an initial
/// node gets a choice.
pub proof fn initial_classes_are_chosen(
    g: EGraph,
    sel: Map<ClassId, NodeId>,
    f: Map<ClassId, Cost>,
    rank: Map<ClassId, nat>,
    height: Map<NodeId, nat>,
    n: NodeId,
)
    requires
        is_fixpoint(g, HeightRule, sel, f, rank),
        initial_heights(g, height),
        n < g.nodes@.len(),
        g.nodes@[n as int].initial,
    ensures
        sel.contains_key(g.nodes@[n as int].eclass),
    decreases height[n],
{
    assert forall|c: ClassId| #[trigger] g.depends(n, c) implies f.contains_key(c) by {
        let m = choose|m: NodeId| #[trigger] initial_below(g, height, c, m, height[n]);
        initial_classes_are_chosen(g, sel, f, rank, height, m);
        assert(sel.dom().contains(c));
    }
    assert(ready(g, f, n));
    assert(f.dom().contains(g.nodes@[n as int].eclass));
}

impl Extractor for InitialExtractor {
    /// A choice of initial nodes for exactly the classes that have an acyclic
    /// one, each of minimum height; valid for any roots that some extraction
    /// out of initial nodes is valid for.
    fn extract(&self, egraph: &EGraph, roots: &[ClassId]) -> (r: ExtractionResult)
        ensures
            nodes_known(*egraph, r@),
            exists|f: Map<ClassId, Cost>, rank: Map<ClassId, nat>| #[trigger]
                is_fixpoint(*egraph, HeightRule, r@, f, rank),
            (r@, r.order()) == greedy_choices(*egraph, HeightRule),
            forall|c: ClassId| #[trigger]
                r@.contains_key(c) <==> extractable(*egraph, HeightRule, seq![c]),
            forall|c: ClassId| #[trigger]
                r@.contains_key(c) ==> egraph.nodes@[r@[c] as int].initial,
            extractable(*egraph, HeightRule, roots@) <==> valid(*egraph, r@, roots@),
    {
        let r: ExtractionResult = extract_superior(egraph, &HeightRule);
        proof {
            let (f, rank) = choose|f: Map<ClassId, Cost>, rank: Map<ClassId, nat>| #[trigger]
                is_fixpoint(*egraph, HeightRule, r@, f, rank);
            fixpoint_is_complete(*egraph, HeightRule, r@, f, rank, roots@);
            assert forall|c: ClassId| #[trigger]
                r@.contains_key(c) implies egraph.nodes@[r@[c] as int].initial by {
                assert(r@.dom().contains(c));
                assert(f.contains_key(c));
            }
        }
        r
    }
}

/// Whether any node of `egraph` is flagged `initial`.
pub fn has_initial_nodes(egraph: &EGraph) -> (r: bool)
    ensures
        r <==> exists|n: int| 0 <= n < egraph.nodes@.len() && (#[trigger] egraph.nodes@[n]).initial,
{
    let mut n: usize = 0;
    while n < egraph.nodes.len()
        invariant
            n <= egraph.nodes@.len(),
            forall|m: int| 0 <= m < n ==> !(#[trigger] egraph.nodes@[m]).initial,
        decreases egraph.nodes@.len() - n,
    {
        if egraph.nodes[n].initial {
            assert(egraph.nodes@[n as int].initial);
            return true;
        }
        n += 1;
    }
    false
}

} // verus!
