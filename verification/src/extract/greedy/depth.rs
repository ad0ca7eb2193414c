//! Minimum-depth extraction.
use crate::cost::{add_costs, larger, max_cost, plus, Cost};
use crate::egraph::{ClassId, EGraph, Node, NodeId};
use crate::extract::greedy::fixpoint::{
    allowed_below, child_costs, cost_of, extract_superior, extractable, fixpoint_is_complete, greedy_choices,
    fixpoint_is_optimal, fixpoint_is_valid, is_costing, is_fixpoint, monotone, superior,
    well_chosen, CostRule,
};
use crate::extract::selection;
use crate::extract::selection::{
    arrival, dag_depth_of, edge, is_timing, latest_child, latest_root, nodes_known, reaches, timing,
    valid, NEG_LIMIT,
};
use crate::extract::{ExtractionResult, Extractor};
use vstd::prelude::*;

verus! {

/// Minimum-depth extractor, where the depth of a node is its `delay` plus the
/// largest depth among its children.
///
/// Despite the name this is **exact**: depth takes a maximum over children
/// rather than a sum over shared nodes, so a bottom-up fixpoint finds the
/// optimum. Exactness needs delays that are not negative.
pub struct GreedyDepthExtractor;

/// Any node may be chosen; a node arrives its delay after its latest child.
pub struct DepthRule;

/// The largest of the first `k` of `costs`, zero for none.
pub open spec fn greatest(costs: Seq<Cost>, k: nat) -> Cost
    decreases k,
{
    if k == 0 {
        0
    } else if k == 1 {
        costs[0]
    } else {
        larger(greatest(costs, (k - 1) as nat), costs[k - 1])
    }
}

/// The largest of some costs, zero for none.
pub(crate) fn greatest_cost(costs: &[Cost]) -> (r: Cost)
    ensures
        r == greatest(costs@, costs@.len()),
{
    if costs.len() == 0 {
        return 0;
    }
    let mut r: Cost = costs[0];
    let mut k: usize = 1;
    while k < costs.len()
        invariant
            1 <= k <= costs@.len(),
            r == greatest(costs@, k as nat),
        decreases costs@.len() - k,
    {
        r = max_cost(r, costs[k]);
        k += 1;
    }
    r
}

pub proof fn lemma_greatest_bound(costs: Seq<Cost>, k: nat, j: int)
    requires
        0 <= j < k <= costs.len(),
    ensures
        costs[j] <= greatest(costs, k),
    decreases k,
{
    if j < k - 1 {
        lemma_greatest_bound(costs, (k - 1) as nat, j);
    }
}

pub proof fn lemma_greatest_monotone(a: Seq<Cost>, b: Seq<Cost>, k: nat)
    requires
        k <= a.len() == b.len(),
        forall|j: int| 0 <= j < a.len() ==> a[j] <= b[j],
    ensures
        greatest(a, k) <= greatest(b, k),
    decreases k,
{
    if k > 1 {
        lemma_greatest_monotone(a, b, (k - 1) as nat);
    }
}

/// No node has a negative delay.
pub open spec fn delays_non_negative(g: EGraph) -> bool {
    forall|n: int| 0 <= n < g.nodes@.len() ==> (#[trigger] g.nodes@[n]).delay >= 0
}

impl CostRule for DepthRule {
    open spec fn allowed(&self, node: Node) -> bool {
        true
    }

    open spec fn price(&self, node: Node, children: Seq<Cost>) -> Cost {
        plus(node.delay, greatest(children, children.len()))
    }

    fn allows(&self, node: &Node) -> (r: bool) {
        true
    }

    fn node_cost(&self, node: &Node, children: &[Cost]) -> (r: Cost) {
        add_costs(node.delay, greatest_cost(children))
    }
}

proof fn lemma_depth_rule(g: EGraph)
    ensures
        monotone(DepthRule, g),
        delays_non_negative(g) ==> superior(DepthRule, g),
{
    assert forall|n: NodeId, a: Seq<Cost>, b: Seq<Cost>|
        n < g.nodes@.len() && a.len() == b.len() && (forall|j: int|
            0 <= j < a.len() ==> a[j] <= b[j]) implies #[trigger] DepthRule.price(
        g.nodes@[n as int],
        a,
    ) <= #[trigger] DepthRule.price(g.nodes@[n as int], b) by {
        lemma_greatest_monotone(a, b, a.len());
    }
    if delays_non_negative(g) {
        assert forall|n: NodeId, costs: Seq<Cost>, j: int|
            n < g.nodes@.len() && DepthRule.allowed(g.nodes@[n as int]) && 0 <= j
                < costs.len() implies #[trigger] costs[j] <= #[trigger] DepthRule.price(
            g.nodes@[n as int],
            costs,
        ) by {
            lemma_greatest_bound(costs, costs.len(), j);
        }
    }
}

/// Where no child arrives before time zero, the depth rule prices a node at
/// its arrival time.
proof fn lemma_price_is_arrival(g: EGraph, times: Map<ClassId, Cost>, n: NodeId)
    requires
        forall|c: ClassId| #[trigger] g.depends(n, c) ==> times[c] >= 0,
    ensures
        cost_of(g, DepthRule, times, n) == arrival(g, times, n),
{
    let k = g.nodes@[n as int].children@.len();
    lemma_greatest_is_latest(g, times, n, k);
}

proof fn lemma_greatest_is_latest(g: EGraph, times: Map<ClassId, Cost>, n: NodeId, k: nat)
    requires
        k <= g.nodes@[n as int].children@.len(),
        forall|c: ClassId| #[trigger] g.depends(n, c) ==> times[c] >= 0,
    ensures
        greatest(child_costs(g, times, n), k) == latest_child(g, times, n, k),
    decreases k,
{
    if k > 0 {
        lemma_greatest_is_latest(g, times, n, (k - 1) as nat);
        assert(g.depends(n, g.child_class(n, k - 1)));
        if k == 1 {
            assert(latest_child(g, times, n, 0) == 0);
        }
    }
}

proof fn lemma_fixpoint_non_negative(
    g: EGraph,
    sel: Map<ClassId, NodeId>,
    f: Map<ClassId, Cost>,
    rank: Map<ClassId, nat>,
    c: ClassId,
)
    requires
        delays_non_negative(g),
        is_fixpoint(g, DepthRule, sel, f, rank),
        f.contains_key(c),
    ensures
        f[c] >= 0,
    decreases rank[c],
{
    assert(well_chosen(g, DepthRule, sel, f, rank, c));
    let n = sel[c];
    assert forall|b: ClassId| #[trigger] g.depends(n, b) implies f[b] >= 0 by {
        lemma_fixpoint_non_negative(g, sel, f, rank, b);
    }
    lemma_price_is_arrival(g, f, n);
    lemma_latest_non_negative(g, f, n, g.nodes@[n as int].children@.len());
}

proof fn lemma_latest_non_negative(g: EGraph, times: Map<ClassId, Cost>, n: NodeId, k: nat)
    ensures
        latest_child(g, times, n, k) >= 0,
    decreases k,
{
    if k > 0 {
        lemma_latest_non_negative(g, times, n, (k - 1) as nat);
    }
}

proof fn lemma_latest_root_monotone(
    roots: Seq<ClassId>,
    a: Map<ClassId, Cost>,
    b: Map<ClassId, Cost>,
    floor: Cost,
    k: nat,
)
    requires
        k <= roots.len(),
        forall|i: int| 0 <= i < roots.len() ==> a[#[trigger] roots[i]] <= b[roots[i]],
    ensures
        latest_root(roots, a, floor, k) <= latest_root(roots, b, floor, k),
    decreases k,
{
    if k > 0 {
        lemma_latest_root_monotone(roots, a, b, floor, (k - 1) as nat);
        assert(a[roots[k - 1]] <= b[roots[k - 1]]);
    }
}

/// With delays that are not negative, no valid extraction is shallower than
/// the fixpoint of the depth rule.
pub proof fn depth_fixpoint_is_shallowest(
    g: EGraph,
    sel: Map<ClassId, NodeId>,
    f: Map<ClassId, Cost>,
    rank: Map<ClassId, nat>,
    other: Map<ClassId, NodeId>,
    roots: Seq<ClassId>,
)
    requires
        delays_non_negative(g),
        is_fixpoint(g, DepthRule, sel, f, rank),
        valid(g, other, roots),
    ensures
        valid(g, sel, roots),
        dag_depth_of(g, sel, roots) <= dag_depth_of(g, other, roots),
{
    lemma_depth_rule(g);
    selection::timing_exists(g, other, roots);
    let t = timing(g, other, roots);
    assert forall|c: ClassId| #[trigger] reaches(g, other, roots, c) implies t[c] >= 0 by {
        let n = other[c];
        assert(other.contains_key(c));
        lemma_latest_non_negative(g, t, n, g.nodes@[n as int].children@.len());
    }
    assert(is_costing(g, DepthRule, other, roots, t)) by {
        assert forall|c: ClassId| #[trigger] reaches(g, other, roots, c) implies t[c] == cost_of(
            g,
            DepthRule,
            t,
            other[c],
        ) by {
            let n = other[c];
            assert(other.contains_key(c));
            assert forall|b: ClassId| #[trigger] g.depends(n, b) implies t[b] >= 0 by {
                assert(edge(g, other, c, b));
                selection::lemma_reaches_step(g, other, roots, c, b);
            }
            lemma_price_is_arrival(g, t, n);
        }
    }
    assert(allowed_below(g, DepthRule, other, roots));
    assert forall|i: int| 0 <= i < roots.len() implies f.contains_key(#[trigger] roots[i])
        && f[roots[i]] <= t[roots[i]] by {
        assert(roots.contains(roots[i]));
        selection::lemma_reaches_root(g, other, roots, roots[i]);
        fixpoint_is_optimal(g, DepthRule, sel, f, rank, other, roots, t, roots[i]);
    }
    fixpoint_is_valid(g, DepthRule, sel, f, rank, roots);
    assert(is_timing(g, sel, roots, f)) by {
        assert forall|c: ClassId| #[trigger] reaches(g, sel, roots, c) implies f[c] == arrival(
            g,
            f,
            sel[c],
        ) by {
            let n = sel[c];
            assert(sel.contains_key(c));
            assert(sel.dom().contains(c));
            assert(f.contains_key(c));
            assert(well_chosen(g, DepthRule, sel, f, rank, c));
            assert forall|b: ClassId| #[trigger] g.depends(n, b) implies f[b] >= 0 by {
                lemma_fixpoint_non_negative(g, sel, f, rank, b);
            }
            lemma_price_is_arrival(g, f, n);
        }
    }
    selection::lemma_timing_is(g, sel, roots, f);
    let s = timing(g, sel, roots);
    assert forall|i: int| 0 <= i < roots.len() implies s[#[trigger] roots[i]] == f[roots[i]] by {
        assert(roots.contains(roots[i]));
        selection::lemma_reaches_root(g, sel, roots, roots[i]);
    }
    selection::lemma_latest_root_agree(roots, s, f, NEG_LIMIT, roots.len());
    lemma_latest_root_monotone(roots, f, t, NEG_LIMIT, roots.len());
}

impl Extractor for GreedyDepthExtractor {
    /// The shallowest extraction of any roots at once: it holds a choice for
    /// exactly the classes that have an acyclic one, and is valid for any
    /// roots that some extraction is valid for.
    fn extract(&self, egraph: &EGraph, roots: &[ClassId]) -> (r: ExtractionResult)
        ensures
            nodes_known(*egraph, r@),
            exists|f: Map<ClassId, Cost>, rank: Map<ClassId, nat>| #[trigger]
                is_fixpoint(*egraph, DepthRule, r@, f, rank),
            (r@, r.order()) == greedy_choices(*egraph, DepthRule),
            forall|c: ClassId| #[trigger]
                r@.contains_key(c) <==> extractable(*egraph, DepthRule, seq![c]),
            extractable(*egraph, DepthRule, roots@) <==> valid(*egraph, r@, roots@),
            delays_non_negative(*egraph) ==> forall|other: Map<ClassId, NodeId>| #[trigger]
                valid(*egraph, other, roots@) ==> dag_depth_of(*egraph, r@, roots@)
                    <= dag_depth_of(*egraph, other, roots@),
    {
        let r: ExtractionResult = extract_superior(egraph, &DepthRule);
        proof {
            let (f, rank) = choose|f: Map<ClassId, Cost>, rank: Map<ClassId, nat>| #[trigger]
                is_fixpoint(*egraph, DepthRule, r@, f, rank);
            fixpoint_is_complete(*egraph, DepthRule, r@, f, rank, roots@);
            if delays_non_negative(*egraph) {
                assert forall|other: Map<ClassId, NodeId>| #[trigger]
                    valid(*egraph, other, roots@) implies dag_depth_of(*egraph, r@, roots@)
                    <= dag_depth_of(*egraph, other, roots@) by {
                    depth_fixpoint_is_shallowest(*egraph, r@, f, rank, other, roots@);
                }
            }
        }
        r
    }
}

/// Roots that can be extracted at all can be extracted with the depth rule,
/// which allows every node.
pub proof fn extractable_by_depth(g: EGraph, sel: Map<ClassId, NodeId>, roots: Seq<ClassId>)
    requires
        valid(g, sel, roots),
    ensures
        extractable(g, DepthRule, roots),
{
    assert(allowed_below(g, DepthRule, sel, roots));
}

} // verus!
