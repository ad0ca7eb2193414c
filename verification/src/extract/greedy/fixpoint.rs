//! Exact bottom-up extraction for costs of the form
//! `cost(node) = price(node, child costs)` where `price` is *superior*: never
//! below a child's cost, as in `delay + max(children)`.
//!
//! This is Knuth's generalisation of Dijkstra's algorithm. A class is
//! finalised when it is the cheapest unfinalised candidate, and a node only
//! becomes a candidate once all of its child classes are finalised. No later
//! candidate can undercut a finalised class, so every class gets its optimal
//! cost; children are finalised before their parents, so the choices are
//! acyclic.
use crate::collections::{fx_map_get, fx_map_insert, fx_set_insert};
use crate::cost::{Cost, NEG_INFINITY};
use crate::egraph::{ClassId, EGraph, Node, NodeId};
use crate::extract::greedy::heap::{before, Candidate, MinHeap};
use crate::extract::selection;
use crate::extract::selection::{
    covers, edge, nodes_known, placed, ranked, reaches, valid,
};
use crate::extract::ExtractionResult;
use rustc_hash::{FxHashMap, FxHashSet};
use vstd::multiset::Multiset;
use vstd::prelude::*;

verus! {

/// Which nodes may be chosen, and what a node costs.
pub trait CostRule: Sized {
    /// The node may be chosen.
    spec fn allowed(&self, node: Node) -> bool;

    /// The cost of a node whose children, in order, cost `children`.
    spec fn price(&self, node: Node, children: Seq<Cost>) -> Cost;

    fn allows(&self, node: &Node) -> (r: bool)
        ensures
            r == self.allowed(*node),
    ;

    fn node_cost(&self, node: &Node, children: &[Cost]) -> (r: Cost)
        ensures
            r == self.price(*node, children@),
    ;
}

/// No allowed node costs less than one of its children.
pub open spec fn superior<R: CostRule>(rule: R, g: EGraph) -> bool {
    forall|n: NodeId, costs: Seq<Cost>, j: int|
        n < g.nodes@.len() && rule.allowed(g.nodes@[n as int]) && 0 <= j < costs.len()
            ==> #[trigger] costs[j] <= #[trigger] rule.price(g.nodes@[n as int], costs)
}

/// Dearer children never make a node cheaper.
pub open spec fn monotone<R: CostRule>(rule: R, g: EGraph) -> bool {
    forall|n: NodeId, a: Seq<Cost>, b: Seq<Cost>|
        n < g.nodes@.len() && a.len() == b.len() && (forall|j: int|
            0 <= j < a.len() ==> a[j] <= b[j]) ==> #[trigger] rule.price(g.nodes@[n as int], a)
            <= #[trigger] rule.price(g.nodes@[n as int], b)
}

/// The costs of the children of node `n`, in order.
pub open spec fn child_costs(g: EGraph, f: Map<ClassId, Cost>, n: NodeId) -> Seq<Cost> {
    Seq::new(g.nodes@[n as int].children@.len(), |j: int| f[g.child_class(n, j)])
}

/// The cost of node `n` under the class costs `f`.
pub open spec fn cost_of<R: CostRule>(g: EGraph, rule: R, f: Map<ClassId, Cost>, n: NodeId) -> Cost {
    rule.price(g.nodes@[n as int], child_costs(g, f, n))
}

/// Every child class of node `n` has a cost.
pub open spec fn ready(g: EGraph, f: Map<ClassId, Cost>, n: NodeId) -> bool {
    forall|c: ClassId| #[trigger] g.depends(n, c) ==> f.contains_key(c)
}

/// The choice for class `c` is an allowed node of it, costs what `f` says, and
/// has only children of lower rank.
pub open spec fn well_chosen<R: CostRule>(
    g: EGraph,
    rule: R,
    sel: Map<ClassId, NodeId>,
    f: Map<ClassId, Cost>,
    rank: Map<ClassId, nat>,
    c: ClassId,
) -> bool {
    &&& sel[c] < g.nodes@.len()
    &&& g.nodes@[sel[c] as int].eclass == c
    &&& rule.allowed(g.nodes@[sel[c] as int])
    &&& f[c] == cost_of(g, rule, f, sel[c])
    &&& forall|b: ClassId| #[trigger]
        g.depends(sel[c], b) ==> f.contains_key(b) && rank[b] < rank[c]
}

/// `f` gives every class that an acyclic choice exists for its cost, and `sel`
/// the node it comes from: no allowed node whose children have costs is left
/// over, and, for a superior rule, none is cheaper than its class.
pub open spec fn is_fixpoint<R: CostRule>(
    g: EGraph,
    rule: R,
    sel: Map<ClassId, NodeId>,
    f: Map<ClassId, Cost>,
    rank: Map<ClassId, nat>,
) -> bool {
    &&& sel.dom() == f.dom()
    &&& forall|c: ClassId| #[trigger] f.contains_key(c) ==> well_chosen(g, rule, sel, f, rank, c)
    &&& forall|n: NodeId|
        n < g.nodes@.len() && rule.allowed(g.nodes@[n as int]) && #[trigger] ready(g, f, n)
            ==> f.contains_key(g.nodes@[n as int].eclass) && (superior(rule, g)
            ==> f[g.nodes@[n as int].eclass] <= cost_of(g, rule, f, n))
}

/// The child classes of node `n` that have no cost yet.
pub open spec fn unfinalised(g: EGraph, f: Map<ClassId, Cost>, n: NodeId) -> Set<ClassId> {
    Set::new(|c: ClassId| g.depends(n, c) && !f.contains_key(c))
}

/// Some candidate in the queue stands for the node at position `idx`.
pub open spec fn queued(queue: Multiset<Candidate>, idx: int) -> bool {
    exists|e: Candidate| #[trigger] queue.contains(e) && e.2 == idx
}

/// Every candidate in the queue is a ready node with its cost.
pub open spec fn queue_ok<R: CostRule>(
    g: EGraph,
    rule: R,
    nodes: Seq<NodeId>,
    f: Map<ClassId, Cost>,
    queue: Multiset<Candidate>,
) -> bool {
    forall|e: Candidate| #[trigger]
        queue.contains(e) ==> e.2 < nodes.len() && ready(g, f, nodes[e.2 as int]) && e.0 == cost_of(
            g,
            rule,
            f,
            nodes[e.2 as int],
        )
}

/// The node at position `idx` is in the queue, or its class has a cost that it
/// cannot lower.
pub open spec fn served<R: CostRule>(
    g: EGraph,
    rule: R,
    nodes: Seq<NodeId>,
    f: Map<ClassId, Cost>,
    queue: Multiset<Candidate>,
    idx: int,
) -> bool {
    let n = nodes[idx];
    queued(queue, idx) || (f.contains_key(g.nodes@[n as int].eclass) && (superior(rule, g)
        ==> f[g.nodes@[n as int].eclass] <= cost_of(g, rule, f, n)))
}

/// No finalised class costs more than `cur`, and no candidate costs less.
pub open spec fn split_at(f: Map<ClassId, Cost>, queue: Multiset<Candidate>, cur: Cost) -> bool {
    &&& forall|c: ClassId| #[trigger] f.contains_key(c) ==> f[c] <= cur
    &&& forall|e: Candidate| #[trigger] queue.contains(e) ==> cur <= e.0
}

/// `nodes` lists allowed nodes, and all of them.
pub open spec fn lists_allowed<R: CostRule>(g: EGraph, rule: R, nodes: Seq<NodeId>) -> bool {
    &&& forall|i: int|
        0 <= i < nodes.len() ==> (#[trigger] nodes[i]) < g.nodes@.len() && rule.allowed(
            g.nodes@[nodes[i] as int],
        )
    &&& forall|n: NodeId|
        n < g.nodes@.len() && rule.allowed(#[trigger] g.nodes@[n as int]) ==> nodes.contains(n)
}

/// Each position is above the one before.
pub open spec fn rises(list: Seq<usize>) -> bool {
    forall|i: int, j: int| 0 <= i < j < list.len() ==> list[i] < list[j]
}

/// `parents[c]` lists the positions of the first `k` nodes that depend on `c`.
pub open spec fn lists_parents(
    g: EGraph,
    nodes: Seq<NodeId>,
    parents: Seq<Vec<usize>>,
    k: int,
) -> bool {
    &&& parents.len() == g.classes@.len()
    &&& forall|c: int|
        0 <= c < parents.len() ==> {
            &&& rises((#[trigger] parents[c])@)
            &&& forall|idx: usize| #[trigger]
                parents[c]@.contains(idx) <==> idx < k && g.depends(
                    nodes[idx as int],
                    c as ClassId,
                )
        }
}

/// Positions whose node still waits for a child.
pub open spec fn waiting(pending: Seq<usize>) -> Set<int> {
    Set::new(|i: int| 0 <= i < pending.len() && pending[i] > 0)
}

proof fn lemma_depends_finite(g: EGraph, n: NodeId)
    ensures
        Set::new(|c: ClassId| g.depends(n, c)).finite(),
{
    let s = Seq::new(g.nodes@[n as int].children@.len(), |j: int| g.child_class(n, j));
    assert(Set::new(|c: ClassId| g.depends(n, c)) =~= s.to_set()) by {
        assert forall|c: ClassId| g.depends(n, c) implies s.to_set().contains(c) by {
            let j = choose|j: int|
                0 <= j < g.nodes@[n as int].children@.len() && g.child_class(n, j) == c;
            assert(s[j] == c);
        }
    }
    vstd::seq_lib::seq_to_set_is_finite(s);
}

proof fn lemma_unfinalised_finite(g: EGraph, f: Map<ClassId, Cost>, n: NodeId)
    ensures
        unfinalised(g, f, n).finite(),
        unfinalised(g, f, n).len() == 0 <==> ready(g, f, n),
{
    lemma_depends_finite(g, n);
    let all = Set::new(|c: ClassId| g.depends(n, c));
    assert(unfinalised(g, f, n).subset_of(all));
    vstd::set_lib::lemma_set_subset_finite(all, unfinalised(g, f, n));
    if ready(g, f, n) {
        assert(unfinalised(g, f, n) =~= Set::empty());
    } else {
        let c = choose|c: ClassId| #[trigger] g.depends(n, c) && !f.contains_key(c);
        assert(unfinalised(g, f, n).contains(c));
    }
}

proof fn lemma_unfinalised_step(
    g: EGraph,
    f: Map<ClassId, Cost>,
    n: NodeId,
    class: ClassId,
    cost: Cost,
)
    requires
        !f.contains_key(class),
    ensures
        g.depends(n, class) ==> unfinalised(g, f, n).len() == unfinalised(
            g,
            f.insert(class, cost),
            n,
        ).len() + 1,
        !g.depends(n, class) ==> unfinalised(g, f, n) == unfinalised(g, f.insert(class, cost), n),
{
    let f1 = f.insert(class, cost);
    lemma_unfinalised_finite(g, f, n);
    if g.depends(n, class) {
        assert(unfinalised(g, f, n).contains(class));
        assert(unfinalised(g, f1, n) =~= unfinalised(g, f, n).remove(class));
    } else {
        assert(unfinalised(g, f1, n) =~= unfinalised(g, f, n));
    }
}

/// Finalising a class leaves the cost of a ready node as it is.
proof fn lemma_cost_of_kept<R: CostRule>(
    g: EGraph,
    rule: R,
    f: Map<ClassId, Cost>,
    n: NodeId,
    class: ClassId,
    cost: Cost,
)
    requires
        ready(g, f, n),
        !f.contains_key(class),
    ensures
        cost_of(g, rule, f, n) == cost_of(g, rule, f.insert(class, cost), n),
        ready(g, f.insert(class, cost), n),
{
    let f1 = f.insert(class, cost);
    assert(child_costs(g, f, n) =~= child_costs(g, f1, n)) by {
        assert forall|j: int| 0 <= j < g.nodes@[n as int].children@.len() implies child_costs(
            g,
            f,
            n,
        )[j] == child_costs(g, f1, n)[j] by {
            assert(g.depends(n, g.child_class(n, j)));
        }
    }
}

/// A ready node with a child of cost `cur` costs at least as much.
proof fn lemma_superior_child<R: CostRule>(
    g: EGraph,
    rule: R,
    f: Map<ClassId, Cost>,
    n: NodeId,
    class: ClassId,
)
    requires
        superior(rule, g),
        n < g.nodes@.len(),
        rule.allowed(g.nodes@[n as int]),
        g.depends(n, class),
    ensures
        f[class] <= cost_of(g, rule, f, n),
{
    let j = choose|j: int|
        0 <= j < g.nodes@[n as int].children@.len() && g.child_class(n, j) == class;
    let costs = child_costs(g, f, n);
    assert(costs[j] == f[class]);
    assert(costs[j] <= rule.price(g.nodes@[n as int], costs));
}

/// The classes of the children of a node, each once.
fn distinct_child_classes(egraph: &EGraph, nid: NodeId) -> (r: Vec<ClassId>)
    requires
        egraph.wf(),
        nid < egraph.nodes@.len(),
    ensures
        r@.no_duplicates(),
        forall|c: ClassId| #[trigger] r@.contains(c) <==> egraph.depends(nid, c),
{
    let ghost g = *egraph;
    let mut seen: FxHashSet<ClassId> = FxHashSet::default();
    let mut r: Vec<ClassId> = Vec::new();
    let mut j: usize = 0;
    while j < egraph.nodes[nid].children.len()
        invariant
            egraph.wf(),
            g == *egraph,
            nid < g.nodes@.len(),
            j <= g.nodes@[nid as int].children@.len(),
            r@.no_duplicates(),
            forall|c: ClassId| #[trigger] seen@.contains(c) <==> r@.contains(c),
            forall|c: ClassId| #[trigger] r@.contains(c) ==> g.depends(nid, c),
            forall|i: int| 0 <= i < j ==> r@.contains(#[trigger] g.child_class(nid, i)),
        decreases g.nodes@[nid as int].children@.len() - j,
    {
        proof {
            g.lemma_child_class(nid, j as int);
            assert(g.nodes@[nid as int].children@[j as int] < g.nodes@.len());
        }
        let child: ClassId = egraph.nid_to_cid(egraph.nodes[nid].children[j]);
        let ghost r0 = r@;
        if fx_set_insert(&mut seen, child) {
            r.push(child);
            proof {
                assert(r@[r0.len() as int] == child);
                assert forall|c: ClassId| #[trigger] r@.contains(c) <==> r0.contains(c) || c
                    == child by {
                    if r0.contains(c) {
                        let k = choose|k: int| 0 <= k < r0.len() && r0[k] == c;
                        assert(r@[k] == c);
                    }
                }
            }
        }
        j += 1;
    }
    proof {
        assert forall|c: ClassId| g.depends(nid, c) implies #[trigger] r@.contains(c) by {
            let i = choose|i: int|
                0 <= i < g.nodes@[nid as int].children@.len() && g.child_class(nid, i) == c;
            assert(r@.contains(g.child_class(nid, i)));
        }
    }
    r
}

/// The allowed nodes, in the order of the classes and of their members.
fn allowed_nodes<R: CostRule>(egraph: &EGraph, rule: &R) -> (r: Vec<NodeId>)
    requires
        egraph.wf(),
    ensures
        lists_allowed(*egraph, *rule, r@),
        r@ == allowed_to(*egraph, *rule, egraph.classes@.len()),
{
    let ghost g = *egraph;
    let mut r: Vec<NodeId> = Vec::new();
    let mut c: usize = 0;
    while c < egraph.classes.len()
        invariant
            egraph.wf(),
            g == *egraph,
            c <= g.classes@.len(),
            r@ == allowed_to(g, *rule, c as nat),
            forall|i: int|
                0 <= i < r@.len() ==> (#[trigger] r@[i]) < g.nodes@.len() && rule.allowed(
                    g.nodes@[r@[i] as int],
                ),
            forall|n: NodeId|
                n < g.nodes@.len() && rule.allowed(#[trigger] g.nodes@[n as int])
                    && g.nodes@[n as int].eclass < c ==> r@.contains(n),
        decreases g.classes@.len() - c,
    {
        let ghost start = r@;
        let ghost members = g.classes@[c as int].nodes@;
        let mut i: usize = 0;
        assert(start + allowed_in(g, *rule, c as int, 0) =~= start);
        while i < egraph.classes[c].nodes.len()
            invariant
                egraph.wf(),
                g == *egraph,
                c < g.classes@.len(),
                members == g.classes@[c as int].nodes@,
                i <= members.len(),
                start == allowed_to(g, *rule, c as nat),
                r@ == start + allowed_in(g, *rule, c as int, i as nat),
                forall|k: int|
                    0 <= k < r@.len() ==> (#[trigger] r@[k]) < g.nodes@.len() && rule.allowed(
                        g.nodes@[r@[k] as int],
                    ),
                forall|n: NodeId| start.contains(n) ==> #[trigger] r@.contains(n),
                forall|k: int|
                    0 <= k < i && rule.allowed(g.nodes@[#[trigger] members[k] as int])
                        ==> r@.contains(members[k]),
            decreases members.len() - i,
        {
            let nid: NodeId = egraph.classes[c].nodes[i];
            proof {
                assert(crate::egraph::lists_members(g.nodes@, c as int, members));
                assert(members[i as int] < g.nodes@.len());
            }
            if rule.allows(&egraph.nodes[nid]) {
                let ghost r0 = r@;
                r.push(nid);
                proof {
                    assert(r@ =~= start + allowed_in(g, *rule, c as int, (i + 1) as nat));
                    assert(r@[r0.len() as int] == nid);
                    assert forall|n: NodeId| r0.contains(n) implies #[trigger] r@.contains(n) by {
                        let k = choose|k: int| 0 <= k < r0.len() && r0[k] == n;
                        assert(r@[k] == n);
                    }
                }
            }
            i += 1;
        }
        proof {
            assert forall|n: NodeId|
                n < g.nodes@.len() && rule.allowed(#[trigger] g.nodes@[n as int])
                    && g.nodes@[n as int].eclass < c + 1 implies r@.contains(n) by {
                if g.nodes@[n as int].eclass == c {
                    assert(crate::egraph::lists_members(g.nodes@, c as int, members));
                    assert(members.contains(n));
                    let k = choose|k: int| 0 <= k < members.len() && members[k] == n;
                    assert(r@.contains(members[k]));
                } else {
                    assert(start.contains(n));
                }
            }
        }
        c += 1;
    }
    r
}

/// The cost of a node all of whose child classes are finalised.
fn settled_cost<R: CostRule>(
    egraph: &EGraph,
    rule: &R,
    finalised: &FxHashMap<ClassId, Cost>,
    nid: NodeId,
) -> (r: Cost)
    requires
        egraph.wf(),
        nid < egraph.nodes@.len(),
        ready(*egraph, finalised@, nid),
    ensures
        r == cost_of(*egraph, *rule, finalised@, nid),
{
    let ghost g = *egraph;
    let mut costs: Vec<Cost> = Vec::new();
    let mut j: usize = 0;
    while j < egraph.nodes[nid].children.len()
        invariant
            egraph.wf(),
            g == *egraph,
            nid < g.nodes@.len(),
            ready(g, finalised@, nid),
            j <= g.nodes@[nid as int].children@.len(),
            costs@ == child_costs(g, finalised@, nid).take(j as int),
        decreases g.nodes@[nid as int].children@.len() - j,
    {
        proof {
            g.lemma_child_class(nid, j as int);
            assert(g.nodes@[nid as int].children@[j as int] < g.nodes@.len());
            assert(g.depends(nid, g.child_class(nid, j as int)));
        }
        let child: ClassId = egraph.nid_to_cid(egraph.nodes[nid].children[j]);
        match fx_map_get(finalised, child) {
            Some(cost) => {
                costs.push(*cost);
            },
            None => {},
        }
        proof {
            let all = child_costs(g, finalised@, nid);
            assert(all.take(j + 1) =~= all.take(j as int).push(all[j as int]));
        }
        j += 1;
    }
    proof {
        let all = child_costs(g, finalised@, nid);
        assert(all.take(all.len() as int) =~= all);
    }
    rule.node_cost(&egraph.nodes[nid], costs.as_slice())
}

/// A position between two of the list is not in it.
proof fn lemma_not_listed(list: Seq<usize>, k: int, at: nat, i: usize)
    requires
        rises(list),
        0 <= k <= list.len(),
        forall|j: int| 0 <= j < k ==> (#[trigger] list[j]) < at,
        at <= i,
        k < list.len() ==> i < list[k],
    ensures
        !list.contains(i),
{
    if list.contains(i) {
        let j = choose|j: int| 0 <= j < list.len() && list[j] == i;
        if j >= k {
            assert(list[k] <= list[j]);
        }
    }
}

/// Tells the parents of a class that it is finalised; those that waited for
/// nothing else become candidates.
fn release_parents<R: CostRule>(
    egraph: &EGraph,
    rule: &R,
    nodes: &Vec<NodeId>,
    parents: &Vec<usize>,
    finalised: &FxHashMap<ClassId, Cost>,
    class: ClassId,
    pending: &mut Vec<usize>,
    heap: &mut MinHeap,
    pushes: &mut usize,
    Ghost(f0): Ghost<Map<ClassId, Cost>>,
)
    requires
        egraph.wf(),
        lists_allowed(*egraph, *rule, nodes@),
        rises(parents@),
        forall|idx: usize| #[trigger]
            parents@.contains(idx) <==> idx < nodes@.len() && egraph.depends(
                nodes@[idx as int],
                class,
            ),
        !f0.contains_key(class),
        finalised@ == f0.insert(class, finalised@[class]),
        finalised@.contains_key(class),
        old(pending)@.len() == nodes@.len(),
        forall|i: int|
            0 <= i < nodes@.len() ==> (#[trigger] old(pending)@[i]) == unfinalised(
                *egraph,
                f0,
                nodes@[i],
            ).len(),
        old(heap).wf(),
        queue_ok(*egraph, *rule, nodes@, finalised@, old(heap)@),
        forall|i: int|
            0 <= i < nodes@.len() && #[trigger] ready(*egraph, f0, nodes@[i]) ==> served(
                *egraph,
                *rule,
                nodes@,
                finalised@,
                old(heap)@,
                i,
            ),
        superior(*rule, *egraph) ==> split_at(finalised@, old(heap)@, finalised@[class]),
        *old(pushes) + waiting(old(pending)@).len() == nodes@.len(),
        waiting(old(pending)@).finite(),
    ensures
        final(pending)@.len() == nodes@.len(),
        forall|i: int|
            0 <= i < nodes@.len() ==> (#[trigger] final(pending)@[i]) == unfinalised(
                *egraph,
                finalised@,
                nodes@[i],
            ).len(),
        final(heap).wf(),
        queue_ok(*egraph, *rule, nodes@, finalised@, final(heap)@),
        forall|i: int|
            0 <= i < nodes@.len() && #[trigger] ready(*egraph, finalised@, nodes@[i]) ==> served(
                *egraph,
                *rule,
                nodes@,
                finalised@,
                final(heap)@,
                i,
            ),
        superior(*rule, *egraph) ==> split_at(finalised@, final(heap)@, finalised@[class]),
        *final(pushes) + waiting(final(pending)@).len() == nodes@.len(),
        waiting(final(pending)@).finite(),
        final(heap)@.len() + waiting(final(pending)@).len() == old(heap)@.len() + waiting(
            old(pending)@,
        ).len(),
        (final(heap)@, *final(pushes) as nat) == released(
            *egraph,
            *rule,
            nodes@,
            finalised@,
            class,
            old(heap)@,
            *old(pushes) as nat,
            nodes@.len(),
        ),
{
    broadcast use vstd::multiset::group_multiset_axioms;

    let ghost g = *egraph;
    let ghost f = finalised@;
    let ghost n0 = old(heap)@.len() + waiting(old(pending)@).len();
    let n_nodes: usize = nodes.len();
    let mut k: usize = 0;
    let ghost mut at: nat = 0;
    proof {
        assert(parents@.take(0) =~= Seq::empty());
        assert forall|i: int|
            0 <= i < nodes@.len() && #[trigger] ready(g, f, nodes@[i]) && (parents@.take(
                0,
            ).contains(i as usize) || !parents@.contains(i as usize)) implies served(
            g,
            *rule,
            nodes@,
            f,
            heap@,
            i,
        ) by {
            assert(!parents@.contains(i as usize));
            assert forall|c: ClassId| #[trigger] g.depends(
                nodes@[i],
                c,
            ) implies f0.contains_key(c) by {
                assert(f.contains_key(c));
            }
            assert(ready(g, f0, nodes@[i]));
        }
    }
    while k < parents.len()
        invariant
            egraph.wf(),
            g == *egraph,
            f == finalised@,
            lists_allowed(g, *rule, nodes@),
            rises(parents@),
            at <= nodes@.len(),
            forall|i: int| 0 <= i < k ==> (#[trigger] parents@[i]) < at,
            forall|i: int| k <= i < parents@.len() ==> at <= (#[trigger] parents@[i]),
            (heap@, *pushes as nat) == released(
                g,
                *rule,
                nodes@,
                f,
                class,
                old(heap)@,
                *old(pushes) as nat,
                at,
            ),
            forall|idx: usize| #[trigger]
                parents@.contains(idx) <==> idx < nodes@.len() && g.depends(
                    nodes@[idx as int],
                    class,
                ),
            !f0.contains_key(class),
            f == f0.insert(class, f[class]),
            f.contains_key(class),
            k <= parents@.len(),
            pending@.len() == nodes@.len() == n_nodes,
            forall|i: int|
                0 <= i < nodes@.len() ==> (#[trigger] pending@[i]) == (if parents@.take(
                    k as int,
                ).contains(i as usize) {
                    unfinalised(g, f, nodes@[i]).len()
                } else {
                    unfinalised(g, f0, nodes@[i]).len()
                }),
            heap.wf(),
            queue_ok(g, *rule, nodes@, f, heap@),
            forall|i: int|
                0 <= i < nodes@.len() && #[trigger] ready(g, f, nodes@[i]) && (parents@.take(
                    k as int,
                ).contains(i as usize) || !parents@.contains(i as usize)) ==> served(
                    g,
                    *rule,
                    nodes@,
                    f,
                    heap@,
                    i,
                ),
            superior(*rule, g) ==> split_at(f, heap@, f[class]),
            *pushes + waiting(pending@).len() == nodes@.len(),
            waiting(pending@).finite(),
            heap@.len() + waiting(pending@).len() == n0,
        decreases parents@.len() - k,
    {
        let parent: usize = parents[k];
        let ghost seen = parents@.take(k as int);
        let ghost seen1 = parents@.take(k + 1);
        let ghost pend0 = pending@;
        let ghost queue0 = heap@;
        proof {
            assert(parents@.contains(parent));
            assert(!seen.contains(parent)) by {
                if seen.contains(parent) {
                    let i = choose|i: int| 0 <= i < seen.len() && seen[i] == parent;
                    assert(parents@[i] == parents@[k as int]);
                }
            }
            let n = nodes@[parent as int];
            lemma_unfinalised_step(g, f0, n, class, f[class]);
            lemma_unfinalised_finite(g, f, n);
            assert(pending@[parent as int] == unfinalised(g, f0, n).len());
            assert(seen1 =~= seen.push(parent));
            assert(waiting(pend0).contains(parent as int));
            assert forall|i: int| at <= i < parent implies !g.depends(
                #[trigger] nodes@[i],
                class,
            ) by {
                lemma_not_listed(parents@, k as int, at, i as usize);
            }
            lemma_released_gap(
                g,
                *rule,
                nodes@,
                f,
                class,
                old(heap)@,
                *old(pushes) as nat,
                at,
                parent as nat,
            );
            assert(ready(g, f, n) <==> unfinalised(g, f, n).len() == 0);
        }
        pending[parent] = pending[parent] - 1;
        proof {
            assert forall|i: int| 0 <= i < nodes@.len() implies (#[trigger] pending@[i]) == (
            if parents@.take(k + 1).contains(i as usize) {
                unfinalised(g, f, nodes@[i]).len()
            } else {
                unfinalised(g, f0, nodes@[i]).len()
            }) by {
                assert(pend0[i] == (if seen.contains(i as usize) {
                    unfinalised(g, f, nodes@[i]).len()
                } else {
                    unfinalised(g, f0, nodes@[i]).len()
                }));
                if i == parent {
                    assert(seen1[k as int] == parent);
                } else {
                    if parents@.take(k + 1).contains(i as usize) {
                        let q = choose|q: int|
                            0 <= q < k + 1 && seen1[q] == i as usize;
                        assert(seen[q] == i as usize);
                    }
                    if seen.contains(i as usize) {
                        let q = choose|q: int| 0 <= q < k && seen[q] == i as usize;
                        assert(seen1[q] == i as usize);
                    }
                }
            }
        }
        if pending[parent] == 0 {
            let cost: Cost = settled_cost(egraph, rule, finalised, nodes[parent]);
            proof {
                assert(waiting(pending@) =~= waiting(pend0).remove(parent as int));
                if superior(*rule, g) {
                    lemma_superior_child(g, *rule, f, nodes@[parent as int], class);
                }
            }
            let ghost e: Candidate = (cost, *pushes, parent);
            heap.push((cost, *pushes, parent));
            *pushes = *pushes + 1;
            proof {
                assert(heap@ == queue0.insert(e));
                assert forall|x: Candidate| #[trigger] heap@.contains(x) <==> queue0.contains(x) || x
                    == e by {}
                assert forall|i: int|
                    0 <= i < nodes@.len() && #[trigger] ready(g, f, nodes@[i]) && (parents@.take(
                        k + 1,
                    ).contains(i as usize) || !parents@.contains(i as usize)) implies served(
                    g,
                    *rule,
                    nodes@,
                    f,
                    heap@,
                    i,
                ) by {
                    if i == parent {
                        assert(heap@.contains(e));
                    } else {
                        if parents@.take(k + 1).contains(i as usize) {
                            let q = choose|q: int|
                                0 <= q < k + 1 && seen1[q] == i as usize;
                            assert(seen[q] == i as usize);
                        }
                        assert(served(g, *rule, nodes@, f, queue0, i));
                        if queued(queue0, i) {
                            let x = choose|x: Candidate| #[trigger]
                                queue0.contains(x) && x.2 == i;
                            assert(heap@.contains(x));
                        }
                    }
                }
            }
        } else {
            proof {
                assert(waiting(pending@) =~= waiting(pend0));
                assert forall|i: int|
                    0 <= i < nodes@.len() && #[trigger] ready(g, f, nodes@[i]) && (parents@.take(
                        k + 1,
                    ).contains(i as usize) || !parents@.contains(i as usize)) implies served(
                    g,
                    *rule,
                    nodes@,
                    f,
                    heap@,
                    i,
                ) by {
                    if i != parent {
                        if parents@.take(k + 1).contains(i as usize) {
                            let q = choose|q: int|
                                0 <= q < k + 1 && seen1[q] == i as usize;
                            assert(seen[q] == i as usize);
                        }
                    }
                }
            }
        }
        proof {
            at = (parent + 1) as nat;
        }
        k += 1;
    }
    proof {
        assert forall|i: int| at <= i < nodes@.len() implies !g.depends(
            #[trigger] nodes@[i],
            class,
        ) by {
            lemma_not_listed(parents@, k as int, at, i as usize);
        }
        lemma_released_gap(
            g,
            *rule,
            nodes@,
            f,
            class,
            old(heap)@,
            *old(pushes) as nat,
            at,
            nodes@.len(),
        );
        assert(parents@.take(parents@.len() as int) =~= parents@);
        assert forall|i: int| 0 <= i < nodes@.len() implies (#[trigger] pending@[i])
            == unfinalised(g, f, nodes@[i]).len() by {
            lemma_unfinalised_step(g, f0, nodes@[i], class, f[class]);
        }
    }
}

/// Counts for each node the child classes it waits for, lists for each class
/// the nodes that wait for it, and queues the nodes that wait for nothing.
fn survey<R: CostRule>(egraph: &EGraph, rule: &R, nodes: &Vec<NodeId>) -> (r: (
    Vec<usize>,
    Vec<Vec<usize>>,
    MinHeap,
    usize,
))
    requires
        egraph.wf(),
        lists_allowed(*egraph, *rule, nodes@),
    ensures
        r.0@.len() == nodes@.len(),
        forall|i: int|
            0 <= i < nodes@.len() ==> (#[trigger] r.0@[i]) == unfinalised(
                *egraph,
                Map::empty(),
                nodes@[i],
            ).len(),
        lists_parents(*egraph, nodes@, r.1@, nodes@.len() as int),
        r.2.wf(),
        queue_ok(*egraph, *rule, nodes@, Map::empty(), r.2@),
        forall|i: int|
            0 <= i < nodes@.len() && #[trigger] ready(*egraph, Map::empty(), nodes@[i]) ==> queued(
                r.2@,
                i,
            ),
        r.3 + waiting(r.0@).len() == nodes@.len(),
        waiting(r.0@).finite(),
        (r.2@, r.3 as nat) == leaves(*egraph, *rule, nodes@, nodes@.len()),
{
    broadcast use vstd::multiset::group_multiset_axioms;

    let ghost g = *egraph;
    let ghost none = Map::<ClassId, Cost>::empty();
    let mut pending: Vec<usize> = Vec::new();
    let mut parents: Vec<Vec<usize>> = Vec::new();
    let mut heap: MinHeap = MinHeap::new();
    let mut pushes: usize = 0;
    let n_classes: usize = egraph.classes.len();
    let mut c: usize = 0;
    while c < n_classes
        invariant
            g == *egraph,
            c <= g.classes@.len() == n_classes,
            parents@.len() == c,
            forall|b: int| 0 <= b < c ==> (#[trigger] parents@[b])@.len() == 0,
        decreases g.classes@.len() - c,
    {
        parents.push(Vec::new());
        c += 1;
    }
    let mut idx: usize = 0;
    proof {
        assert(waiting(pending@) =~= Set::empty());
        assert forall|e: Candidate| !#[trigger] heap@.contains(e) by {}
    }
    while idx < nodes.len()
        invariant
            egraph.wf(),
            g == *egraph,
            none == Map::<ClassId, Cost>::empty(),
            lists_allowed(g, *rule, nodes@),
            idx <= nodes@.len(),
            pending@.len() == idx,
            forall|i: int|
                0 <= i < idx ==> (#[trigger] pending@[i]) == unfinalised(g, none, nodes@[i]).len(),
            lists_parents(g, nodes@, parents@, idx as int),
            parents@.len() == n_classes,
            heap.wf(),
            queue_ok(g, *rule, nodes@, none, heap@),
            forall|i: int|
                0 <= i < idx && #[trigger] ready(g, none, nodes@[i]) ==> queued(heap@, i),
            pushes + waiting(pending@).len() == idx,
            waiting(pending@).finite(),
            (heap@, pushes as nat) == leaves(g, *rule, nodes@, idx as nat),
        decreases nodes@.len() - idx,
    {
        let nid: NodeId = nodes[idx];
        let children: Vec<ClassId> = distinct_child_classes(egraph, nid);
        let ghost start = parents@;
        let mut j: usize = 0;
        while j < children.len()
            invariant
                egraph.wf(),
                g == *egraph,
                idx < nodes@.len(),
                nid == nodes@[idx as int],
                nid < g.nodes@.len(),
                children@.no_duplicates(),
                forall|c: ClassId| #[trigger] children@.contains(c) <==> g.depends(nid, c),
                lists_parents(g, nodes@, start, idx as int),
                j <= children@.len(),
                parents@.len() == start.len() == n_classes,
                forall|c: int|
                    0 <= c < start.len() ==> (#[trigger] parents@[c])@ == (if children@.take(
                        j as int,
                    ).contains(c as ClassId) {
                        start[c]@.push(idx)
                    } else {
                        start[c]@
                    }),
            decreases children@.len() - j,
        {
            let cid: ClassId = children[j];
            let ghost before = parents@;
            let ghost seen = children@.take(j as int);
            let ghost seen1 = children@.take(j + 1);
            proof {
                assert(children@.contains(cid));
                g.lemma_depends(nid, cid);
                assert(!seen.contains(cid)) by {
                    if seen.contains(cid) {
                        let i = choose|i: int| 0 <= i < seen.len() && seen[i] == cid;
                        assert(children@[i] == children@[j as int]);
                    }
                }
                assert(seen1 =~= seen.push(cid));
                assert(before[cid as int]@ == start[cid as int]@);
            }
            parents[cid].push(idx);
            proof {
                assert forall|c: int| 0 <= c < start.len() implies (#[trigger] parents@[c])@ == (
                if seen1.contains(c as ClassId) {
                    start[c]@.push(idx)
                } else {
                    start[c]@
                }) by {
                    assert(before[c]@ == (if seen.contains(c as ClassId) {
                        start[c]@.push(idx)
                    } else {
                        start[c]@
                    }));
                    if c == cid {
                        assert(seen1[j as int] == cid);
                    } else {
                        if seen1.contains(c as ClassId) {
                            let q = choose|q: int|
                                0 <= q < seen1.len() && seen1[q] == c as ClassId;
                            assert(seen[q] == c as ClassId);
                        }
                        if seen.contains(c as ClassId) {
                            let q = choose|q: int| 0 <= q < seen.len() && seen[q] == c as ClassId;
                            assert(seen1[q] == c as ClassId);
                        }
                    }
                }
            }
            j += 1;
        }
        proof {
            assert(children@.take(children@.len() as int) =~= children@);
            lemma_parents_grow(g, nodes@, start, parents@, children@, idx);
            assert(unfinalised(g, none, nid) =~= children@.to_set());
            children@.unique_seq_to_set();
            lemma_unfinalised_finite(g, none, nid);
        }
        let ghost pend0 = pending@;
        let ghost queue0 = heap@;
        pending.push(children.len());
        proof {
            assert forall|i: int| 0 <= i < idx + 1 implies (#[trigger] pending@[i]) == unfinalised(
                g,
                none,
                nodes@[i],
            ).len() by {
                if i < idx {
                    assert(pending@[i] == pend0[i]);
                }
            }
        }
        assert(ready(g, none, nid) <==> children@.len() == 0) by {
            if children@.len() > 0 {
                assert(children@.contains(children@[0]));
                assert(g.depends(nid, children@[0]));
            } else {
                assert forall|c: ClassId| !#[trigger] g.depends(nid, c) by {
                    assert(!children@.contains(c));
                }
            }
        }
        if children.len() == 0 {
            let empty: Vec<Cost> = Vec::new();
            let cost: Cost = rule.node_cost(&egraph.nodes[nid], empty.as_slice());
            proof {
                assert(waiting(pending@) =~= waiting(pend0));
                assert(g.nodes@[nid as int].children@.len() == 0) by {
                    if g.nodes@[nid as int].children@.len() > 0 {
                        g.lemma_child_class(nid, 0);
                        assert(children@.contains(g.child_class(nid, 0)));
                    }
                }
                assert(child_costs(g, none, nid) =~= empty@);
            }
            let ghost e: Candidate = (cost, pushes, idx);
            heap.push((cost, pushes, idx));
            pushes += 1;
            proof {
                assert(heap@ == queue0.insert(e));
                assert forall|x: Candidate| #[trigger] heap@.contains(x) <==> queue0.contains(x) || x
                    == e by {}
                assert forall|i: int|
                    0 <= i < idx + 1 && #[trigger] ready(g, none, nodes@[i]) implies queued(
                    heap@,
                    i,
                ) by {
                    if i == idx {
                        assert(heap@.contains(e));
                    } else {
                        let x = choose|x: Candidate| #[trigger] queue0.contains(x) && x.2 == i;
                        assert(heap@.contains(x));
                    }
                }
            }
        } else {
            proof {
                assert(waiting(pending@) =~= waiting(pend0).insert(idx as int));
                assert(!waiting(pend0).contains(idx as int));
            }
        }
        idx += 1;
    }
    (pending, parents, heap, pushes)
}

proof fn lemma_parents_grow(
    g: EGraph,
    nodes: Seq<NodeId>,
    start: Seq<Vec<usize>>,
    parents: Seq<Vec<usize>>,
    children: Seq<ClassId>,
    idx: usize,
)
    requires
        lists_parents(g, nodes, start, idx as int),
        parents.len() == start.len(),
        forall|c: ClassId| #[trigger]
            children.contains(c) <==> g.depends(nodes[idx as int], c),
        forall|c: int|
            0 <= c < start.len() ==> (#[trigger] parents[c])@ == (if children.contains(
                c as ClassId,
            ) {
                start[c]@.push(idx)
            } else {
                start[c]@
            }),
    ensures
        lists_parents(g, nodes, parents, idx + 1),
{
    assert forall|c: int| 0 <= c < parents.len() implies {
        &&& rises((#[trigger] parents[c])@)
        &&& forall|i: usize| #[trigger]
            parents[c]@.contains(i) <==> i < idx + 1 && g.depends(nodes[i as int], c as ClassId)
    } by {
        let old_list = start[c]@;
        let new_list = parents[c]@;
        assert(rises(old_list));
        assert(!old_list.contains(idx));
        assert(rises(new_list)) by {
            assert forall|i: int, j: int| 0 <= i < j < new_list.len() implies new_list[i]
                < new_list[j] by {
                assert(new_list[i] == old_list[i]);
                if j < old_list.len() {
                    assert(new_list[j] == old_list[j]);
                } else {
                    assert(old_list.contains(old_list[i]));
                }
            }
        }
        if children.contains(c as ClassId) {
            assert(new_list[old_list.len() as int] == idx);
        }
        assert forall|i: usize| #[trigger] new_list.contains(i) <==> i < idx + 1 && g.depends(
            nodes[i as int],
            c as ClassId,
        ) by {
            assert(old_list.contains(i) <==> i < idx && g.depends(nodes[i as int], c as ClassId));
            if old_list.contains(i) {
                let k = choose|k: int| 0 <= k < old_list.len() && old_list[k] == i;
                assert(new_list[k] == i);
            }
            if new_list.contains(i) {
                let k = choose|k: int| 0 <= k < new_list.len() && new_list[k] == i;
                if k < old_list.len() {
                    assert(old_list[k] == i);
                }
            }
        }
    }
}

// ---------------------------------------------------------------------------
// Ties
// ---------------------------------------------------------------------------

/// The allowed ones of the first `k` members of class `c`.
pub open spec fn allowed_in<R: CostRule>(g: EGraph, rule: R, c: int, k: nat) -> Seq<NodeId>
    decreases k,
{
    if k == 0 {
        Seq::empty()
    } else {
        let n = g.classes@[c].nodes@[k - 1];
        if rule.allowed(g.nodes@[n as int]) {
            allowed_in(g, rule, c, (k - 1) as nat).push(n)
        } else {
            allowed_in(g, rule, c, (k - 1) as nat)
        }
    }
}

/// The allowed nodes of the first `c` classes, in the order of the classes and of
/// their members.
pub open spec fn allowed_to<R: CostRule>(g: EGraph, rule: R, c: nat) -> Seq<NodeId>
    decreases c,
{
    if c == 0 {
        Seq::empty()
    } else {
        allowed_to(g, rule, (c - 1) as nat) + allowed_in(
            g,
            rule,
            c - 1,
            g.classes@[c - 1].nodes@.len(),
        )
    }
}

/// The candidates that need no child, numbered in the order of the first `k` nodes,
/// and how many there are.
pub open spec fn leaves<R: CostRule>(g: EGraph, rule: R, nodes: Seq<NodeId>, k: nat) -> (
    Multiset<Candidate>,
    nat,
)
    decreases k,
{
    if k == 0 {
        (Multiset::empty(), 0)
    } else {
        let (queue, pushes) = leaves(g, rule, nodes, (k - 1) as nat);
        let none = Map::<ClassId, Cost>::empty();
        let n = nodes[k - 1];
        if ready(g, none, n) {
            (
                queue.insert((cost_of(g, rule, none, n), pushes as usize, (k - 1) as usize)),
                pushes + 1,
            )
        } else {
            (queue, pushes)
        }
    }
}

/// The queue with those of the first `k` nodes that waited for `class` alone, and
/// the number of candidates so far.
pub open spec fn released<R: CostRule>(
    g: EGraph,
    rule: R,
    nodes: Seq<NodeId>,
    f: Map<ClassId, Cost>,
    class: ClassId,
    queue: Multiset<Candidate>,
    pushes: nat,
    k: nat,
) -> (Multiset<Candidate>, nat)
    decreases k,
{
    if k == 0 {
        (queue, pushes)
    } else {
        let before = released(g, rule, nodes, f, class, queue, pushes, (k - 1) as nat);
        let n = nodes[k - 1];
        if g.depends(n, class) && ready(g, f, n) {
            (
                before.0.insert((cost_of(g, rule, f, n), before.1 as usize, (k - 1) as usize)),
                before.1 + 1,
            )
        } else {
            before
        }
    }
}

/// The candidate that no other in the queue goes before: the cheapest, of those the
/// one that was queued first.
pub open spec fn first_in(queue: Multiset<Candidate>) -> Candidate {
    choose|e: Candidate| #[trigger] queue.contains(e) && is_first(queue, e)
}

pub open spec fn is_first(queue: Multiset<Candidate>, e: Candidate) -> bool {
    forall|x: Candidate| #[trigger] queue.contains(x) ==> !before(x, e)
}

/// What is chosen, and for which class in turn, if the first candidate is taken from
/// the queue, no more than `steps` times: it is chosen unless its class has a choice,
/// and then the nodes that waited for the class alone are queued.
pub open spec fn drained<R: CostRule>(
    g: EGraph,
    rule: R,
    nodes: Seq<NodeId>,
    f: Map<ClassId, Cost>,
    sel: Map<ClassId, NodeId>,
    order: Seq<ClassId>,
    queue: Multiset<Candidate>,
    pushes: nat,
    steps: nat,
) -> (Map<ClassId, NodeId>, Seq<ClassId>)
    decreases steps,
{
    if steps == 0 || queue.len() == 0 {
        (sel, order)
    } else {
        let e = first_in(queue);
        let n = nodes[e.2 as int];
        let class = g.nodes@[n as int].eclass;
        let rest = queue.remove(e);
        if f.contains_key(class) {
            drained(g, rule, nodes, f, sel, order, rest, pushes, (steps - 1) as nat)
        } else {
            let f1 = f.insert(class, e.0);
            let next = released(g, rule, nodes, f1, class, rest, pushes, nodes.len());
            drained(
                g,
                rule,
                nodes,
                f1,
                sel.insert(class, n),
                order.push(class),
                next.0,
                next.1,
                (steps - 1) as nat,
            )
        }
    }
}

/// What is chosen for the classes, and the order of them. Of candidates that cost
/// the same, the one that was queued first is taken.
pub open spec fn greedy_choices<R: CostRule>(g: EGraph, rule: R) -> (
    Map<ClassId, NodeId>,
    Seq<ClassId>,
) {
    let nodes = allowed_to(g, rule, g.classes@.len());
    let start = leaves(g, rule, nodes, nodes.len());
    drained(
        g,
        rule,
        nodes,
        Map::empty(),
        Map::empty(),
        Seq::empty(),
        start.0,
        start.1,
        start.0.len() + nodes.len(),
    )
}

/// There is one first candidate.
proof fn lemma_first(queue: Multiset<Candidate>, e: Candidate)
    requires
        queue.contains(e),
        is_first(queue, e),
    ensures
        first_in(queue) == e,
{
    let x = first_in(queue);
    assert(queue.contains(x) && is_first(queue, x));
    assert(!before(x, e) && !before(e, x));
}

/// Nodes that did not wait for the class are not queued.
proof fn lemma_released_gap<R: CostRule>(
    g: EGraph,
    rule: R,
    nodes: Seq<NodeId>,
    f: Map<ClassId, Cost>,
    class: ClassId,
    queue: Multiset<Candidate>,
    pushes: nat,
    from: nat,
    to: nat,
)
    requires
        from <= to,
        forall|i: int| from <= i < to ==> !g.depends(#[trigger] nodes[i], class),
    ensures
        released(g, rule, nodes, f, class, queue, pushes, to) == released(
            g,
            rule,
            nodes,
            f,
            class,
            queue,
            pushes,
            from,
        ),
    decreases to,
{
    if from < to {
        assert(!g.depends(nodes[to - 1], class));
        lemma_released_gap(g, rule, nodes, f, class, queue, pushes, from, (to - 1) as nat);
    }
}

/// What the main loop keeps.
pub open spec fn frontier<R: CostRule>(
    g: EGraph,
    rule: R,
    nodes: Seq<NodeId>,
    sel: Map<ClassId, NodeId>,
    f: Map<ClassId, Cost>,
    rank: Map<ClassId, nat>,
    clock: nat,
    queue: Multiset<Candidate>,
    cur: Cost,
) -> bool {
    &&& sel.dom() == f.dom()
    &&& forall|c: ClassId| #[trigger]
        f.contains_key(c) ==> well_chosen(g, rule, sel, f, rank, c) && rank[c] < clock
    &&& queue_ok(g, rule, nodes, f, queue)
    &&& forall|i: int|
        0 <= i < nodes.len() && #[trigger] ready(g, f, nodes[i]) ==> served(
            g,
            rule,
            nodes,
            f,
            queue,
            i,
        )
    &&& superior(rule, g) ==> split_at(f, queue, cur)
}

/// Taking a candidate of a class that is already finalised out of the queue.
proof fn lemma_skip<R: CostRule>(
    g: EGraph,
    rule: R,
    nodes: Seq<NodeId>,
    sel: Map<ClassId, NodeId>,
    f: Map<ClassId, Cost>,
    rank: Map<ClassId, nat>,
    clock: nat,
    queue: Multiset<Candidate>,
    cur: Cost,
    e: Candidate,
)
    requires
        frontier(g, rule, nodes, sel, f, rank, clock, queue, cur),
        queue.contains(e),
        f.contains_key(g.nodes@[nodes[e.2 as int] as int].eclass),
    ensures
        frontier(g, rule, nodes, sel, f, rank, clock, queue.remove(e), cur),
{
    broadcast use vstd::multiset::group_multiset_axioms;

    let queue1 = queue.remove(e);
    assert forall|x: Candidate| #[trigger] queue1.contains(x) implies queue.contains(x) by {}
    assert forall|i: int| 0 <= i < nodes.len() && #[trigger] ready(g, f, nodes[i]) implies served(
        g,
        rule,
        nodes,
        f,
        queue1,
        i,
    ) by {
        if queued(queue, i) && !queued(queue1, i) {
            let x = choose|x: Candidate| #[trigger] queue.contains(x) && x.2 == i;
            assert(x == e) by {
                if x != e {
                    assert(queue1.contains(x));
                }
            }
        }
    }
}

/// Finalising the class of the first candidate.
proof fn lemma_finalise<R: CostRule>(
    g: EGraph,
    rule: R,
    nodes: Seq<NodeId>,
    sel: Map<ClassId, NodeId>,
    f: Map<ClassId, Cost>,
    rank: Map<ClassId, nat>,
    clock: nat,
    queue: Multiset<Candidate>,
    cur: Cost,
    e: Candidate,
)
    requires
        lists_allowed(g, rule, nodes),
        frontier(g, rule, nodes, sel, f, rank, clock, queue, cur),
        queue.contains(e),
        forall|x: Candidate| #[trigger] queue.contains(x) ==> !before(x, e),
        !f.contains_key(g.nodes@[nodes[e.2 as int] as int].eclass),
    ensures
        ({
            let n = nodes[e.2 as int];
            let class = g.nodes@[n as int].eclass;
            let f1 = f.insert(class, e.0);
            let rank1 = rank.insert(class, clock);
            let sel1 = sel.insert(class, n);
            let queue1 = queue.remove(e);
            &&& sel1.dom() == f1.dom()
            &&& forall|c: ClassId| #[trigger]
                f1.contains_key(c) ==> well_chosen(g, rule, sel1, f1, rank1, c) && rank1[c] < clock
                    + 1
            &&& queue_ok(g, rule, nodes, f1, queue1)
            &&& forall|i: int|
                0 <= i < nodes.len() && #[trigger] ready(g, f, nodes[i]) ==> served(
                    g,
                    rule,
                    nodes,
                    f1,
                    queue1,
                    i,
                )
            &&& superior(rule, g) ==> split_at(f1, queue1, e.0)
        }),
{
    broadcast use vstd::multiset::group_multiset_axioms;

    let n = nodes[e.2 as int];
    let class = g.nodes@[n as int].eclass;
    let f1 = f.insert(class, e.0);
    let rank1 = rank.insert(class, clock);
    let sel1 = sel.insert(class, n);
    let queue1 = queue.remove(e);
    assert(sel1.dom() =~= f1.dom());
    assert forall|x: Candidate| #[trigger] queue1.contains(x) implies queue.contains(x) by {}
    lemma_cost_of_kept(g, rule, f, n, class, e.0);
    assert forall|c: ClassId| #[trigger] f1.contains_key(c) implies well_chosen(
        g,
        rule,
        sel1,
        f1,
        rank1,
        c,
    ) && rank1[c] < clock + 1 by {
        if c == class {
            assert forall|b: ClassId| #[trigger] g.depends(n, b) implies f1.contains_key(b)
                && rank1[b] < clock by {
                assert(f.contains_key(b));
                assert(well_chosen(g, rule, sel, f, rank, b) && rank[b] < clock);
            }
        } else {
            assert(f.contains_key(c));
            assert(well_chosen(g, rule, sel, f, rank, c));
            assert(ready(g, f, sel[c]));
            lemma_cost_of_kept(g, rule, f, sel[c], class, e.0);
        }
    }
    assert forall|x: Candidate| #[trigger] queue1.contains(x) implies x.2 < nodes.len() && ready(
        g,
        f1,
        nodes[x.2 as int],
    ) && x.0 == cost_of(g, rule, f1, nodes[x.2 as int]) by {
        assert(queue.contains(x));
        lemma_cost_of_kept(g, rule, f, nodes[x.2 as int], class, e.0);
    }
    assert forall|i: int| 0 <= i < nodes.len() && #[trigger] ready(g, f, nodes[i]) implies served(
        g,
        rule,
        nodes,
        f1,
        queue1,
        i,
    ) by {
        assert(served(g, rule, nodes, f, queue, i));
        lemma_cost_of_kept(g, rule, f, nodes[i], class, e.0);
        if queued(queue, i) && !queued(queue1, i) {
            let x = choose|x: Candidate| #[trigger] queue.contains(x) && x.2 == i;
            assert(x == e) by {
                if x != e {
                    assert(queue1.contains(x));
                }
            }
        }
    }
}

/// Chooses one node per class, over the allowed nodes, minimising its cost.
/// Classes with no acyclic choice get no entry.
pub fn extract_superior<R: CostRule>(egraph: &EGraph, rule: &R) -> (r: ExtractionResult)
    requires
        egraph.wf(),
    ensures
        exists|f: Map<ClassId, Cost>, rank: Map<ClassId, nat>| #[trigger]
            is_fixpoint(*egraph, *rule, r@, f, rank),
        (r@, r.order()) == greedy_choices(*egraph, *rule),
{
    broadcast use vstd::multiset::group_multiset_axioms;

    let ghost g = *egraph;
    let nodes: Vec<NodeId> = allowed_nodes(egraph, rule);
    let (mut pending, parents, mut heap, mut pushes) = survey(egraph, rule, &nodes);
    let mut finalised: FxHashMap<ClassId, Cost> = FxHashMap::default();
    let mut result: ExtractionResult = ExtractionResult::default();
    let ghost mut rank: Map<ClassId, nat> = Map::empty();
    let ghost mut clock: nat = 0;
    let ghost mut cur: Cost = NEG_INFINITY;
    let ghost mut steps: nat = heap@.len() + nodes@.len();
    proof {
        assert(result@ =~= Map::empty());
        assert(finalised@ =~= Map::empty());
        assert(result@.dom() =~= finalised@.dom());
    }
    loop
        invariant
            egraph.wf(),
            g == *egraph,
            lists_allowed(g, *rule, nodes@),
            lists_parents(g, nodes@, parents@, nodes@.len() as int),
            pending@.len() == nodes@.len(),
            forall|i: int|
                0 <= i < nodes@.len() ==> (#[trigger] pending@[i]) == unfinalised(
                    g,
                    finalised@,
                    nodes@[i],
                ).len(),
            heap.wf(),
            frontier(g, *rule, nodes@, result@, finalised@, rank, clock, heap@, cur),
            pushes + waiting(pending@).len() == nodes@.len(),
            waiting(pending@).finite(),
            heap@.len() + waiting(pending@).len() <= steps,
            drained(
                g,
                *rule,
                nodes@,
                finalised@,
                result@,
                result.order(),
                heap@,
                pushes as nat,
                steps,
            ) == greedy_choices(g, *rule),
        ensures
            frontier(g, *rule, nodes@, result@, finalised@, rank, clock, heap@, cur),
            heap@.len() == 0,
            (result@, result.order()) == greedy_choices(g, *rule),
        decreases heap@.len() + waiting(pending@).len(),
    {
        let ghost queue0 = heap@;
        let ghost f0 = finalised@;
        let (cost, order, idx): Candidate = match heap.pop() {
            Some(e) => e,
            None => {
                break;
            },
        };
        let ghost e: Candidate = (cost, order, idx);
        proof {
            assert(queue0.contains(e));
            assert(is_first(queue0, e));
            lemma_first(queue0, e);
            steps = (steps - 1) as nat;
        }
        let nid: NodeId = nodes[idx];
        let cid: ClassId = egraph.nid_to_cid(nid);
        if fx_map_get(&finalised, cid).is_some() {
            proof {
                lemma_skip(g, *rule, nodes@, result@, f0, rank, clock, queue0, cur, e);
            }
            continue;
        }
        proof {
            lemma_finalise(g, *rule, nodes@, result@, f0, rank, clock, queue0, cur, e);
            rank = rank.insert(cid, clock);
            clock = clock + 1;
            cur = cost;
            assert(g.nodes@[nid as int].eclass < g.classes@.len());
        }
        fx_map_insert(&mut finalised, cid, cost);
        result.select(cid, nid);
        release_parents(
            egraph,
            rule,
            &nodes,
            &parents[cid],
            &finalised,
            cid,
            &mut pending,
            &mut heap,
            &mut pushes,
            Ghost(f0),
        );
    }
    proof {
        let f = finalised@;
        assert forall|x: Candidate| !#[trigger] heap@.contains(x) by {
            assert(heap@ =~= Multiset::empty());
        }
        assert forall|n: NodeId|
            n < g.nodes@.len() && rule.allowed(g.nodes@[n as int]) && #[trigger] ready(
                g,
                f,
                n,
            ) implies f.contains_key(g.nodes@[n as int].eclass) && (superior(*rule, g)
            ==> f[g.nodes@[n as int].eclass] <= cost_of(g, *rule, f, n)) by {
            assert(nodes@.contains(n));
            let i = choose|i: int| 0 <= i < nodes@.len() && nodes@[i] == n;
            assert(served(g, *rule, nodes@, f, heap@, i));
        }
        assert(is_fixpoint(g, *rule, result@, f, rank));
    }
    result
}

/// Every class below the roots has an allowed node chosen.
pub open spec fn allowed_below<R: CostRule>(
    g: EGraph,
    rule: R,
    sel: Map<ClassId, NodeId>,
    roots: Seq<ClassId>,
) -> bool {
    forall|c: ClassId| #[trigger]
        reaches(g, sel, roots, c) ==> rule.allowed(g.nodes@[sel[c] as int])
}

/// `costs` gives every class below the roots the cost of its chosen node.
pub open spec fn is_costing<R: CostRule>(
    g: EGraph,
    rule: R,
    sel: Map<ClassId, NodeId>,
    roots: Seq<ClassId>,
    costs: Map<ClassId, Cost>,
) -> bool {
    forall|c: ClassId| #[trigger]
        reaches(g, sel, roots, c) ==> costs[c] == cost_of(g, rule, costs, sel[c])
}

/// The roots have a complete acyclic extraction out of allowed nodes.
pub open spec fn extractable<R: CostRule>(g: EGraph, rule: R, roots: Seq<ClassId>) -> bool {
    exists|sel: Map<ClassId, NodeId>| #[trigger]
        valid(g, sel, roots) && allowed_below(g, rule, sel, roots)
}

/// A class below the roots of any valid selection of allowed nodes is in the
/// fixpoint.
pub proof fn fixpoint_covers<R: CostRule>(
    g: EGraph,
    rule: R,
    sel: Map<ClassId, NodeId>,
    f: Map<ClassId, Cost>,
    rank: Map<ClassId, nat>,
    other: Map<ClassId, NodeId>,
    roots: Seq<ClassId>,
    c: ClassId,
)
    requires
        is_fixpoint(g, rule, sel, f, rank),
        valid(g, other, roots),
        allowed_below(g, rule, other, roots),
        reaches(g, other, roots, c),
    ensures
        f.contains_key(c),
{
    let depth = choose|r: Map<ClassId, nat>| ranked(g, other, roots, r);
    lemma_fixpoint_covers(g, rule, sel, f, rank, other, roots, depth, c);
}

proof fn lemma_fixpoint_covers<R: CostRule>(
    g: EGraph,
    rule: R,
    sel: Map<ClassId, NodeId>,
    f: Map<ClassId, Cost>,
    rank: Map<ClassId, nat>,
    other: Map<ClassId, NodeId>,
    roots: Seq<ClassId>,
    depth: Map<ClassId, nat>,
    c: ClassId,
)
    requires
        is_fixpoint(g, rule, sel, f, rank),
        placed(g, other, roots),
        covers(g, other, roots),
        ranked(g, other, roots, depth),
        allowed_below(g, rule, other, roots),
        reaches(g, other, roots, c),
    ensures
        f.contains_key(c),
        ready(g, f, other[c]),
    decreases depth[c],
{
    let n = other[c];
    assert(other.contains_key(c));
    assert forall|b: ClassId| #[trigger] g.depends(n, b) implies f.contains_key(b) by {
        assert(edge(g, other, c, b));
        selection::lemma_reaches_step(g, other, roots, c, b);
        lemma_fixpoint_covers(g, rule, sel, f, rank, other, roots, depth, b);
    }
    assert(ready(g, f, n));
}

/// For a superior and monotone rule the fixpoint is optimal: no class below
/// the roots of a valid selection of allowed nodes costs less there.
pub proof fn fixpoint_is_optimal<R: CostRule>(
    g: EGraph,
    rule: R,
    sel: Map<ClassId, NodeId>,
    f: Map<ClassId, Cost>,
    rank: Map<ClassId, nat>,
    other: Map<ClassId, NodeId>,
    roots: Seq<ClassId>,
    costs: Map<ClassId, Cost>,
    c: ClassId,
)
    requires
        superior(rule, g),
        monotone(rule, g),
        is_fixpoint(g, rule, sel, f, rank),
        valid(g, other, roots),
        allowed_below(g, rule, other, roots),
        is_costing(g, rule, other, roots, costs),
        reaches(g, other, roots, c),
    ensures
        f.contains_key(c),
        f[c] <= costs[c],
{
    let depth = choose|r: Map<ClassId, nat>| ranked(g, other, roots, r);
    lemma_fixpoint_optimal(g, rule, sel, f, rank, other, roots, depth, costs, c);
}

proof fn lemma_fixpoint_optimal<R: CostRule>(
    g: EGraph,
    rule: R,
    sel: Map<ClassId, NodeId>,
    f: Map<ClassId, Cost>,
    rank: Map<ClassId, nat>,
    other: Map<ClassId, NodeId>,
    roots: Seq<ClassId>,
    depth: Map<ClassId, nat>,
    costs: Map<ClassId, Cost>,
    c: ClassId,
)
    requires
        superior(rule, g),
        monotone(rule, g),
        is_fixpoint(g, rule, sel, f, rank),
        placed(g, other, roots),
        covers(g, other, roots),
        ranked(g, other, roots, depth),
        allowed_below(g, rule, other, roots),
        is_costing(g, rule, other, roots, costs),
        reaches(g, other, roots, c),
    ensures
        f.contains_key(c),
        f[c] <= costs[c],
    decreases depth[c],
{
    lemma_fixpoint_covers(g, rule, sel, f, rank, other, roots, depth, c);
    let n = other[c];
    let low = child_costs(g, f, n);
    let high = child_costs(g, costs, n);
    assert forall|j: int| 0 <= j < low.len() implies low[j] <= high[j] by {
        let b = g.child_class(n, j);
        assert(g.depends(n, b));
        assert(edge(g, other, c, b));
        selection::lemma_reaches_step(g, other, roots, c, b);
        lemma_fixpoint_optimal(g, rule, sel, f, rank, other, roots, depth, costs, b);
    }
    assert(rule.price(g.nodes@[n as int], low) <= rule.price(g.nodes@[n as int], high));
}

/// A fixpoint that holds the roots is a valid extraction of them, out of
/// allowed nodes, and `f` is its costing.
pub proof fn fixpoint_is_valid<R: CostRule>(
    g: EGraph,
    rule: R,
    sel: Map<ClassId, NodeId>,
    f: Map<ClassId, Cost>,
    rank: Map<ClassId, nat>,
    roots: Seq<ClassId>,
)
    requires
        is_fixpoint(g, rule, sel, f, rank),
        forall|i: int| 0 <= i < roots.len() ==> f.contains_key(#[trigger] roots[i]),
    ensures
        valid(g, sel, roots),
        allowed_below(g, rule, sel, roots),
        is_costing(g, rule, sel, roots, f),
{
    assert forall|c: ClassId| #[trigger] reaches(g, sel, roots, c) implies f.contains_key(c) by {
        assert forall|r: ClassId| #[trigger] roots.contains(r) implies f.dom().contains(r) by {
            let i = choose|i: int| 0 <= i < roots.len() && roots[i] == r;
            assert(f.contains_key(roots[i]));
        }
        assert forall|a: ClassId, b: ClassId|
            f.dom().contains(a) && #[trigger] edge(g, sel, a, b) implies f.dom().contains(b) by {
            assert(f.contains_key(a));
            assert(well_chosen(g, rule, sel, f, rank, a));
        }
        selection::lemma_reaches_closed(g, sel, roots, f.dom(), c);
    }
    assert forall|c: ClassId| #[trigger] sel.contains_key(c) implies sel[c] < g.nodes@.len()
        && g.nodes@[sel[c] as int].eclass == c by {
        assert(sel.dom().contains(c));
        assert(f.contains_key(c));
    }
    assert forall|c: ClassId| #[trigger] reaches(g, sel, roots, c) implies sel.contains_key(c) by {
        assert(f.dom().contains(c));
    }
    assert forall|a: ClassId, b: ClassId|
        reaches(g, sel, roots, a) && #[trigger] edge(g, sel, a, b) implies Seq::<
        ClassId,
    >::empty().contains(b) || rank[b] < rank[a] by {
        assert(well_chosen(g, rule, sel, f, rank, a));
    }
    assert(ranked(g, sel, roots, rank));
}

/// A fixpoint chooses for exactly the classes that have an extraction, and is
/// an extraction of any roots that have one.
pub proof fn fixpoint_is_complete<R: CostRule>(
    g: EGraph,
    rule: R,
    sel: Map<ClassId, NodeId>,
    f: Map<ClassId, Cost>,
    rank: Map<ClassId, nat>,
    roots: Seq<ClassId>,
)
    requires
        is_fixpoint(g, rule, sel, f, rank),
    ensures
        forall|c: ClassId| #[trigger]
            sel.contains_key(c) <==> extractable(g, rule, seq![c]),
        extractable(g, rule, roots) <==> valid(g, sel, roots),
        nodes_known(g, sel),
{
    assert forall|c: ClassId| #[trigger] sel.contains_key(c) <==> extractable(
        g,
        rule,
        seq![c],
    ) by {
        let one = seq![c];
        if sel.contains_key(c) {
            assert(sel.dom().contains(c));
            assert(f.dom().contains(c));
            fixpoint_is_valid(g, rule, sel, f, rank, one);
        }
        if extractable(g, rule, one) {
            let other = choose|other: Map<ClassId, NodeId>| #[trigger]
                valid(g, other, one) && allowed_below(g, rule, other, one);
            assert(one[0] == c);
            assert(one.contains(c));
            selection::lemma_reaches_root(g, other, one, c);
            fixpoint_covers(g, rule, sel, f, rank, other, one, c);
            assert(f.dom().contains(c));
            assert(sel.dom().contains(c));
        }
    }
    assert forall|c: ClassId| #[trigger] sel.contains_key(c) implies sel[c] < g.nodes@.len() by {
        assert(sel.dom().contains(c));
        assert(f.contains_key(c));
    }
    if extractable(g, rule, roots) {
        let other = choose|other: Map<ClassId, NodeId>| #[trigger]
            valid(g, other, roots) && allowed_below(g, rule, other, roots);
        assert forall|i: int| 0 <= i < roots.len() implies f.contains_key(
            #[trigger] roots[i],
        ) by {
            assert(roots.contains(roots[i]));
            selection::lemma_reaches_root(g, other, roots, roots[i]);
            fixpoint_covers(g, rule, sel, f, rank, other, roots, roots[i]);
        }
        fixpoint_is_valid(g, rule, sel, f, rank, roots);
    }
    if valid(g, sel, roots) {
        assert forall|i: int| 0 <= i < roots.len() implies f.contains_key(
            #[trigger] roots[i],
        ) by {
            assert(roots.contains(roots[i]));
            selection::lemma_reaches_root(g, sel, roots, roots[i]);
            assert(sel.dom().contains(roots[i]));
        }
        fixpoint_is_valid(g, rule, sel, f, rank, roots);
    }
}

} // verus!
