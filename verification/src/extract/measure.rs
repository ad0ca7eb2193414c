//! What an extraction weighs: its size, its tree size and its depth.
use crate::collections::{num_map, num_map_get, num_map_insert, num_map_new};
use crate::cost::{add_costs, max_cost, plus, saturate_wide, Cost, INFINITY};
use crate::egraph::{ClassId, EGraph, Node, NodeId};
use crate::extract::selection;
use crate::extract::selection::{
    acyclic, arrival, covers, dag_depth_of, dag_size, edge, infinite_below, is_timing,
    is_tree_sizing, latest_child, latest_root, nodes_known, ranked, reaches, roots_known, roots_sum,
    size_below, tree_cost_of, tree_size, tree_sizing, valid, NEG_LIMIT,
};
use crate::extract::{ids_to_vec, ExtractionResult, MapGet};
use indexmap::IndexMap;
use std::collections::HashMap;
use vstd::prelude::*;

verus! {

/// The finished classes have their arrival time and only finished children.
pub open spec fn depth_inv(
    g: EGraph,
    sel: Map<ClassId, NodeId>,
    memo: Map<ClassId, Cost>,
    doing: Set<ClassId>,
) -> bool {
    &&& forall|c: ClassId| #[trigger]
        memo.contains_key(c) && !doing.contains(c) ==> sel.contains_key(c) && memo[c] == arrival(
            g,
            memo,
            sel[c],
        )
    &&& forall|c: ClassId, b: ClassId|
        memo.contains_key(c) && !doing.contains(c) && #[trigger] edge(g, sel, c, b)
            ==> memo.contains_key(b) && !doing.contains(b)
}

/// Every entry of `a` is an entry of `b`.
pub open spec fn extends(a: Map<ClassId, Cost>, b: Map<ClassId, Cost>) -> bool {
    forall|c: ClassId| #[trigger] a.contains_key(c) ==> b.contains_key(c) && b[c] == a[c]
}

/// The sum of `sizes` over the classes of the first `k` of `nodes`.
pub open spec fn nodes_sum(
    g: EGraph,
    sizes: Map<ClassId, Cost>,
    nodes: Seq<NodeId>,
    k: nat,
) -> Cost
    decreases k,
{
    if k == 0 {
        0
    } else {
        plus(
            nodes_sum(g, sizes, nodes, (k - 1) as nat),
            sizes[g.nodes@[nodes[k - 1] as int].eclass],
        )
    }
}

/// What a tree walk has established: sized classes have only sized children,
/// and what is remembered of a node is the size of its class.
pub open spec fn tree_inv(
    g: EGraph,
    sel: Map<ClassId, NodeId>,
    sizes: Map<ClassId, Cost>,
    memo: Map<NodeId, Cost>,
) -> bool {
    &&& forall|c: ClassId| #[trigger]
        sizes.contains_key(c) ==> sel.contains_key(c) && sizes[c] == tree_size(g, sizes, sel[c])
    &&& forall|c: ClassId, b: ClassId|
        sizes.contains_key(c) && #[trigger] edge(g, sel, c, b) ==> sizes.contains_key(b)
    &&& forall|m: NodeId| #[trigger]
        memo.contains_key(m) ==> sizes.contains_key(g.nodes@[m as int].eclass) && memo[m]
            == sizes[g.nodes@[m as int].eclass]
}

/// What `costs` holds for class `c`, and [`INFINITY`] where it holds nothing.
pub open spec fn priced<M: MapGet<ClassId, Cost>>(costs: &M, c: ClassId) -> Cost {
    match costs.entry(c) {
        Some(v) => v,
        None => INFINITY,
    }
}

/// The sum of what `costs` holds for the classes of the first `k` of `nodes`.
pub open spec fn priced_sum<M: MapGet<ClassId, Cost>>(
    g: EGraph,
    costs: &M,
    nodes: Seq<NodeId>,
    k: nat,
) -> Cost
    decreases k,
{
    if k == 0 {
        0
    } else {
        plus(
            priced_sum(g, costs, nodes, (k - 1) as nat),
            priced(costs, g.nodes@[nodes[k - 1] as int].eclass),
        )
    }
}

proof fn lemma_nodes_sum_agree(
    g: EGraph,
    s1: Map<ClassId, Cost>,
    s2: Map<ClassId, Cost>,
    nodes: Seq<NodeId>,
    k: nat,
)
    requires
        k <= nodes.len(),
        forall|j: int|
            0 <= j < k ==> s1[g.nodes@[#[trigger] nodes[j] as int].eclass]
                == s2[g.nodes@[nodes[j] as int].eclass],
    ensures
        nodes_sum(g, s1, nodes, k) == nodes_sum(g, s2, nodes, k),
    decreases k,
{
    if k > 0 {
        lemma_nodes_sum_agree(g, s1, s2, nodes, (k - 1) as nat);
        let m = nodes[k - 1];
        assert(s1[g.nodes@[m as int].eclass] == s2[g.nodes@[m as int].eclass]);
    }
}

proof fn lemma_nodes_sum_children(g: EGraph, sizes: Map<ClassId, Cost>, n: NodeId, k: nat)
    requires
        k <= g.nodes@[n as int].children@.len(),
    ensures
        nodes_sum(g, sizes, g.nodes@[n as int].children@, k) == selection::children_sum(
            g,
            sizes,
            n,
            k,
        ),
    decreases k,
{
    if k > 0 {
        lemma_nodes_sum_children(g, sizes, n, (k - 1) as nat);
    }
}

proof fn lemma_nodes_sum_roots(
    g: EGraph,
    sizes: Map<ClassId, Cost>,
    nodes: Seq<NodeId>,
    roots: Seq<ClassId>,
    k: nat,
)
    requires
        k <= nodes.len() == roots.len(),
        forall|i: int| 0 <= i < k ==> g.nodes@[#[trigger] nodes[i] as int].eclass == roots[i],
    ensures
        nodes_sum(g, sizes, nodes, k) == roots_sum(roots, sizes, k),
    decreases k,
{
    if k > 0 {
        lemma_nodes_sum_roots(g, sizes, nodes, roots, (k - 1) as nat);
        let m = nodes[k - 1];
        assert(g.nodes@[m as int].eclass == roots[k - 1]);
    }
}

/// A class below the roots is a class of the e-graph.
pub proof fn lemma_reached_known(
    g: EGraph,
    sel: Map<ClassId, NodeId>,
    roots: Seq<ClassId>,
    c: ClassId,
)
    requires
        g.wf(),
        nodes_known(g, sel),
        roots_known(g, roots),
        reaches(g, sel, roots, c),
    ensures
        c < g.classes@.len(),
{
    let known = Set::new(|x: ClassId| x < g.classes@.len());
    assert forall|a: ClassId, b: ClassId|
        known.contains(a) && #[trigger] edge(g, sel, a, b) implies known.contains(b) by {
        g.lemma_depends(sel[a], b);
    }
    assert forall|r: ClassId| #[trigger] roots.contains(r) implies known.contains(r) by {
        let i = choose|i: int| 0 <= i < roots.len() && roots[i] == r;
        assert(roots[i] < g.classes@.len());
    }
    selection::lemma_reaches_closed(g, sel, roots, known, c);
}

/// The roots of a valid selection are classes of the e-graph.
pub proof fn lemma_roots_of_valid(g: EGraph, sel: Map<ClassId, NodeId>, roots: Seq<ClassId>)
    requires
        g.wf(),
        valid(g, sel, roots),
    ensures
        roots_known(g, roots),
        nodes_known(g, sel),
{
    assert forall|i: int| 0 <= i < roots.len() implies (#[trigger] roots[i])
        < g.classes@.len() by {
        assert(roots.contains(roots[i]));
        selection::lemma_reaches_root(g, sel, roots, roots[i]);
        assert(sel.contains_key(roots[i]));
        assert(g.nodes@[sel[roots[i]] as int].eclass < g.classes@.len());
    }
}

/// The depths a walk from class `c`, no deeper than `steps`, has noted. A class
/// that turns up below itself counts for nothing there.
pub open spec fn depths_from(
    g: EGraph,
    sel: Map<ClassId, NodeId>,
    c: ClassId,
    memo: Map<ClassId, Cost>,
    steps: nat,
) -> Map<ClassId, Cost>
    decreases steps, 0nat,
{
    if memo.contains_key(c) || steps == 0 {
        memo
    } else {
        let n = sel[c];
        let below = depths_below(
            g,
            sel,
            n,
            g.nodes@[n as int].children@.len(),
            memo.insert(c, 0),
            (steps - 1) as nat,
        );
        below.insert(c, arrival(g, below, n))
    }
}

/// [`depths_from`] the first `k` children of node `n` in turn.
pub open spec fn depths_below(
    g: EGraph,
    sel: Map<ClassId, NodeId>,
    n: NodeId,
    k: nat,
    memo: Map<ClassId, Cost>,
    steps: nat,
) -> Map<ClassId, Cost>
    decreases steps, k + 1,
{
    if k == 0 {
        memo
    } else {
        let before = depths_below(g, sel, n, (k - 1) as nat, memo, steps);
        depths_from(g, sel, g.child_class(n, k - 1), before, steps)
    }
}

/// [`depths_from`] the first `k` roots in turn.
pub open spec fn depths_of(
    g: EGraph,
    sel: Map<ClassId, NodeId>,
    roots: Seq<ClassId>,
    k: nat,
) -> Map<ClassId, Cost>
    decreases k,
{
    if k == 0 {
        Map::empty()
    } else {
        let before = depths_of(g, sel, roots, (k - 1) as nat);
        depths_from(g, sel, roots[k - 1], before, g.classes@.len() + 1)
    }
}

impl ExtractionResult {
    /// The size of the extraction, every class below the roots counted once.
    pub fn dag_cost(&self, egraph: &EGraph, roots: &[ClassId]) -> (r: Cost)
        requires
            egraph.wf(),
            nodes_known(*egraph, self@),
            roots_known(*egraph, roots@),
            covers(*egraph, self@, roots@),
        ensures
            r == dag_size(*egraph, self@, roots@),
    {
        let ghost g = *egraph;
        let ghost sel = self@;
        let ghost known: Set<ClassId> = Set::new(|x: ClassId| x < g.classes@.len());
        proof {
            lemma_below_finite(g.classes@.len());
        }
        let mut costs: IndexMap<ClassId, Cost> = num_map_new();
        let mut todo: Vec<ClassId> = ids_to_vec(roots);
        proof {
            assert forall|k: int| 0 <= k < todo@.len() implies reaches(
                g,
                sel,
                roots@,
                #[trigger] todo@[k],
            ) by {
                assert(roots@.contains(todo@[k]));
                selection::lemma_reaches_root(g, sel, roots@, todo@[k]);
            }
        }
        while todo.len() > 0
            invariant
                egraph.wf(),
                g == *egraph,
                sel == self@,
                nodes_known(g, sel),
                roots_known(g, roots@),
                covers(g, sel, roots@),
                known == Set::new(|x: ClassId| x < g.classes@.len()),
                known.finite(),
                forall|c: ClassId| #[trigger]
                    num_map(costs).contains_key(c) ==> reaches(g, sel, roots@, c) && num_map(
                        costs,
                    )[c] == g.nodes@[sel[c] as int].cost,
                forall|k: int|
                    0 <= k < todo@.len() ==> reaches(g, sel, roots@, #[trigger] todo@[k]),
                forall|c: ClassId| #[trigger]
                    roots@.contains(c) ==> num_map(costs).contains_key(c) || todo@.contains(c),
                forall|a: ClassId, b: ClassId|
                    num_map(costs).contains_key(a) && #[trigger] edge(g, sel, a, b) ==> num_map(
                        costs,
                    ).contains_key(b) || todo@.contains(b),
            decreases known.difference(num_map(costs).dom()).len(), todo@.len(),
        {
            let ghost todo0 = todo@;
            let ghost costs0 = num_map(costs);
            let cid: ClassId = match todo.pop() {
                Some(cid) => cid,
                None => {
                    return 0;
                },
            };
            proof {
                assert(todo0[todo0.len() - 1] == cid);
                assert(reaches(g, sel, roots@, cid));
                assert forall|c: ClassId| todo0.contains(c) implies c == cid
                    || #[trigger] todo@.contains(c) by {
                    let k = choose|k: int| 0 <= k < todo0.len() && todo0[k] == c;
                    if k < todo0.len() - 1 {
                        assert(todo@[k] == c);
                    }
                }
                lemma_reached_known(g, sel, roots@, cid);
            }
            let nid: NodeId = match self.get(cid) {
                Some(nid) => nid,
                None => {
                    return 0;
                },
            };
            if num_map_insert(&mut costs, cid, egraph.nodes[nid].cost).is_some() {
                proof {
                    assert(num_map(costs) =~= costs0);
                }
                continue;
            }
            let ghost rest = todo@;
            let mut j: usize = 0;
            while j < egraph.nodes[nid].children.len()
                invariant
                    egraph.wf(),
                    g == *egraph,
                    nid < g.nodes@.len(),
                    sel.contains_key(cid),
                    sel[cid] == nid,
                    reaches(g, sel, roots@, cid),
                    j <= g.nodes@[nid as int].children@.len(),
                    forall|k: int|
                        0 <= k < todo@.len() ==> reaches(g, sel, roots@, #[trigger] todo@[k]),
                    forall|c: ClassId| rest.contains(c) ==> #[trigger] todo@.contains(c),
                    forall|i: int| 0 <= i < j ==> todo@.contains(#[trigger] g.child_class(nid, i)),
                decreases g.nodes@[nid as int].children@.len() - j,
            {
                proof {
                    g.lemma_child_class(nid, j as int);
                    assert(g.nodes@[nid as int].children@[j as int] < g.nodes@.len());
                    assert(edge(g, sel, cid, g.child_class(nid, j as int)));
                    selection::lemma_reaches_step(
                        g,
                        sel,
                        roots@,
                        cid,
                        g.child_class(nid, j as int),
                    );
                }
                let child: ClassId = egraph.nid_to_cid(egraph.nodes[nid].children[j]);
                let ghost before = todo@;
                todo.push(child);
                proof {
                    assert(todo@[before.len() as int] == child);
                    assert forall|c: ClassId| before.contains(c) implies #[trigger] todo@.contains(
                    c) by {
                        let k = choose|k: int| 0 <= k < before.len() && before[k] == c;
                        assert(todo@[k] == c);
                    }
                }
                j += 1;
            }
            proof {
                let costs1 = num_map(costs);
                assert forall|a: ClassId, b: ClassId|
                    costs1.contains_key(a) && #[trigger] edge(
                        g,
                        sel,
                        a,
                        b,
                    ) implies costs1.contains_key(b) || todo@.contains(b) by {
                    if a == cid {
                        let i = choose|i: int|
                            0 <= i < g.nodes@[nid as int].children@.len() && g.child_class(nid, i)
                                == b;
                        assert(todo@.contains(g.child_class(nid, i)));
                    } else {
                        assert(costs0.contains_key(a));
                        if !costs0.contains_key(b) && b != cid {
                            assert(todo0.contains(b));
                            assert(rest.contains(b));
                        }
                    }
                }
                assert forall|c: ClassId| #[trigger] roots@.contains(
                    c,
                ) implies costs1.contains_key(c) || todo@.contains(c) by {
                    if !costs0.contains_key(c) && c != cid {
                        assert(todo0.contains(c));
                        assert(rest.contains(c));
                    }
                }
                let left0 = known.difference(costs0.dom());
                assert(known.difference(costs1.dom()) =~= left0.remove(cid));
                assert(left0.contains(cid));
            }
        }
        proof {
            assert forall|c: ClassId| #[trigger] reaches(g, sel, roots@, c) implies num_map(
                costs,
            ).contains_key(c) by {
                selection::lemma_reaches_closed(g, sel, roots@, num_map(costs).dom(), c);
            }
        }
        let mut total: i128 = 0;
        let mut any_infinite: bool = false;
        let mut c: usize = 0;
        while c < egraph.classes.len()
            invariant
                g == *egraph,
                c <= g.classes@.len(),
                forall|x: ClassId| #[trigger]
                    num_map(costs).contains_key(x) <==> reaches(g, sel, roots@, x),
                forall|x: ClassId| #[trigger]
                    num_map(costs).contains_key(x) ==> num_map(costs)[x]
                        == g.nodes@[sel[x] as int].cost,
                total == size_below(g, sel, roots@, c as nat),
                -0x8000_0000_0000_0000 * c <= total <= 0x7fff_ffff_ffff_ffff * c,
                any_infinite <==> exists|x: ClassId|
                    x < c && #[trigger] reaches(g, sel, roots@, x) && g.nodes@[sel[x] as int].cost
                        == INFINITY,
            decreases g.classes@.len() - c,
        {
            assert(num_map(costs).contains_key(c) <==> reaches(g, sel, roots@, c));
            if let Some(cost) = num_map_get(&costs, c) {
                if *cost == INFINITY {
                    any_infinite = true;
                } else {
                    total += *cost as i128;
                }
            }
            c += 1;
        }
        proof {
            if infinite_below(g, sel, roots@) {
                let x = choose|x: ClassId| #[trigger]
                    reaches(g, sel, roots@, x) && g.nodes@[sel[x] as int].cost == INFINITY;
                lemma_reached_known(g, sel, roots@, x);
            }
        }
        if any_infinite {
            INFINITY
        } else {
            saturate_wide(total)
        }
    }

    /// The depth of the extraction: the largest sum of node depths along a
    /// path from a root. A cycle does not keep it from returning: a class that
    /// is below itself counts for nothing there.
    pub fn dag_depth(&self, egraph: &EGraph, roots: &[ClassId]) -> (r: Cost)
        requires
            egraph.wf(),
            nodes_known(*egraph, self@),
            roots_known(*egraph, roots@),
            covers(*egraph, self@, roots@),
        ensures
            acyclic(*egraph, self@, roots@) ==> r == dag_depth_of(*egraph, self@, roots@),
            acyclic(*egraph, self@, roots@) ==> is_timing(
                *egraph,
                self@,
                roots@,
                selection::timing(*egraph, self@, roots@),
            ),
            r == (if roots@.len() == 0 {
                0
            } else {
                latest_root(
                    roots@,
                    depths_of(*egraph, self@, roots@, roots@.len()),
                    NEG_LIMIT,
                    roots@.len(),
                )
            }),
    {
        broadcast use vstd::std_specs::hash::group_hash_axioms;

        let ghost g = *egraph;
        let ghost sel = self@;
        let ghost rank = choose|rank: Map<ClassId, nat>| ranked(g, sel, roots@, rank);
        let mut memo: HashMap<ClassId, Cost> = HashMap::new();
        let mut deepest: Cost = NEG_LIMIT;
        let mut i: usize = 0;
        while i < roots.len()
            invariant
                egraph.wf(),
                g == *egraph,
                sel == self@,
                nodes_known(g, sel),
                roots_known(g, roots@),
                covers(g, sel, roots@),
                i <= roots@.len(),
                memo@ == depths_of(g, sel, roots@, i as nat),
                ranked(g, sel, roots@, rank) ==> depth_inv(g, sel, memo@, Set::empty()),
                forall|k: int| 0 <= k < i ==> memo@.contains_key(#[trigger] roots@[k]),
                deepest == latest_root(roots@, memo@, NEG_LIMIT, i as nat),
            decreases roots@.len() - i,
        {
            let root: ClassId = roots[i];
            let ghost before = memo@;
            proof {
                assert(roots@.contains(root));
                selection::lemma_reaches_root(g, sel, roots@, root);
            }
            proof {
                let known = Set::new(|x: ClassId| x < g.classes@.len());
                lemma_below_finite(g.classes@.len());
                vstd::set_lib::lemma_len_subset(known.difference(memo@.dom()), known);
            }
            let d: Cost = self.class_depth(
                egraph,
                root,
                &mut memo,
                Ghost(roots@),
                Ghost(rank),
                Ghost(Set::empty()),
                Ghost(g.classes@.len() + 1),
            );
            proof {
                let seen = roots@.take(i as int);
                assert forall|k: int| 0 <= k < i implies before[#[trigger] roots@[k]]
                    == memo@[roots@[k]] by {
                    assert(before.contains_key(roots@[k]));
                }
                lemma_latest_prefix(roots@, before, memo@, NEG_LIMIT, i as nat);
            }
            deepest = max_cost(deepest, d);
            i += 1;
        }
        proof {
            if acyclic(g, sel, roots@) {
                let times = memo@;
                assert forall|c: ClassId| #[trigger] reaches(
                    g,
                    sel,
                    roots@,
                    c,
                ) implies times[c] == arrival(g, times, sel[c]) by {
                    assert forall|r: ClassId| #[trigger] roots@.contains(
                        r,
                    ) implies times.dom().contains(r) by {
                        let k = choose|k: int| 0 <= k < roots@.len() && roots@[k] == r;
                        assert(times.contains_key(roots@[k]));
                    }
                    assert forall|a: ClassId, b: ClassId|
                        times.dom().contains(a) && #[trigger] edge(
                            g,
                            sel,
                            a,
                            b,
                        ) implies times.dom().contains(b) by {
                        assert(times.contains_key(a));
                    }
                    selection::lemma_reaches_closed(g, sel, roots@, times.dom(), c);
                    assert(times.contains_key(c));
                }
                selection::lemma_timing_is(g, sel, roots@, times);
                let t = selection::timing(g, sel, roots@);
                assert forall|k: int| 0 <= k < roots@.len() implies times[#[trigger] roots@[k]]
                    == t[roots@[k]] by {
                    assert(roots@.contains(roots@[k]));
                    selection::lemma_reaches_root(g, sel, roots@, roots@[k]);
                }
                selection::lemma_latest_root_agree(roots@, times, t, NEG_LIMIT, roots@.len());
            }
        }
        if roots.len() == 0 {
            0
        } else {
            deepest
        }
    }

    fn class_depth(
        &self,
        egraph: &EGraph,
        class_id: ClassId,
        memo: &mut HashMap<ClassId, Cost>,
        Ghost(roots): Ghost<Seq<ClassId>>,
        Ghost(rank): Ghost<Map<ClassId, nat>>,
        Ghost(doing): Ghost<Set<ClassId>>,
        Ghost(steps): Ghost<nat>,
    ) -> (r: Cost)
        requires
            egraph.wf(),
            Set::new(|x: ClassId| x < egraph.classes@.len()).difference(old(memo)@.dom()).len()
                < steps,
            nodes_known(*egraph, self@),
            roots_known(*egraph, roots),
            covers(*egraph, self@, roots),
            reaches(*egraph, self@, roots, class_id),
            ranked(*egraph, self@, roots, rank) ==> depth_inv(*egraph, self@, old(memo)@, doing),
            ranked(*egraph, self@, roots, rank) ==> forall|x: ClassId| #[trigger]
                doing.contains(x) ==> rank[class_id] < rank[x],
        ensures
            ranked(*egraph, self@, roots, rank) ==> depth_inv(
                *egraph,
                self@,
                final(memo)@,
                doing,
            ),
            final(memo)@ == depths_from(*egraph, self@, class_id, old(memo)@, steps),
            extends(old(memo)@, final(memo)@),
            final(memo)@.contains_key(class_id),
            final(memo)@[class_id] == r,
        decreases
                Set::new(|x: ClassId| x < egraph.classes@.len()).difference(
                    old(memo)@.dom(),
                ).len(),
    {
        broadcast use vstd::std_specs::hash::group_hash_axioms;

        let ghost g = *egraph;
        let ghost sel = self@;
        let ghost is_ranked = ranked(g, sel, roots, rank);
        let ghost known = Set::new(|x: ClassId| x < g.classes@.len());
        let ghost memo0 = memo@;
        if let Some(d) = memo.get(&class_id) {
            return *d;
        }
        // A class that turns up below itself finds this entry.
        memo.insert(class_id, 0);
        let ghost memo1 = memo@;
        let ghost doing1 = doing.insert(class_id);
        let nid: NodeId = match self.get(class_id) {
            Some(nid) => nid,
            None => {
                return 0;
            },
        };
        proof {
            lemma_reached_known(g, sel, roots, class_id);
            lemma_below_finite(g.classes@.len());
            let left0 = known.difference(memo0.dom());
            assert(left0.contains(class_id));
            assert(known.difference(memo1.dom()) =~= left0.remove(class_id));
            if is_ranked {
                lemma_depth_inv_fresh(g, sel, memo0, doing, class_id, 0);
            }
        }
        let ghost measure0 = known.difference(memo0.dom()).len();
        let mut child_max: Cost = 0;
        let mut j: usize = 0;
        while j < egraph.nodes[nid].children.len()
            invariant
                egraph.wf(),
                g == *egraph,
                sel == self@,
                nodes_known(g, sel),
                roots_known(g, roots),
                covers(g, sel, roots),
                reaches(g, sel, roots, class_id),
                sel.contains_key(class_id),
                sel[class_id] == nid,
                nid < g.nodes@.len(),
                is_ranked == ranked(g, sel, roots, rank),
                is_ranked ==> forall|x: ClassId| #[trigger]
                    doing.contains(x) ==> rank[class_id] < rank[x],
                doing1 == doing.insert(class_id),
                memo1 == memo0.insert(class_id, 0),
                !memo0.contains_key(class_id),
                known == Set::new(|x: ClassId| x < g.classes@.len()),
                known.finite(),
                measure0 == known.difference(old(memo)@.dom()).len(),
                measure0 < steps,
                memo@ == depths_below(g, sel, nid, j as nat, memo1, (steps - 1) as nat),
                known.difference(memo@.dom()).len() < measure0,
                j <= g.nodes@[nid as int].children@.len(),
                extends(memo1, memo@),
                is_ranked ==> depth_inv(g, sel, memo@, doing1),
                child_max == latest_child(g, memo@, nid, j as nat),
                forall|i: int| 0 <= i < j ==> memo@.contains_key(#[trigger] g.child_class(nid, i)),
            decreases g.nodes@[nid as int].children@.len() - j,
        {
            let ghost before = memo@;
            proof {
                g.lemma_child_class(nid, j as int);
                assert(g.nodes@[nid as int].children@[j as int] < g.nodes@.len());
                assert(edge(g, sel, class_id, g.child_class(nid, j as int)));
                selection::lemma_reaches_step(
                    g,
                    sel,
                    roots,
                    class_id,
                    g.child_class(nid, j as int),
                );
            }
            let child: ClassId = egraph.nid_to_cid(egraph.nodes[nid].children[j]);
            let d: Cost = self.class_depth(
                egraph,
                child,
                memo,
                Ghost(roots),
                Ghost(rank),
                Ghost(doing1),
                Ghost((steps - 1) as nat),
            );
            proof {
                assert forall|i: int| 0 <= i < j implies before[#[trigger] g.child_class(nid, i)]
                    == memo@[g.child_class(nid, i)] by {
                    assert(before.contains_key(g.child_class(nid, i)));
                }
                selection::lemma_latest_child_agree(g, before, memo@, nid, j as nat);
                assert(extends(memo1, memo@)) by {
                    assert forall|c: ClassId| #[trigger] memo1.contains_key(
                        c,
                    ) implies memo@.contains_key(c) && memo@[c] == memo1[c] by {
                        assert(before.contains_key(c));
                    }
                }
                assert forall|i: int| 0 <= i < j + 1 implies memo@.contains_key(
                    #[trigger] g.child_class(nid, i),
                ) by {
                    if i < j {
                        assert(before.contains_key(g.child_class(nid, i)));
                    }
                }
                assert(known.difference(memo@.dom()).subset_of(known.difference(before.dom())));
                vstd::set_lib::lemma_len_subset(
                    known.difference(memo@.dom()),
                    known.difference(before.dom()),
                );
            }
            if d > child_max {
                child_max = d;
            }
            j += 1;
        }
        let total: Cost = add_costs(egraph.nodes[nid].delay, child_max);
        let ghost memo2 = memo@;
        memo.insert(class_id, total);
        proof {
            let memo3 = memo@;
            assert(memo1.contains_key(class_id));
            assert forall|c: ClassId| #[trigger] memo0.contains_key(c) implies memo3.contains_key(c)
                && memo3[c] == memo0[c] by {
                assert(memo1.contains_key(c));
            }
            if is_ranked {
                assert forall|c: ClassId| #[trigger] g.depends(nid, c) implies memo2.contains_key(c)
                    && c != class_id && !doing.contains(c) by {
                    let i = choose|i: int|
                        0 <= i < g.nodes@[nid as int].children@.len() && g.child_class(nid, i) == c;
                    assert(memo2.contains_key(g.child_class(nid, i)));
                    assert(edge(g, sel, class_id, c));
                    assert(rank[c] < rank[class_id]);
                }
                lemma_depth_inv_done(g, sel, memo2, doing, class_id, total);
            }
        }
        total
    }

    /// The size of the extraction as a tree: a class counts every time it is
    /// used.
    pub fn tree_cost(&self, egraph: &EGraph, roots: &[ClassId]) -> (r: Cost)
        requires
            egraph.wf(),
            valid(*egraph, self@, roots@),
        ensures
            is_tree_sizing(*egraph, self@, roots@, tree_sizing(*egraph, self@, roots@)),
            r == tree_cost_of(*egraph, self@, roots@),
    {
        let ghost g = *egraph;
        let ghost sel = self@;
        let ghost rank = choose|rank: Map<ClassId, nat>| ranked(g, sel, roots@, rank);
        let mut node_roots: Vec<NodeId> = Vec::new();
        let mut i: usize = 0;
        let ghost mut bound: nat = 0;
        while i < roots.len()
            invariant
                g == *egraph,
                sel == self@,
                valid(g, sel, roots@),
                i <= roots@.len(),
                node_roots@.len() == i,
                forall|k: int|
                    0 <= k < i ==> (#[trigger] node_roots@[k]) < g.nodes@.len()
                        && g.nodes@[node_roots@[k] as int].eclass == roots@[k]
                        && rank[roots@[k]] < bound,
            decreases roots@.len() - i,
        {
            let root: ClassId = roots[i];
            proof {
                assert(roots@.contains(root));
                selection::lemma_reaches_root(g, sel, roots@, root);
                assert(sel.contains_key(root));
                if rank[root] >= bound {
                    bound = rank[root] + 1;
                }
            }
            let ghost before = node_roots@;
            match self.get(root) {
                Some(nid) => {
                    node_roots.push(nid);
                },
                None => {
                    proof {
                        assert(false);
                    }
                },
            }
            proof {
                assert forall|k: int| 0 <= k < i + 1 implies (#[trigger] node_roots@[k])
                    < g.nodes@.len() && g.nodes@[node_roots@[k] as int].eclass == roots@[k]
                    && rank[roots@[k]] < bound by {
                    if k < i {
                        assert(node_roots@[k] == before[k]);
                    }
                }
            }
            i += 1;
        }
        let mut memo: HashMap<NodeId, Cost> = HashMap::new();
        let mut sizes: Ghost<Map<ClassId, Cost>> = Ghost(Map::empty());
        proof {
            assert forall|k: int| 0 <= k < node_roots@.len() implies (
            #[trigger] node_roots@[k]) < g.nodes@.len() && reaches(
                g,
                sel,
                roots@,
                g.nodes@[node_roots@[k] as int].eclass,
            ) && rank[g.nodes@[node_roots@[k] as int].eclass] < bound by {
                assert(roots@.contains(roots@[k]));
                selection::lemma_reaches_root(g, sel, roots@, roots@[k]);
            }
        }
        let cost: Cost = self.tree_cost_rec(
            egraph,
            &node_roots,
            &mut memo,
            Ghost(roots@),
            Ghost(rank),
            Ghost(bound),
            &mut sizes,
        );
        proof {
            let s = sizes@;
            assert forall|c: ClassId| #[trigger] reaches(g, sel, roots@, c) implies s[c]
                == tree_size(g, s, sel[c]) by {
                assert forall|r: ClassId| #[trigger] roots@.contains(r) implies s.dom().contains(
                r) by {
                    let k = choose|k: int| 0 <= k < roots@.len() && roots@[k] == r;
                    assert(s.contains_key(g.nodes@[node_roots@[k] as int].eclass));
                }
                assert forall|a: ClassId, b: ClassId|
                    s.dom().contains(a) && #[trigger] edge(g, sel, a, b) implies s.dom().contains(
                b) by {
                    assert(s.contains_key(a));
                }
                selection::lemma_reaches_closed(g, sel, roots@, s.dom(), c);
                assert(s.contains_key(c));
            }
            assert(is_tree_sizing(g, sel, roots@, s));
            let t = tree_sizing(g, sel, roots@);
            assert(is_tree_sizing(g, sel, roots@, t));
            lemma_nodes_sum_roots(g, s, node_roots@, roots@, roots@.len());
            assert forall|k: int| 0 <= k < roots@.len() implies s[#[trigger] roots@[k]]
                == t[roots@[k]] by {
                assert(roots@.contains(roots@[k]));
                selection::lemma_reaches_root(g, sel, roots@, roots@[k]);
                selection::tree_sizing_is_unique(g, sel, roots@, s, t, roots@[k]);
            }
            lemma_roots_sum_agree(roots@, s, t, roots@.len());
        }
        cost
    }

    fn tree_cost_rec(
        &self,
        egraph: &EGraph,
        nodes: &Vec<NodeId>,
        memo: &mut HashMap<NodeId, Cost>,
        Ghost(roots): Ghost<Seq<ClassId>>,
        Ghost(rank): Ghost<Map<ClassId, nat>>,
        Ghost(bound): Ghost<nat>,
        sizes: &mut Ghost<Map<ClassId, Cost>>,
    ) -> (r: Cost)
        requires
            egraph.wf(),
            nodes_known(*egraph, self@),
            covers(*egraph, self@, roots),
            ranked(*egraph, self@, roots, rank),
            forall|k: int|
                0 <= k < nodes@.len() ==> (#[trigger] nodes@[k]) < egraph.nodes@.len() && reaches(
                    *egraph,
                    self@,
                    roots,
                    egraph.nodes@[nodes@[k] as int].eclass,
                ) && rank[egraph.nodes@[nodes@[k] as int].eclass] < bound,
            tree_inv(*egraph, self@, old(sizes)@, old(memo)@),
        ensures
            tree_inv(*egraph, self@, final(sizes)@, final(memo)@),
            extends(old(sizes)@, final(sizes)@),
            forall|k: int|
                0 <= k < nodes@.len() ==> final(sizes)@.contains_key(
                    egraph.nodes@[#[trigger] nodes@[k] as int].eclass,
                ),
            r == nodes_sum(*egraph, final(sizes)@, nodes@, nodes@.len()),
        decreases bound,
    {
        broadcast use vstd::std_specs::hash::group_hash_axioms;

        let ghost g = *egraph;
        let ghost sel = self@;
        let ghost sizes0 = sizes@;
        let mut cost: Cost = 0;
        let mut i: usize = 0;
        while i < nodes.len()
            invariant
                egraph.wf(),
                g == *egraph,
                sel == self@,
                nodes_known(g, sel),
                covers(g, sel, roots),
                ranked(g, sel, roots, rank),
                forall|k: int|
                    0 <= k < nodes@.len() ==> (#[trigger] nodes@[k]) < g.nodes@.len() && reaches(
                        g,
                        sel,
                        roots,
                        g.nodes@[nodes@[k] as int].eclass,
                    ) && rank[g.nodes@[nodes@[k] as int].eclass] < bound,
                i <= nodes@.len(),
                tree_inv(g, sel, sizes@, memo@),
                extends(sizes0, sizes@),
                forall|k: int|
                    0 <= k < i ==> sizes@.contains_key(
                        g.nodes@[#[trigger] nodes@[k] as int].eclass,
                    ),
                cost == nodes_sum(g, sizes@, nodes@, i as nat),
            decreases nodes@.len() - i,
        {
            let root: NodeId = nodes[i];
            let mut known: Option<Cost> = None;
            if let Some(c) = memo.get(&root) {
                known = Some(*c);
            }
            if let Some(c) = known {
                assert(memo@.contains_key(root));
                cost = add_costs(cost, c);
                i += 1;
                continue;
            }
            let class: ClassId = egraph.nid_to_cid(root);
            let nid: NodeId = match self.get(class) {
                Some(nid) => nid,
                None => {
                    proof {
                        assert(false);
                    }
                    return cost;
                },
            };
            let ghost before = sizes@;
            proof {
                let children = g.nodes@[nid as int].children@;
                assert forall|k: int| 0 <= k < children.len() implies (#[trigger] children[k])
                    < g.nodes@.len() && reaches(
                    g,
                    sel,
                    roots,
                    g.nodes@[children[k] as int].eclass,
                ) && rank[g.nodes@[children[k] as int].eclass] < rank[class] by {
                    assert(g.nodes@[nid as int].children@[k] < g.nodes@.len());
                    let b = g.child_class(nid, k);
                    assert(edge(g, sel, class, b));
                    selection::lemma_reaches_step(g, sel, roots, class, b);
                }
            }
            let below: Cost = self.tree_cost_rec(
                egraph,
                &egraph.nodes[nid].children,
                memo,
                Ghost(roots),
                Ghost(rank),
                Ghost(rank[class]),
                sizes,
            );
            let inner: Cost = add_costs(egraph.nodes[nid].cost, below);
            let ghost mid = sizes@;
            proof {
                lemma_nodes_sum_children(g, mid, nid, g.nodes@[nid as int].children@.len());
                assert(inner == tree_size(g, mid, nid));
            }
            let ghost after: Map<ClassId, Cost> = mid.insert(class, inner);
            proof {
                assert forall|b: ClassId| #[trigger] g.depends(nid, b) implies mid.contains_key(b)
                    && b != class by {
                    let j = choose|j: int|
                        0 <= j < g.nodes@[nid as int].children@.len() && g.child_class(nid, j) == b;
                    let m = g.nodes@[nid as int].children@[j];
                    assert(mid.contains_key(g.nodes@[m as int].eclass));
                    assert(edge(g, sel, class, b));
                }
                lemma_tree_inv_grow(g, sel, mid, memo@, class, inner);
            }
            *sizes = Ghost(after);
            memo.insert(root, inner);
            proof {
                assert(after.contains_key(class));
                assert forall|c: ClassId| #[trigger] sizes0.contains_key(
                    c,
                ) implies after.contains_key(c) && after[c] == sizes0[c] by {
                    assert(before.contains_key(c));
                    assert(mid.contains_key(c));
                }
                assert forall|k: int| 0 <= k < i implies before[g.nodes@[#[trigger] nodes@[k] as int].eclass]
                    == after[g.nodes@[nodes@[k] as int].eclass] && after.contains_key(
                    g.nodes@[nodes@[k] as int].eclass,
                ) by {
                    let c = g.nodes@[nodes@[k] as int].eclass;
                    assert(before.contains_key(c));
                    assert(mid.contains_key(c));
                }
                lemma_nodes_sum_agree(g, before, after, nodes@, i as nat);
            }
            cost = add_costs(cost, inner);
            i += 1;
        }
        cost
    }

    /// The size of `node` on top of what `costs` holds for its children; a
    /// child that `costs` does not hold is infinite.
    pub fn node_sum_cost<M: MapGet<ClassId, Cost>>(&self, egraph: &EGraph, node: &Node, costs: &M) -> (r:
        Cost)
        requires
            forall|j: int|
                0 <= j < node.children@.len() ==> (#[trigger] node.children@[j])
                    < egraph.nodes@.len(),
        ensures
            r == plus(
                node.cost,
                priced_sum(*egraph, costs, node.children@, node.children@.len()),
            ),
    {
        let mut sum: Cost = 0;
        let mut j: usize = 0;
        while j < node.children.len()
            invariant
                j <= node.children@.len(),
                forall|j: int|
                    0 <= j < node.children@.len() ==> (#[trigger] node.children@[j])
                        < egraph.nodes@.len(),
                sum == priced_sum(*egraph, costs, node.children@, j as nat),
            decreases node.children@.len() - j,
        {
            let cid: ClassId = egraph.nid_to_cid(node.children[j]);
            let cost: Cost = match costs.get(&cid) {
                Some(c) => *c,
                None => INFINITY,
            };
            sum = add_costs(sum, cost);
            j += 1;
        }
        add_costs(node.cost, sum)
    }
}

proof fn lemma_latest_prefix(
    roots: Seq<ClassId>,
    t1: Map<ClassId, Cost>,
    t2: Map<ClassId, Cost>,
    floor: Cost,
    k: nat,
)
    requires
        k <= roots.len(),
        forall|i: int| 0 <= i < k ==> t1[#[trigger] roots[i]] == t2[roots[i]],
    ensures
        latest_root(roots, t1, floor, k) == latest_root(roots, t2, floor, k),
    decreases k,
{
    if k > 0 {
        lemma_latest_prefix(roots, t1, t2, floor, (k - 1) as nat);
        assert(t1[roots[k - 1]] == t2[roots[k - 1]]);
    }
}

proof fn lemma_roots_sum_agree(
    roots: Seq<ClassId>,
    t1: Map<ClassId, Cost>,
    t2: Map<ClassId, Cost>,
    k: nat,
)
    requires
        k <= roots.len(),
        forall|i: int| 0 <= i < k ==> t1[#[trigger] roots[i]] == t2[roots[i]],
    ensures
        roots_sum(roots, t1, k) == roots_sum(roots, t2, k),
    decreases k,
{
    if k > 0 {
        lemma_roots_sum_agree(roots, t1, t2, (k - 1) as nat);
        assert(t1[roots[k - 1]] == t2[roots[k - 1]]);
    }
}

/// The numbers below `n` are finitely many.
pub proof fn lemma_below_finite(n: nat)
    ensures
        Set::new(|x: usize| x < n).finite(),
        Set::new(|x: usize| x < n).len() <= n,
    decreases n,
{
    let s = Set::new(|x: usize| x < n);
    if n == 0 {
        assert(s =~= Set::<usize>::empty());
    } else {
        let t = Set::new(|x: usize| x < (n - 1) as nat);
        lemma_below_finite((n - 1) as nat);
        if n - 1 <= usize::MAX {
            assert(s =~= t.insert((n - 1) as usize));
        } else {
            assert(s =~= t);
        }
    }
}

proof fn lemma_depth_inv_fresh(
    g: EGraph,
    sel: Map<ClassId, NodeId>,
    memo: Map<ClassId, Cost>,
    doing: Set<ClassId>,
    class: ClassId,
    value: Cost,
)
    requires
        depth_inv(g, sel, memo, doing),
        !memo.contains_key(class),
    ensures
        depth_inv(g, sel, memo.insert(class, value), doing.insert(class)),
{
    let memo1 = memo.insert(class, value);
    assert forall|c: ClassId| #[trigger]
        memo1.contains_key(c) && !doing.insert(class).contains(c) implies memo1[c] == arrival(
        g,
        memo1,
        sel[c],
    ) by {
        assert(memo.contains_key(c) && !doing.contains(c));
        assert forall|b: ClassId| #[trigger] g.depends(sel[c], b) implies memo[b] == memo1[b] by {
            assert(edge(g, sel, c, b));
        }
        selection::lemma_arrival_agree(g, memo, memo1, sel[c]);
    }
}

proof fn lemma_depth_inv_done(
    g: EGraph,
    sel: Map<ClassId, NodeId>,
    memo: Map<ClassId, Cost>,
    doing: Set<ClassId>,
    class: ClassId,
    total: Cost,
)
    requires
        depth_inv(g, sel, memo, doing.insert(class)),
        memo.contains_key(class),
        sel.contains_key(class),
        total == arrival(g, memo, sel[class]),
        forall|c: ClassId| #[trigger]
            g.depends(sel[class], c) ==> memo.contains_key(c) && c != class && !doing.contains(c),
    ensures
        depth_inv(g, sel, memo.insert(class, total), doing),
{
    let memo1 = memo.insert(class, total);
    let doing1 = doing.insert(class);
    assert forall|c: ClassId| #[trigger]
        memo1.contains_key(c) && !doing.contains(c) implies memo1[c] == arrival(g, memo1, sel[c]) by {
        assert forall|b: ClassId| #[trigger] g.depends(sel[c], b) implies memo[b] == memo1[b] by {
            if c != class {
                assert(memo.contains_key(c) && !doing1.contains(c));
                assert(edge(g, sel, c, b));
            }
        }
        selection::lemma_arrival_agree(g, memo, memo1, sel[c]);
    }
    assert forall|c: ClassId, b: ClassId|
        memo1.contains_key(c) && !doing.contains(c) && #[trigger] edge(
            g,
            sel,
            c,
            b,
        ) implies memo1.contains_key(b) && !doing.contains(b) by {
        if c != class {
            assert(memo.contains_key(c) && !doing1.contains(c));
        }
    }
}

proof fn lemma_tree_inv_grow(
    g: EGraph,
    sel: Map<ClassId, NodeId>,
    sizes: Map<ClassId, Cost>,
    memo: Map<NodeId, Cost>,
    class: ClassId,
    inner: Cost,
)
    requires
        tree_inv(g, sel, sizes, memo),
        sel.contains_key(class),
        inner == tree_size(g, sizes, sel[class]),
        forall|b: ClassId| #[trigger]
            g.depends(sel[class], b) ==> sizes.contains_key(b) && b != class,
    ensures
        tree_inv(g, sel, sizes.insert(class, inner), memo),
        sizes.contains_key(class) ==> sizes[class] == inner,
{
    let after = sizes.insert(class, inner);
    if sizes.contains_key(class) {
        assert(after =~= sizes);
    } else {
        assert forall|c: ClassId| #[trigger] after.contains_key(c) implies after[c] == tree_size(
            g,
            after,
            sel[c],
        ) by {
            assert forall|b: ClassId| #[trigger] g.depends(sel[c], b) implies sizes[b]
                == after[b] by {
                if c != class {
                    assert(sizes.contains_key(c));
                    if sel.contains_key(c) {
                        assert(edge(g, sel, c, b));
                    }
                }
            }
            selection::lemma_tree_size_agree(g, sizes, after, sel[c]);
        }
        assert forall|c: ClassId, b: ClassId|
            after.contains_key(c) && #[trigger] edge(g, sel, c, b) implies after.contains_key(b) by {
            if c != class {
                assert(sizes.contains_key(c));
            }
        }
    }
}

} // verus!
