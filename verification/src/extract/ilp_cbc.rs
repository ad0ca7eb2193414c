//! The ILP extractors for one objective each, under former names.
//!
//! Each struct here is one objective of the `ilp` extractors:
//!
//! ```text
//! IlpExtractor              Size
//! DualIlpExtractor          WeightedSizeDepth { size_weight: beta, depth_weight: alpha }
//! DelayBudgetIlpExtractor   SizeConstrainedDepth { depth_budget: max_delay }
//! ```
//!
//! so they share its guarantee: the result is complete unless the input itself
//! is invalid (then it is empty). Deprecated: use the `ilp` extractors.
use crate::collections::{id_set, id_set_insert, id_set_new};
use crate::cost::{Cost, INFINITY, ONE};
use crate::egraph::{ClassId, EGraph, NodeId};
use crate::extract::faster_ilp_cbc::{unwarmed, WarmConfig};
use crate::extract::ilp::fallback::has_extraction;
use crate::extract::ilp::objective::{DepthBudget, IlpObjective};
use crate::extract::ilp::options::{
    limit_of_seconds, time_limit_from_seconds, IlpOptions, WarmStart,
};
use crate::extract::ilp::report::{FallbackReason, Rejection, SolveOutcome, SolveReport};
use crate::extract::ilp::solve::{
    amounts_valid, is_outcome, resolves_to, solve_with_initial, Clock, IlpError,
};
use crate::extract::measure::lemma_below_finite;
use crate::extract::selection;
use crate::extract::selection::{
    acyclic, covers, edge, in_class, nodes_known, ranked, reaches, roots_known, valid,
};
use crate::extract::{
    child_classes, first_missing, ids_to_vec, CompleteExtraction, ExtractionResult,
};
use crate::milp::MilpModel;
use indexmap::IndexSet;
use vstd::prelude::*;

verus! {

// ---------------------------------------------------------------------------
// Seed repair
// ---------------------------------------------------------------------------

/// Outcome of [`build_seed`].
pub struct Seed {
    /// One chosen node per class reachable from the roots. Complete and
    /// acyclic.
    pub selection: ExtractionResult,
    /// How many classes had to fall back off the preferred choice.
    pub repaired: usize,
}

/// Why there is no seed.
#[derive(Debug, Clone, Copy, PartialEq, Eq)]
pub enum SeedError {
    /// The walk met a class that neither choice can fill.
    Unfilled { class: ClassId },
    /// The selection the walk committed to contains a cycle.
    Cycle,
}

/// A choice is usable only if the node really lives in the class: after
/// congruence closure two classes the seed treated separately may have merged,
/// and the stale choice then belongs to a sibling.
pub open spec fn usable(g: EGraph, sel: Map<ClassId, NodeId>, c: ClassId) -> bool {
    sel.contains_key(c) && g.nodes@[sel[c] as int].eclass == c
}

/// The preferred choice or the fallback can fill class `c`.
pub open spec fn fillable(
    g: EGraph,
    preferred: Option<Map<ClassId, NodeId>>,
    fallback: Map<ClassId, NodeId>,
    c: ClassId,
) -> bool {
    (preferred is Some && usable(g, preferred->0, c)) || usable(g, fallback, c)
}

/// The picks for all classes that can be filled: the preferred choice where it
/// is usable, else the fallback's.
pub open spec fn picks(
    g: EGraph,
    preferred: Option<Map<ClassId, NodeId>>,
    fallback: Map<ClassId, NodeId>,
) -> Map<ClassId, NodeId> {
    Map::new(
        |c: ClassId| fillable(g, preferred, fallback, c),
        |c: ClassId|
            if preferred is Some && usable(g, preferred->0, c) {
                preferred->0[c]
            } else {
                fallback[c]
            },
    )
}

/// The classes below the roots that the preferred choice does not serve.
pub open spec fn repaired_classes(
    g: EGraph,
    preferred: Option<Map<ClassId, NodeId>>,
    fallback: Map<ClassId, NodeId>,
    roots: Seq<ClassId>,
) -> Set<ClassId> {
    Set::new(
        |c: ClassId|
            preferred is Some && !usable(g, preferred->0, c) && reaches(
                g,
                picks(g, preferred, fallback),
                roots,
                c,
            ),
    )
}

/// The choices of an extraction, if there is one.
pub open spec fn choices_of(e: Option<&ExtractionResult>) -> Option<Map<ClassId, NodeId>> {
    match e {
        Some(e) => Some(e@),
        None => None,
    }
}

/// The pick for a class, if it can be filled, and whether the preferred choice
/// does not serve.
fn pick_node(
    egraph: &EGraph,
    cid: ClassId,
    preferred: Option<&ExtractionResult>,
    fallback: &ExtractionResult,
) -> (r: (Option<NodeId>, bool))
    requires
        preferred matches Some(p) ==> nodes_known(*egraph, p@),
        nodes_known(*egraph, fallback@),
    ensures
        ({
            let chosen = picks(*egraph, choices_of(preferred), fallback@);
            r.0 == (if chosen.contains_key(cid) {
                Some(chosen[cid])
            } else {
                None
            })
        }),
        r.0 matches Some(n) ==> n < egraph.nodes@.len() && egraph.nodes@[n as int].eclass == cid,
        r.1 == (preferred is Some && !usable(*egraph, preferred->0@, cid)),
{
    let mut repaired: bool = false;
    if let Some(p) = preferred {
        if let Some(nid) = p.get(cid) {
            assert(p@.contains_key(cid));
            if egraph.nodes[nid].eclass == cid {
                return (Some(nid), false);
            }
        }
        repaired = true;
    }
    if let Some(nid) = fallback.get(cid) {
        assert(fallback@.contains_key(cid));
        if egraph.nodes[nid].eclass == cid {
            return (Some(nid), repaired);
        }
    }
    (None, repaired)
}

/// Builds a **complete, acyclic** selection over `egraph` from a `preferred`
/// partial choice, repairing to `fallback` wherever `preferred` cannot be used.
///
/// The walk starts at `roots` and only ever descends through the children of a
/// node it has already committed to. It is refused if it meets a class that
/// neither can fill, or if what it commits to contains a cycle.
pub fn build_seed(
    egraph: &EGraph,
    roots: &[ClassId],
    preferred: Option<&ExtractionResult>,
    fallback: &ExtractionResult,
) -> (r: Result<Seed, SeedError>)
    requires
        egraph.wf(),
        preferred matches Some(p) ==> nodes_known(*egraph, p@),
        nodes_known(*egraph, fallback@),
    ensures
        ({
            let chosen = picks(*egraph, choices_of(preferred), fallback@);
            match r {
                Ok(seed) => {
                    &&& covers(*egraph, chosen, roots@)
                    &&& acyclic(*egraph, chosen, roots@)
                    &&& valid(*egraph, seed.selection@, roots@)
                    &&& forall|c: ClassId| #[trigger]
                        seed.selection@.contains_key(c) <==> reaches(*egraph, chosen, roots@, c)
                    &&& forall|c: ClassId| #[trigger]
                        seed.selection@.contains_key(c) ==> seed.selection@[c] == chosen[c]
                    &&& seed.repaired == repaired_classes(
                        *egraph,
                        choices_of(preferred),
                        fallback@,
                        roots@,
                    ).len()
                },
                Err(SeedError::Unfilled { class }) => {
                    &&& reaches(*egraph, chosen, roots@, class)
                    &&& !fillable(*egraph, choices_of(preferred), fallback@, class)
                    &&& first_missing(
                        *egraph,
                        chosen,
                        roots@,
                        Set::empty(),
                        chosen.dom().len() + 1,
                    ) == Some(class)
                },
                Err(SeedError::Cycle) => {
                    &&& covers(*egraph, chosen, roots@)
                    &&& !acyclic(*egraph, chosen, roots@)
                },
            }
        }),
{
    let ghost g = *egraph;
    let ghost pref = choices_of(preferred);
    let ghost chosen = picks(g, pref, fallback@);
    let ghost known = Set::new(|x: ClassId| x < g.classes@.len());
    proof {
        lemma_below_finite(g.classes@.len());
        lemma_picks(g, pref, fallback@);
    }
    let ghost mut steps: nat = chosen.dom().len() + 1;
    let ghost found = first_missing(g, chosen, roots@, Set::empty(), steps);
    let mut result: ExtractionResult = ExtractionResult::default();
    let mut repaired: usize = 0;
    let mut todo: Vec<ClassId> = ids_to_vec(roots);
    let mut seen: IndexSet<ClassId> = id_set_new();
    let ghost mut fixed: Set<ClassId> = Set::empty();
    proof {
        assert forall|k: int| 0 <= k < todo@.len() implies reaches(
            g,
            chosen,
            roots@,
            #[trigger] todo@[k],
        ) by {
            assert(roots@.contains(todo@[k]));
            selection::lemma_reaches_root(g, chosen, roots@, todo@[k]);
        }
        assert forall|c: ClassId| !#[trigger] id_set(seen).contains(c) by {}
        assert(result@.dom() =~= Set::<ClassId>::empty());
        assert(chosen.dom().difference(result@.dom()) =~= chosen.dom());
    }
    let n_classes: usize = egraph.classes.len();
    while todo.len() > 0
        invariant
            egraph.wf(),
            g == *egraph,
            n_classes == g.classes@.len(),
            pref == choices_of(preferred),
            preferred matches Some(p) ==> nodes_known(g, p@),
            nodes_known(g, fallback@),
            chosen == picks(g, pref, fallback@),
            known == Set::new(|x: ClassId| x < g.classes@.len()),
            known.finite(),
            chosen.dom().finite(),
            chosen.dom().subset_of(known),
            found == first_missing(g, chosen, roots@, Set::empty(), chosen.dom().len() + 1),
            found == first_missing(g, chosen, todo@, result@.dom(), steps),
            chosen.dom().difference(result@.dom()).len() < steps,
            forall|c: ClassId| #[trigger]
                result@.contains_key(c) <==> id_set(seen).contains(c),
            forall|c: ClassId| #[trigger]
                result@.contains_key(c) ==> chosen.contains_key(c) && c < g.classes@.len() && result@[c] == chosen[c]
                    && chosen[c] < g.nodes@.len() && g.nodes@[chosen[c] as int].eclass == c
                    && reaches(g, chosen, roots@, c),
            forall|k: int|
                0 <= k < todo@.len() ==> reaches(g, chosen, roots@, #[trigger] todo@[k]),
            forall|c: ClassId| #[trigger]
                roots@.contains(c) ==> result@.contains_key(c) || todo@.contains(c),
            forall|a: ClassId, b: ClassId|
                result@.contains_key(a) && #[trigger] edge(g, chosen, a, b)
                    ==> result@.contains_key(b) || todo@.contains(b),
            fixed.finite(),
            repaired == fixed.len(),
            forall|c: ClassId| #[trigger]
                fixed.contains(c) <==> result@.contains_key(c) && pref is Some && !usable(
                    g,
                    pref->0,
                    c,
                ),
        decreases known.difference(result@.dom()).len(), todo@.len(),
    {
        let ghost todo0 = todo@;
        let ghost result0 = result@;
        let cid: ClassId = todo[todo.len() - 1];
        todo.pop();
        proof {
            assert(todo0[todo0.len() - 1] == cid);
            assert(todo@ =~= todo0.drop_last());
            assert forall|c: ClassId| todo0.contains(c) implies c == cid
                || #[trigger] todo@.contains(c) by {
                let k = choose|k: int| 0 <= k < todo0.len() && todo0[k] == c;
                if k < todo0.len() - 1 {
                    assert(todo@[k] == c);
                }
            }
        }
        let ghost seen0 = id_set(seen);
        if !id_set_insert(&mut seen, cid) {
            proof {
                assert(result0.contains_key(cid));
            }
            continue;
        }
        proof {
            assert(!result0.contains_key(cid));
        }
        let (filled, off) = pick_node(egraph, cid, preferred, fallback);
        let pick: NodeId = match filled {
            Some(pick) => pick,
            None => {
                return Err(SeedError::Unfilled { class: cid });
            },
        };
        let ghost rest = todo@;
        proof {
            assert(chosen.contains_key(cid));
            assert(chosen[cid] == pick);
            assert(known.contains(cid));
            assert(todo@ =~= rest + child_classes(g, pick, 0));
        }
        let mut j: usize = 0;
        while j < egraph.nodes[pick].children.len()
            invariant
                egraph.wf(),
                g == *egraph,
                pick < g.nodes@.len(),
                chosen.contains_key(cid),
                chosen[cid] == pick,
                reaches(g, chosen, roots@, cid),
                j <= g.nodes@[pick as int].children@.len(),
                forall|k: int|
                    0 <= k < todo@.len() ==> reaches(g, chosen, roots@, #[trigger] todo@[k]),
                todo@ == rest + child_classes(g, pick, j as nat),
                forall|c: ClassId| rest.contains(c) ==> #[trigger] todo@.contains(c),
                forall|i: int| 0 <= i < j ==> todo@.contains(#[trigger] g.child_class(pick, i)),
            decreases g.nodes@[pick as int].children@.len() - j,
        {
            proof {
                g.lemma_child_class(pick, j as int);
                assert(g.nodes@[pick as int].children@[j as int] < g.nodes@.len());
                assert(edge(g, chosen, cid, g.child_class(pick, j as int)));
                selection::lemma_reaches_step(
                    g,
                    chosen,
                    roots@,
                    cid,
                    g.child_class(pick, j as int),
                );
            }
            let child: ClassId = egraph.nid_to_cid(egraph.nodes[pick].children[j]);
            let ghost before = todo@;
            todo.push(child);
            proof {
                assert(todo@ =~= rest + child_classes(g, pick, (j + 1) as nat));
                assert(todo@[before.len() as int] == child);
                assert forall|c: ClassId| before.contains(c) implies #[trigger] todo@.contains(
                c) by {
                    let k = choose|k: int| 0 <= k < before.len() && before[k] == c;
                    assert(todo@[k] == c);
                }
            }
            j += 1;
        }
        result.select(cid, pick);
        proof {
            assert(seen0.len() == id_set(seen).len() - 1);
            assert forall|c: ClassId| #[trigger] result@.contains_key(c) <==> id_set(
                seen,
            ).contains(c) by {
                assert(result0.contains_key(c) <==> seen0.contains(c));
                if seen0.contains(c) {
                    let k = choose|k: int| 0 <= k < seen0.len() && seen0[k] == c;
                    assert(id_set(seen)[k] == c);
                }
                assert(id_set(seen)[seen0.len() as int] == cid);
                if id_set(seen).contains(c) {
                    let k = choose|k: int| 0 <= k < id_set(seen).len() && id_set(seen)[k] == c;
                    if k < seen0.len() {
                        assert(seen0[k] == c);
                    }
                }
            }
            assert forall|a: ClassId, b: ClassId|
                result@.contains_key(a) && #[trigger] edge(
                    g,
                    chosen,
                    a,
                    b,
                ) implies result@.contains_key(b) || todo@.contains(b) by {
                if a == cid {
                    let i = choose|i: int|
                        0 <= i < g.nodes@[pick as int].children@.len() && g.child_class(pick, i)
                            == b;
                    assert(todo@.contains(g.child_class(pick, i)));
                } else {
                    assert(result0.contains_key(a));
                    if !result0.contains_key(b) && b != cid {
                        assert(todo0.contains(b));
                        assert(rest.contains(b));
                    }
                }
            }
            assert forall|c: ClassId| #[trigger] roots@.contains(c) implies result@.contains_key(c)
                || todo@.contains(c) by {
                if !result0.contains_key(c) && c != cid {
                    assert(todo0.contains(c));
                    assert(rest.contains(c));
                }
            }
            let left0 = known.difference(result0.dom());
            assert(!result0.contains_key(cid));
            assert(left0.contains(cid));
            assert(known.difference(result@.dom()) =~= left0.remove(cid));
            let open0 = chosen.dom().difference(result0.dom());
            assert(open0.contains(cid));
            assert(chosen.dom().difference(result@.dom()) =~= open0.remove(cid));
            assert(result@.dom() =~= result0.dom().insert(cid));
            steps = (steps - 1) as nat;
        }
        if off {
            proof {
                assert(!fixed.contains(cid));
                // No more classes can be repaired than there are.
                assert(fixed.insert(cid).subset_of(known)) by {
                    assert forall|c: ClassId| fixed.insert(cid).contains(c) implies known.contains(
                    c) by {
                        if c != cid {
                            assert(fixed.contains(c));
                        }
                    }
                }
                vstd::set_lib::lemma_len_subset(fixed.insert(cid), known);
                crate::extract::ilp::warm::lemma_below_len(g.classes@.len());
                fixed = fixed.insert(cid);
            }
            repaired += 1;
        }
    }
    proof {
        assert forall|c: ClassId| #[trigger] reaches(g, chosen, roots@, c) implies result@.contains_key(
        c) by {
            assert forall|r: ClassId| #[trigger] roots@.contains(r) implies result@.dom().contains(
            r) by {
                assert(result@.contains_key(r) || todo@.contains(r));
            }
            assert forall|a: ClassId, b: ClassId|
                result@.dom().contains(a) && #[trigger] edge(
                    g,
                    chosen,
                    a,
                    b,
                ) implies result@.dom().contains(b) by {
                assert(result@.contains_key(a));
                assert(result@.contains_key(b) || todo@.contains(b));
            }
            selection::lemma_reaches_closed(g, chosen, roots@, result@.dom(), c);
        }
        lemma_committed(g, chosen, result@, roots@);
        assert(repaired_classes(g, pref, fallback@, roots@) =~= fixed) by {
            assert forall|c: ClassId| repaired_classes(g, pref, fallback@, roots@).contains(c)
                <==> fixed.contains(c) by {
                assert(result@.contains_key(c) <==> reaches(g, chosen, roots@, c));
            }
        }
    }
    if result.find_cycles(egraph, roots).len() > 0 {
        return Err(SeedError::Cycle);
    }
    Ok(Seed { selection: result, repaired })
}

/// Only classes of the e-graph can be filled.
proof fn lemma_picks(
    g: EGraph,
    preferred: Option<Map<ClassId, NodeId>>,
    fallback: Map<ClassId, NodeId>,
)
    requires
        g.wf(),
        preferred matches Some(p) ==> nodes_known(g, p),
        nodes_known(g, fallback),
    ensures
        picks(g, preferred, fallback).dom().finite(),
        forall|c: ClassId| #[trigger]
            picks(g, preferred, fallback).contains_key(c) ==> c < g.classes@.len(),
{
    let known = Set::new(|x: ClassId| x < g.classes@.len());
    lemma_below_finite(g.classes@.len());
    let chosen = picks(g, preferred, fallback);
    assert forall|c: ClassId| #[trigger] chosen.contains_key(c) implies c < g.classes@.len() by {
        let n = chosen[c];
        assert(n < g.nodes@.len());
        assert(g.nodes@[n as int].eclass == c);
    }
    assert(chosen.dom().subset_of(known));
    vstd::set_lib::lemma_set_subset_finite(known, chosen.dom());
}

/// The picks below the roots, taken alone, reach what all picks reach.
proof fn lemma_committed(
    g: EGraph,
    chosen: Map<ClassId, NodeId>,
    sel: Map<ClassId, NodeId>,
    roots: Seq<ClassId>,
)
    requires
        forall|c: ClassId| #[trigger] sel.contains_key(c) <==> reaches(g, chosen, roots, c),
        forall|c: ClassId| #[trigger]
            sel.contains_key(c) ==> sel[c] == chosen[c] && chosen.contains_key(c) && chosen[c]
                < g.nodes@.len() && g.nodes@[chosen[c] as int].eclass == c,
    ensures
        in_class(g, sel),
        nodes_known(g, sel),
        covers(g, sel, roots),
        acyclic(g, sel, roots) <==> acyclic(g, chosen, roots),
{
    assert forall|x: ClassId| #[trigger] reaches(g, chosen, roots, x) implies chosen.contains_key(x)
        == sel.contains_key(x) && chosen[x] == sel[x] by {
        assert(sel.contains_key(x));
    }
    assert forall|c: ClassId| reaches(g, sel, roots, c) implies #[trigger] reaches(
        g,
        chosen,
        roots,
        c,
    ) by {
        let closed = Set::new(|x: ClassId| reaches(g, chosen, roots, x));
        assert forall|r: ClassId| #[trigger] roots.contains(r) implies closed.contains(r) by {
            selection::lemma_reaches_root(g, chosen, roots, r);
        }
        assert forall|a: ClassId, b: ClassId|
            closed.contains(a) && #[trigger] edge(g, sel, a, b) implies closed.contains(b) by {
            assert(sel.contains_key(a));
            assert(edge(g, chosen, a, b));
            selection::lemma_reaches_step(g, chosen, roots, a, b);
        }
        selection::lemma_reaches_closed(g, sel, roots, closed, c);
    }
    assert forall|c: ClassId| reaches(g, chosen, roots, c) implies #[trigger] reaches(
        g,
        sel,
        roots,
        c,
    ) by {
        selection::lemma_reaches_agree(g, chosen, sel, roots, c);
    }
    assert forall|c: ClassId| #[trigger] reaches(g, sel, roots, c) implies sel.contains_key(c) by {
        assert(reaches(g, chosen, roots, c));
    }
    if acyclic(g, sel, roots) {
        let rank = choose|rank: Map<ClassId, nat>| ranked(g, sel, roots, rank);
        assert forall|a: ClassId, b: ClassId|
            reaches(g, chosen, roots, a) && #[trigger] edge(g, chosen, a, b) implies Seq::<
            ClassId,
        >::empty().contains(b) || rank[b] < rank[a] by {
            assert(sel.contains_key(a));
            assert(reaches(g, sel, roots, a));
            assert(edge(g, sel, a, b));
        }
        assert(ranked(g, chosen, roots, rank));
    }
    if acyclic(g, chosen, roots) {
        let rank = choose|rank: Map<ClassId, nat>| ranked(g, chosen, roots, rank);
        assert forall|a: ClassId, b: ClassId|
            reaches(g, sel, roots, a) && #[trigger] edge(g, sel, a, b) implies Seq::<
            ClassId,
        >::empty().contains(b) || rank[b] < rank[a] by {
            assert(reaches(g, chosen, roots, a));
            assert(edge(g, chosen, a, b));
        }
        assert(ranked(g, sel, roots, rank));
    }
}

// ---------------------------------------------------------------------------
// Extraction
// ---------------------------------------------------------------------------

/// The options of an extractor. Asked to start from a supplied extraction, it
/// runs without a start where there is none.
pub open spec fn is_request(
    options: IlpOptions,
    timeout_seconds: u32,
    threads: u32,
    warm: WarmConfig,
    initial: Option<CompleteExtraction>,
) -> bool {
    &&& options.time_limit == limit_of_seconds(timeout_seconds)
    &&& options.threads == threads
    &&& options.warm_start == (if warm.mode is Initial && initial is None {
        WarmStart::Off
    } else {
        warm.mode
    })
    &&& options.solver_log is Some <==> warm.milp_log is Some
    &&& options.solver_log matches Some(path) ==> path@ == warm.milp_log->0@
    &&& options.raw_params@.len() == 0
}

/// What holds of every extraction: if the request is valid it is an outcome of
/// the solve, with what `warm` supplies, repaired, as the initial extraction;
/// else it is empty, and the report says why.
pub open spec fn extraction_holds<M: MilpModel>(
    g: EGraph,
    roots: Seq<ClassId>,
    objective: IlpObjective,
    timeout_seconds: u32,
    threads: u32,
    warm: WarmConfig,
    sel: Map<ClassId, NodeId>,
    report: SolveReport,
) -> bool {
    if roots.len() > 0 && has_extraction(g, roots) && amounts_valid(g, objective) {
        exists|initial: Option<CompleteExtraction>, options: IlpOptions|
            {
                &&& #[trigger] is_supplied(g, roots, warm.seed, initial)
                &&& #[trigger] is_request(options, timeout_seconds, threads, warm, initial)
                &&& is_outcome::<M>(g, roots, objective, options, initial, None, sel, report)
            }
    } else {
        &&& sel == Map::<ClassId, NodeId>::empty()
        &&& report.num_solves == 0
        &&& report.warm_start_requested == warm.mode
        &&& report.outcome matches SolveOutcome::Fallback { reason }
        &&& reason == (FallbackReason::Rejected {
            why: if roots.len() == 0 {
                Rejection::NoRoots
            } else if !amounts_valid(g, objective) {
                Rejection::InvalidInput
            } else {
                Rejection::NoValidExtraction
            },
        })
    }
}

fn rejection(e: &IlpError) -> (r: Rejection)
    ensures
        r == (match *e {
            IlpError::NoRoots => Rejection::NoRoots,
            IlpError::InvalidInput(_) => Rejection::InvalidInput,
            IlpError::MissingInitial(_) => Rejection::MissingInitial,
            IlpError::NoValidExtraction(_) => Rejection::NoValidExtraction,
            IlpError::NoSolution { .. } => Rejection::NoSolution,
        }),
{
    match e {
        IlpError::NoRoots => Rejection::NoRoots,
        IlpError::InvalidInput(_) => Rejection::InvalidInput,
        IlpError::MissingInitial(_) => Rejection::MissingInitial,
        IlpError::NoValidExtraction(_) => Rejection::NoValidExtraction,
        IlpError::NoSolution { .. } => Rejection::NoSolution,
    }
}

/// Member `k` is the first of the cheapest members of class `c`.
pub open spec fn is_cheapest(g: EGraph, c: ClassId, k: int) -> bool {
    let list = g.classes@[c as int].nodes@;
    &&& 0 <= k < list.len()
    &&& forall|q: int|
        0 <= q < list.len() ==> g.nodes@[list[k] as int].cost <= g.nodes@[(#[trigger] list[q]) as int].cost
            && (q < k ==> g.nodes@[list[k] as int].cost < g.nodes@[list[q] as int].cost)
}

/// Every class and its cheapest member.
pub open spec fn cheapest_choices(g: EGraph) -> Map<ClassId, NodeId> {
    Map::new(
        |c: ClassId| c < g.classes@.len(),
        |c: ClassId| g.classes@[c as int].nodes@[choose|k: int| is_cheapest(g, c, k)],
    )
}

pub proof fn lemma_cheapest_unique(g: EGraph, c: ClassId, k: int, q: int)
    requires
        is_cheapest(g, c, k),
        is_cheapest(g, c, q),
    ensures
        k == q,
{
    let list = g.classes@[c as int].nodes@;
    let a = list[k];
    let b = list[q];
}

fn cheapest_member(egraph: &EGraph, cid: ClassId) -> (r: NodeId)
    requires
        egraph.wf(),
        cid < egraph.classes@.len(),
    ensures
        exists|k: int| #[trigger]
            is_cheapest(*egraph, cid, k) && r == egraph.classes@[cid as int].nodes@[k],
{
    let ghost g = *egraph;
    let nodes: &Vec<NodeId> = &egraph.classes[cid].nodes;
    proof {
        assert(crate::egraph::lists_members(g.nodes@, cid as int, nodes@));
        assert(nodes@[0] < g.nodes@.len());
    }
    let mut best: usize = 0;
    let mut k: usize = 1;
    while k < nodes.len()
        invariant
            g == *egraph,
            nodes@ == g.classes@[cid as int].nodes@,
            crate::egraph::lists_members(g.nodes@, cid as int, nodes@),
            best < k <= nodes@.len(),
            forall|q: int|
                0 <= q < k ==> g.nodes@[nodes@[best as int] as int].cost <= g.nodes@[(
                #[trigger] nodes@[q]) as int].cost && (q < best
                    ==> g.nodes@[nodes@[best as int] as int].cost
                    < g.nodes@[nodes@[q] as int].cost),
        decreases nodes@.len() - k,
    {
        assert(nodes@[k as int] < g.nodes@.len());
        assert(nodes@[best as int] < g.nodes@.len());
        if egraph.nodes[nodes[k]].cost < egraph.nodes[nodes[best]].cost {
            best = k;
        }
        k += 1;
    }
    assert(is_cheapest(g, cid, best as int));
    nodes[best]
}

/// [`cheapest_choices`].
fn cheapest_members(egraph: &EGraph) -> (r: ExtractionResult)
    requires
        egraph.wf(),
    ensures
        r@ == cheapest_choices(*egraph),
        nodes_known(*egraph, r@),
        forall|c: ClassId| c < egraph.classes@.len() ==> #[trigger] usable(*egraph, r@, c),
{
    let ghost g = *egraph;
    let n: usize = egraph.classes.len();
    let mut r: ExtractionResult = ExtractionResult::default();
    let mut c: usize = 0;
    while c < n
        invariant
            egraph.wf(),
            g == *egraph,
            n == g.classes@.len(),
            c <= n,
            forall|d: ClassId| #[trigger] r@.contains_key(d) <==> d < c,
            forall|d: ClassId| #[trigger]
                r@.contains_key(d) ==> r@[d] == cheapest_choices(g)[d] && r@[d] < g.nodes@.len()
                    && g.nodes@[r@[d] as int].eclass == d,
        decreases n - c,
    {
        let nid: NodeId = cheapest_member(egraph, c);
        proof {
            let k = choose|k: int| #[trigger]
                is_cheapest(g, c, k) && nid == g.classes@[c as int].nodes@[k];
            lemma_cheapest_unique(g, c, k, choose|k: int| is_cheapest(g, c, k));
            assert(crate::egraph::lists_members(g.nodes@, c as int, g.classes@[c as int].nodes@));
            assert(g.classes@[c as int].nodes@[k] < g.nodes@.len());
        }
        r.select(c, nid);
        c += 1;
    }
    assert(r@ =~= cheapest_choices(g));
    r
}

/// A supplied extraction, repaired with cheapest members.
pub open spec fn repaired_choices(g: EGraph, seed: Map<ClassId, NodeId>) -> Map<ClassId, NodeId> {
    picks(g, Some(seed), cheapest_choices(g))
}

/// `e` is the initial extraction that a supplied one amounts to: what its
/// repaired choices reach from the roots, unless that contains a cycle.
pub open spec fn is_supplied(
    g: EGraph,
    roots: Seq<ClassId>,
    seed: Option<ExtractionResult>,
    e: Option<CompleteExtraction>,
) -> bool {
    &&& e is Some <==> {
        &&& seed is Some
        &&& roots.len() > 0
        &&& acyclic(g, repaired_choices(g, seed->0@), roots)
    }
    &&& e matches Some(initial) ==> {
        let chosen = repaired_choices(g, seed->0@);
        &&& valid(g, initial@, roots)
        &&& forall|c: ClassId| #[trigger]
            initial@.contains_key(c) <==> reaches(g, chosen, roots, c)
        &&& forall|c: ClassId| #[trigger] initial@.contains_key(c) ==> initial@[c] == chosen[c]
    }
}

/// The supplied extraction, repaired with cheapest members where the e-graph
/// no longer has what it chooses; nothing if that leaves a cycle.
fn supplied(egraph: &EGraph, roots: &[ClassId], seed: &Option<ExtractionResult>) -> (r: Option<
    CompleteExtraction,
>)
    requires
        egraph.wf(),
        roots_known(*egraph, roots@),
        *seed matches Some(s) ==> nodes_known(*egraph, s@),
    ensures
        is_supplied(*egraph, roots@, *seed, r),
{
    match seed {
        Some(preferred) => {
            let cheapest: ExtractionResult = cheapest_members(egraph);
            proof {
                lemma_repaired_covers(*egraph, preferred@, roots@);
            }
            match build_seed(egraph, roots, Some(preferred), &cheapest) {
                Ok(seed) => match CompleteExtraction::try_new(seed.selection, egraph, roots) {
                    Ok(e) => Some(e),
                    Err(_) => None,
                },
                Err(_) => None,
            }
        },
        None => None,
    }
}

/// Repaired choices leave no class below the roots without one.
proof fn lemma_repaired_covers(g: EGraph, seed: Map<ClassId, NodeId>, roots: Seq<ClassId>)
    requires
        g.wf(),
        roots_known(g, roots),
        nodes_known(g, seed),
        nodes_known(g, cheapest_choices(g)),
        forall|c: ClassId|
            c < g.classes@.len() ==> #[trigger] usable(g, cheapest_choices(g), c),
    ensures
        covers(g, repaired_choices(g, seed), roots),
{
    let chosen = repaired_choices(g, seed);
    let known = Set::new(|x: ClassId| x < g.classes@.len());
    assert forall|c: ClassId| #[trigger] reaches(g, chosen, roots, c) implies chosen.contains_key(
    c) by {
        assert forall|r: ClassId| #[trigger] roots.contains(r) implies known.contains(r) by {
            let i = choose|i: int| 0 <= i < roots.len() && roots[i] == r;
            assert(roots[i] < g.classes@.len());
        }
        assert forall|a: ClassId, b: ClassId|
            known.contains(a) && #[trigger] edge(g, chosen, a, b) implies known.contains(b) by {
            assert(chosen[a] < g.nodes@.len());
            g.lemma_depends(chosen[a], b);
        }
        selection::lemma_reaches_closed(g, chosen, roots, known, c);
        assert(usable(g, cheapest_choices(g), c));
    }
}

/// Solves under `objective`. The supplied seed, repaired onto this e-graph, is
/// the initial extraction; [`WarmStart::Initial`] without one runs with no
/// start.
fn run<M: MilpModel, C: Clock>(
    egraph: &EGraph,
    roots: &[ClassId],
    objective: IlpObjective,
    timeout_seconds: u32,
    threads: u32,
    warm: &WarmConfig,
    clock: &C,
) -> (r: (ExtractionResult, SolveReport))
    requires
        egraph.wf(),
        roots_known(*egraph, roots@),
        warm.seed matches Some(s) ==> nodes_known(*egraph, s@),
        objective.resolved(),
    ensures
        extraction_holds::<M>(
            *egraph,
            roots@,
            objective,
            timeout_seconds,
            threads,
            *warm,
            r.0@,
            r.1,
        ),
        r.1.model@ == objective.label(),
        r.1.threads == threads,
        r.1.time_limit == limit_of_seconds(timeout_seconds),
{
    let initial: Option<CompleteExtraction> = supplied(egraph, roots, &warm.seed);
    let warm_start: WarmStart = match warm.mode {
        WarmStart::Initial => if initial.is_some() {
            WarmStart::Initial
        } else {
            WarmStart::Off
        },
        mode => mode,
    };
    let options: IlpOptions = IlpOptions {
        time_limit: time_limit_from_seconds(timeout_seconds),
        threads,
        warm_start,
        solver_log: warm.milp_log.clone(),
        raw_params: Vec::new(),
    };
    let ghost start = initial;
    proof {
        assert(resolves_to(*egraph, roots@, objective, initial, objective));
        assert(is_request(options, timeout_seconds, threads, *warm, start));
        assert(is_supplied(*egraph, roots@, warm.seed, start));
    }
    match solve_with_initial::<M, C>(egraph, roots, objective, &options, initial, None, clock) {
        Ok(outcome) => {
            proof {
                assert(valid(*egraph, outcome.extraction@, roots@));
            }
            (outcome.extraction.into_inner(), outcome.report)
        },
        Err(e) => {
            let backend: M = M::new();
            let mut report: SolveReport = SolveReport::new(
                backend.backend_name(),
                objective.name(),
                threads,
                options.time_limit,
                warm.mode,
            );
            report.outcome = SolveOutcome::Fallback {
                reason: FallbackReason::Rejected { why: rejection(&e) },
            };
            (ExtractionResult::default(), report)
        },
    }
}

/// The size ILP extractor with a time limit that is part of its type.
pub struct IlpExtractorWithTimeout<const TIMEOUT_IN_SECONDS: u32>;

/// [`IlpExtractorWithTimeout`], under its former name.
pub type CbcExtractorWithTimeout<const TIMEOUT_IN_SECONDS: u32> =
    IlpExtractorWithTimeout<TIMEOUT_IN_SECONDS>;

impl<const TIMEOUT_IN_SECONDS: u32> IlpExtractorWithTimeout<TIMEOUT_IN_SECONDS> {
    pub fn new() -> (r: Self)
        ensures
            r == IlpExtractorWithTimeout::<TIMEOUT_IN_SECONDS>,
    {
        IlpExtractorWithTimeout
    }

    /// A smallest extraction, on one thread and without a start.
    pub fn extract_with<M: MilpModel, C: Clock>(
        &self,
        egraph: &EGraph,
        roots: &[ClassId],
        clock: &C,
    ) -> (r: ExtractionResult)
        requires
            egraph.wf(),
            roots_known(*egraph, roots@),
        ensures
            exists|report: SolveReport| #[trigger]
                extraction_holds::<M>(
                    *egraph,
                    roots@,
                    IlpObjective::Size,
                    TIMEOUT_IN_SECONDS,
                    1,
                    unwarmed(),
                    r@,
                    report,
                ),
    {
        let (extraction, report) = run::<M, C>(
            egraph,
            roots,
            IlpObjective::Size,
            TIMEOUT_IN_SECONDS,
            1,
            &WarmConfig::default(),
            clock,
        );
        extraction
    }
}

/// The size ILP extractor.
pub struct IlpExtractor {
    /// Solver time limit in seconds (`u32::MAX` for unbounded).
    pub timeout_seconds: u32,
    /// Solver threads for each solve.
    pub threads: u32,
    /// Warm start and solver log.
    pub warm: WarmConfig,
}

/// [`IlpExtractor`], under its former name.
pub type CbcExtractor = IlpExtractor;

impl Default for IlpExtractor {
    /// No time limit, one thread, no start and no log.
    fn default() -> (r: Self)
        ensures
            r.timeout_seconds == u32::MAX,
            r.threads == 1,
            r.warm == unwarmed(),
    {
        IlpExtractor { timeout_seconds: u32::MAX, threads: 1, warm: WarmConfig::default() }
    }
}

impl IlpExtractor {
    /// The extraction of [`Self::extract_with_report`].
    pub fn extract_with<M: MilpModel, C: Clock>(
        &self,
        egraph: &EGraph,
        roots: &[ClassId],
        clock: &C,
    ) -> (r: ExtractionResult)
        requires
            egraph.wf(),
            roots_known(*egraph, roots@),
            self.warm.seed matches Some(s) ==> nodes_known(*egraph, s@),
        ensures
            exists|report: SolveReport| #[trigger]
                extraction_holds::<M>(
                    *egraph,
                    roots@,
                    IlpObjective::Size,
                    self.timeout_seconds,
                    self.threads,
                    self.warm,
                    r@,
                    report,
                ),
    {
        let (extraction, report) = self.extract_with_report::<M, C>(egraph, roots, clock);
        extraction
    }

    /// A smallest extraction, and how it was obtained.
    pub fn extract_with_report<M: MilpModel, C: Clock>(
        &self,
        egraph: &EGraph,
        roots: &[ClassId],
        clock: &C,
    ) -> (r: (ExtractionResult, SolveReport))
        requires
            egraph.wf(),
            roots_known(*egraph, roots@),
            self.warm.seed matches Some(s) ==> nodes_known(*egraph, s@),
        ensures
            extraction_holds::<M>(
                *egraph,
                roots@,
                IlpObjective::Size,
                self.timeout_seconds,
                self.threads,
                self.warm,
                r.0@,
                r.1,
            ),
            r.1.model@ == IlpObjective::Size.label(),
            r.1.threads == self.threads,
            r.1.time_limit == limit_of_seconds(self.timeout_seconds),
    {
        run::<M, C>(
            egraph,
            roots,
            IlpObjective::Size,
            self.timeout_seconds,
            self.threads,
            &self.warm,
            clock,
        )
    }
}

/// The joint depth and size ILP extractor.
pub struct DualIlpExtractor {
    /// Solver time limit in seconds (`u32::MAX` for unbounded).
    pub timeout_seconds: u32,
    /// Weight of the depth.
    pub alpha: Cost,
    /// Weight of the size.
    pub beta: Cost,
    /// Solver threads for each solve.
    pub threads: u32,
    /// Warm start and solver log.
    pub warm: WarmConfig,
}

/// [`DualIlpExtractor`], under its former name.
pub type DualCbcExtractor = DualIlpExtractor;

impl Default for DualIlpExtractor {
    /// Depth and size alike; no time limit, one thread, no start and no log.
    fn default() -> (r: Self)
        ensures
            r.timeout_seconds == u32::MAX,
            r.alpha == ONE,
            r.beta == ONE,
            r.threads == 1,
            r.warm == unwarmed(),
    {
        DualIlpExtractor {
            timeout_seconds: u32::MAX,
            alpha: ONE,
            beta: ONE,
            threads: 1,
            warm: WarmConfig::default(),
        }
    }
}

impl DualIlpExtractor {
    /// What is minimised: `beta * size + alpha * depth`.
    pub open spec fn objective(&self) -> IlpObjective {
        IlpObjective::WeightedSizeDepth { size_weight: self.beta, depth_weight: self.alpha }
    }

    /// The extraction of [`Self::extract_with_report`].
    pub fn extract_with<M: MilpModel, C: Clock>(
        &self,
        egraph: &EGraph,
        roots: &[ClassId],
        clock: &C,
    ) -> (r: ExtractionResult)
        requires
            egraph.wf(),
            roots_known(*egraph, roots@),
            self.warm.seed matches Some(s) ==> nodes_known(*egraph, s@),
        ensures
            exists|report: SolveReport| #[trigger]
                extraction_holds::<M>(
                    *egraph,
                    roots@,
                    self.objective(),
                    self.timeout_seconds,
                    self.threads,
                    self.warm,
                    r@,
                    report,
                ),
    {
        let (extraction, report) = self.extract_with_report::<M, C>(egraph, roots, clock);
        extraction
    }

    /// An extraction of the least weighted sum, and how it was obtained.
    pub fn extract_with_report<M: MilpModel, C: Clock>(
        &self,
        egraph: &EGraph,
        roots: &[ClassId],
        clock: &C,
    ) -> (r: (ExtractionResult, SolveReport))
        requires
            egraph.wf(),
            roots_known(*egraph, roots@),
            self.warm.seed matches Some(s) ==> nodes_known(*egraph, s@),
        ensures
            extraction_holds::<M>(
                *egraph,
                roots@,
                self.objective(),
                self.timeout_seconds,
                self.threads,
                self.warm,
                r.0@,
                r.1,
            ),
            r.1.model@ == self.objective().label(),
            r.1.threads == self.threads,
            r.1.time_limit == limit_of_seconds(self.timeout_seconds),
    {
        let objective: IlpObjective = IlpObjective::WeightedSizeDepth {
            size_weight: self.beta,
            depth_weight: self.alpha,
        };
        run::<M, C>(
            egraph,
            roots,
            objective,
            self.timeout_seconds,
            self.threads,
            &self.warm,
            clock,
        )
    }
}

/// The ILP extractor of a smallest extraction of at most some depth.
pub struct DelayBudgetIlpExtractor {
    /// Solver time limit in seconds (`u32::MAX` for unbounded).
    pub timeout_seconds: u32,
    /// Upper bound of the depth.
    pub max_delay: Cost,
    /// Solver threads for each solve.
    pub threads: u32,
    /// Warm start and solver log.
    pub warm: WarmConfig,
}

/// [`DelayBudgetIlpExtractor`], under its former name.
pub type DelayBudgetCbcExtractor = DelayBudgetIlpExtractor;

impl Default for DelayBudgetIlpExtractor {
    /// No bound, which is not a valid one; no time limit, one thread, no start
    /// and no log.
    fn default() -> (r: Self)
        ensures
            r.timeout_seconds == u32::MAX,
            r.max_delay == INFINITY,
            r.threads == 1,
            r.warm == unwarmed(),
    {
        DelayBudgetIlpExtractor {
            timeout_seconds: u32::MAX,
            max_delay: INFINITY,
            threads: 1,
            warm: WarmConfig::default(),
        }
    }
}

impl DelayBudgetIlpExtractor {
    /// What is minimised: the size, at a depth of at most `max_delay`.
    pub open spec fn objective(&self) -> IlpObjective {
        IlpObjective::SizeConstrainedDepth { depth_budget: DepthBudget::Fixed(self.max_delay) }
    }

    /// The extraction of [`Self::extract_with_report`].
    pub fn extract_with<M: MilpModel, C: Clock>(
        &self,
        egraph: &EGraph,
        roots: &[ClassId],
        clock: &C,
    ) -> (r: ExtractionResult)
        requires
            egraph.wf(),
            roots_known(*egraph, roots@),
            self.warm.seed matches Some(s) ==> nodes_known(*egraph, s@),
        ensures
            exists|report: SolveReport| #[trigger]
                extraction_holds::<M>(
                    *egraph,
                    roots@,
                    self.objective(),
                    self.timeout_seconds,
                    self.threads,
                    self.warm,
                    r@,
                    report,
                ),
    {
        let (extraction, report) = self.extract_with_report::<M, C>(egraph, roots, clock);
        extraction
    }

    /// A smallest extraction within the bound, and how it was obtained.
    pub fn extract_with_report<M: MilpModel, C: Clock>(
        &self,
        egraph: &EGraph,
        roots: &[ClassId],
        clock: &C,
    ) -> (r: (ExtractionResult, SolveReport))
        requires
            egraph.wf(),
            roots_known(*egraph, roots@),
            self.warm.seed matches Some(s) ==> nodes_known(*egraph, s@),
        ensures
            extraction_holds::<M>(
                *egraph,
                roots@,
                self.objective(),
                self.timeout_seconds,
                self.threads,
                self.warm,
                r.0@,
                r.1,
            ),
            r.1.model@ == self.objective().label(),
            r.1.threads == self.threads,
            r.1.time_limit == limit_of_seconds(self.timeout_seconds),
    {
        let objective: IlpObjective = IlpObjective::SizeConstrainedDepth {
            depth_budget: DepthBudget::Fixed(self.max_delay),
        };
        run::<M, C>(
            egraph,
            roots,
            objective,
            self.timeout_seconds,
            self.threads,
            &self.warm,
            clock,
        )
    }
}

} // verus!
