//! The candidate extractions an ILP solve can fall back on, and the rule for
//! picking between them. The same pick seeds the greedy warm start, so the
//! seed and the fallback can never disagree.
use crate::cost::Cost;
use crate::egraph::{ClassId, EGraph, NodeId};
use crate::extract::greedy::depth::delays_non_negative;
use crate::extract::ilp::objective::{is_greedy, CandidateName, IlpObjective};
use crate::extract::measure::lemma_roots_of_valid;
use crate::extract::selection::{dag_depth_of, valid};
use crate::extract::{CompleteExtraction, ExtractionError};
use vstd::prelude::*;

verus! {

/// An extraction that could be returned.
pub struct Candidate {
    pub name: CandidateName,
    pub extraction: CompleteExtraction,
    /// The value of the objective for `extraction`.
    pub objective: Cost,
    /// The depth of `extraction`.
    pub depth: Cost,
}

impl Candidate {
    /// The extraction is valid and the figures are its own.
    pub open spec fn describes(
        &self,
        g: EGraph,
        roots: Seq<ClassId>,
        objective: IlpObjective,
    ) -> bool {
        &&& valid(g, self.extraction@, roots)
        &&& self.objective == objective.value_of(g, self.extraction@, roots)
        &&& self.depth == dag_depth_of(g, self.extraction@, roots)
    }

    fn new(
        name: CandidateName,
        extraction: CompleteExtraction,
        egraph: &EGraph,
        roots: &[ClassId],
        objective: IlpObjective,
    ) -> (r: Self)
        requires
            egraph.wf(),
            valid(*egraph, extraction@, roots@),
        ensures
            r.name == name,
            r.extraction == extraction,
            r.describes(*egraph, roots@, objective),
    {
        proof {
            lemma_roots_of_valid(*egraph, extraction@, roots@);
        }
        let value: Cost = objective.evaluate(egraph, roots, &extraction);
        let depth: Cost = extraction.as_result().dag_depth(egraph, roots);
        Candidate { name, extraction, objective: value, depth }
    }
}

/// Some extraction of the roots is valid.
pub open spec fn has_extraction(g: EGraph, roots: Seq<ClassId>) -> bool {
    exists|sel: Map<ClassId, NodeId>| #[trigger] valid(g, sel, roots)
}

/// Some class that is needed has no extraction.
pub open spec fn is_hopeless(g: EGraph, why: ExtractionError) -> bool {
    why matches ExtractionError::NoChoice { class } && !has_extraction(g, seq![class])
}

/// The initial extraction (if any), then the objective's greedy extraction if
/// `with_greedy`. The error says why there is none at all.
pub fn candidates(
    egraph: &EGraph,
    roots: &[ClassId],
    objective: IlpObjective,
    initial: Option<CompleteExtraction>,
    with_greedy: bool,
) -> (r: Result<Vec<Candidate>, ExtractionError>)
    requires
        egraph.wf(),
        roots@.len() > 0,
        initial matches Some(e) ==> valid(*egraph, e@, roots@),
    ensures
        r is Err <==> with_greedy && !has_extraction(*egraph, roots@),
        r matches Err(why) ==> is_hopeless(*egraph, why),
        r matches Ok(found) ==> {
            let from_initial: nat = if initial is Some {
                1
            } else {
                0
            };
            let from_greedy: nat = if with_greedy {
                1
            } else {
                0
            };
            &&& found@.len() == from_initial + from_greedy
            &&& forall|i: int|
                0 <= i < found@.len() ==> (#[trigger] found@[i]).describes(
                    *egraph,
                    roots@,
                    objective,
                )
            &&& initial matches Some(e) ==> found@[0].name == CandidateName::Initial
                && found@[0].extraction@ == e@
            &&& with_greedy ==> found@.last().name == objective.greedy() && is_greedy(
                *egraph,
                objective.greedy(),
                found@.last().extraction@,
            )
            &&& with_greedy && objective.greedy() is GreedyDepth && delays_non_negative(*egraph)
                ==> forall|sel: Map<ClassId, NodeId>| #[trigger]
                valid(*egraph, sel, roots@) ==> found@.last().depth <= dag_depth_of(
                    *egraph,
                    sel,
                    roots@,
                )
        },
{
    let ghost g = *egraph;
    let mut found: Vec<Candidate> = Vec::new();
    if let Some(e) = initial {
        proof {
            assert(valid(g, e@, roots@));
        }
        found.push(Candidate::new(CandidateName::Initial, e, egraph, roots, objective));
    }
    if !with_greedy {
        return Ok(found);
    }
    let (name, result) = objective.greedy_extractor(egraph, roots);
    match CompleteExtraction::try_new(result, egraph, roots) {
        Ok(e) => {
            let ghost before = found@;
            found.push(Candidate::new(name, e, egraph, roots, objective));
            proof {
                assert(valid(g, e@, roots@));
                assert forall|i: int| 0 <= i < found@.len() implies (
                #[trigger] found@[i]).describes(g, roots@, objective) by {
                    if i < before.len() {
                        assert(found@[i] == before[i]);
                    }
                }
            }
            Ok(found)
        },
        Err(why) => {
            // Greedy finds a valid extraction whenever one exists.
            proof {
                if has_extraction(g, roots@) {
                    let sel = choose|sel: Map<ClassId, NodeId>| #[trigger] valid(g, sel, roots@);
                    assert(valid(g, result@, roots@));
                }
            }
            Err(why)
        },
    }
}

/// What candidates are compared by.
pub open spec fn key_of(c: Candidate, by_depth: bool) -> Cost {
    if by_depth {
        c.depth
    } else {
        c.objective
    }
}

/// The candidate is within the limit.
pub open spec fn within_limit(c: Candidate, limit: Option<Cost>) -> bool {
    limit matches Some(b) ==> c.depth <= b
}

/// Candidate `i` is the first of the lowest among those within the limit.
pub open spec fn first_lowest(
    candidates: Seq<Candidate>,
    by_depth: bool,
    limit: Option<Cost>,
    i: int,
) -> bool {
    &&& 0 <= i < candidates.len()
    &&& within_limit(candidates[i], limit)
    &&& forall|j: int|
        0 <= j < candidates.len() && within_limit(#[trigger] candidates[j], limit) ==> {
            &&& key_of(candidates[i], by_depth) <= key_of(candidates[j], by_depth)
            &&& j < i ==> key_of(candidates[i], by_depth) < key_of(candidates[j], by_depth)
        }
}

/// Some candidate is within the limit.
pub open spec fn any_within(candidates: Seq<Candidate>, limit: Option<Cost>) -> bool {
    exists|j: int| 0 <= j < candidates.len() && within_limit(#[trigger] candidates[j], limit)
}

fn lowest(candidates: &Vec<Candidate>, by_depth: bool, limit: Option<Cost>) -> (r: Option<usize>)
    ensures
        r matches Some(i) ==> first_lowest(candidates@, by_depth, limit, i as int),
        r is None <==> !any_within(candidates@, limit),
{
    let mut best: Option<usize> = None;
    let mut j: usize = 0;
    while j < candidates.len()
        invariant
            j <= candidates@.len(),
            best matches Some(i) ==> i < j && first_lowest(
                candidates@.take(j as int),
                by_depth,
                limit,
                i as int,
            ),
            best is None ==> forall|k: int|
                0 <= k < j ==> !within_limit(#[trigger] candidates@[k], limit),
        decreases candidates@.len() - j,
    {
        let within: bool = match limit {
            Some(b) => candidates[j].depth <= b,
            None => true,
        };
        let key: Cost = if by_depth {
            candidates[j].depth
        } else {
            candidates[j].objective
        };
        let ghost before = candidates@.take(j as int);
        let ghost after = candidates@.take(j + 1);
        let ghost old_best = best;
        proof {
            assert(forall|k: int| 0 <= k < j ==> before[k] == after[k]);
            assert(after[j as int] == candidates@[j as int]);
            assert forall|k: int| 0 <= k < j implies candidates@[k] == before[k] by {}
        }
        if within {
            match best {
                Some(i) => {
                    let best_key: Cost = if by_depth {
                        candidates[i].depth
                    } else {
                        candidates[i].objective
                    };
                    if key < best_key {
                        best = Some(j);
                    }
                },
                None => {
                    best = Some(j);
                },
            }
        }
        proof {
            if let Some(i) = best {
                assert(first_lowest(after, by_depth, limit, i as int)) by {
                    assert forall|k: int|
                        0 <= k < after.len() && within_limit(
                            #[trigger] after[k],
                            limit,
                        ) implies key_of(after[i as int], by_depth) <= key_of(after[k], by_depth)
                        && (k < i ==> key_of(after[i as int], by_depth) < key_of(
                        after[k],
                        by_depth,
                    )) by {
                        if k < j {
                            assert(before[k] == after[k]);
                            assert(candidates@[k] == before[k]);
                            if let Some(o) = old_best {
                                assert(within_limit(before[k], limit));
                                assert(key_of(before[o as int], by_depth) <= key_of(
                                    before[k],
                                    by_depth,
                                ));
                            }
                        }
                    }
                }
            }
        }
        j += 1;
    }
    proof {
        assert(candidates@.take(candidates@.len() as int) =~= candidates@);
        if best is None {
            assert(!any_within(candidates@, limit));
        } else {
            let i = best->0;
            assert(within_limit(candidates@[i as int], limit));
        }
    }
    best
}

/// The rule for picking: the first lowest by the objective; with a budget,
/// among the candidates within it; if none is, the first of the shallowest,
/// flagged as violating the budget.
pub open spec fn is_best(
    objective: IlpObjective,
    candidates: Seq<Candidate>,
    r: Option<(usize, bool)>,
) -> bool {
    match r {
        None => candidates.len() == 0,
        Some((i, violated)) => if any_within(candidates, objective.limit()) {
            !violated && first_lowest(candidates, false, objective.limit(), i as int)
        } else {
            violated && first_lowest(candidates, true, None, i as int)
        },
    }
}

/// Index of the best candidate under `objective`, and whether it violates the
/// depth budget; `None` if there are no candidates. Ties go to the earlier
/// candidate, i.e. the initial one.
pub fn best(objective: IlpObjective, candidates: &Vec<Candidate>) -> (r: Option<(usize, bool)>)
    requires
        objective.resolved(),
    ensures
        is_best(objective, candidates@, r),
        r is None <==> candidates@.len() == 0,
        r matches Some((i, violated)) ==> i < candidates@.len(),
{
    match lowest(candidates, false, objective.budget_value()) {
        Some(i) => {
            proof {
                assert(within_limit(candidates@[i as int], objective.limit()));
            }
            Some((i, false))
        },
        None => match lowest(candidates, true, None) {
            Some(i) => Some((i, true)),
            None => {
                proof {
                    if candidates@.len() > 0 {
                        assert(within_limit(candidates@[0], None));
                    }
                }
                None
            },
        },
    }
}

/// A fallback that is not flagged meets the budget, and is worth no more than
/// any other candidate that does.
pub proof fn best_meets_budget(
    objective: IlpObjective,
    candidates: Seq<Candidate>,
    i: usize,
    j: int,
)
    requires
        is_best(objective, candidates, Some((i, false))),
        0 <= j < candidates.len(),
        within_limit(candidates[j], objective.limit()),
    ensures
        within_limit(candidates[i as int], objective.limit()),
        candidates[i as int].objective <= candidates[j].objective,
{
}

/// A fallback is flagged only if no candidate meets the budget, and is then
/// the shallowest of them.
pub proof fn flagged_is_shallowest(
    objective: IlpObjective,
    candidates: Seq<Candidate>,
    i: usize,
    j: int,
)
    requires
        is_best(objective, candidates, Some((i, true))),
        0 <= j < candidates.len(),
    ensures
        !within_limit(candidates[j], objective.limit()),
        candidates[i as int].depth <= candidates[j].depth,
{
    assert(within_limit(candidates[j], None));
}

} // verus!
