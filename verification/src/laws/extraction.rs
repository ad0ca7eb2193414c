//! What the extractors extract, and from what they start.
use crate::collections::{id_map, num_map};
use crate::cost::{is_weight, plus, Cost, INFINITY};
use crate::egraph::{ClassId, EGraph, NodeId};
use crate::extract::faster_ilp_cbc::{FasterIlpExtractor, WarmConfig};
use crate::extract::ilp::objective::{DepthBudget, IlpObjective};
use crate::extract::ilp::fallback::has_extraction;
use crate::extract::ilp::options::{IlpOptions, WarmStart};
use crate::extract::ilp::outcome::{is_honest, optimal_outcome_is_optimal};
use crate::extract::ilp::report::{FallbackReason, Rejection, SolveOutcome, SolveReport};
use crate::extract::ilp::seeding::figures_fit;
use crate::extract::ilp::solve;
use crate::extract::ilp::solve::{
    amounts_valid, answers, is_initial, is_outcome, Clock, IlpError, IlpOutcome, MissingInitial,
};
use crate::extract::ilp::warm::{arrival_times, topological_levels, TimingError};
use crate::extract::ilp::{
    DepthExtractor, SizeConstrainedDepthExtractor, SizeExtractor, WeightedSizeDepthExtractor,
};
use crate::extract::ilp_cbc;
use crate::extract::ilp_cbc::{
    build_seed, cheapest_choices, is_cheapest, is_request, is_supplied, lemma_cheapest_unique,
    repaired_choices, DelayBudgetIlpExtractor, DualIlpExtractor, IlpExtractor,
    IlpExtractorWithTimeout, Seed, SeedError,
};
use crate::extract::selection;
use crate::extract::selection::{dag_depth_of, dag_size, edge, reaches, valid};
use crate::extract::{CompleteExtraction, ExtractionResult};
use crate::laws::measures::{children_of, edges_lead_to_children};
use crate::laws::outcomes::{
    answers_are_valid_and_no_worse_than_the_fallback, fixed_budget, is_sound_amount,
};
use crate::milp::MilpModel;
use indexmap::IndexMap;
use vstd::prelude::*;

verus! {

// ---------------------------------------------------------------------------
// Requests
// ---------------------------------------------------------------------------

/// Each extractor solves for its own objective: size, depth, size within its budget, or
/// size and depth by its weights, in that order.
pub proof fn extractors_solve_for_their_objective<M: MilpModel, C: Clock>(
    g: EGraph,
    roots: &[ClassId],
    clock: C,
    size: SizeExtractor,
    depth: DepthExtractor,
    budget: SizeConstrainedDepthExtractor,
    both: WeightedSizeDepthExtractor,
    r: Result<IlpOutcome, IlpError>,
)
    ensures
        call_ensures(SizeExtractor::solve_with::<M, C>, (&size, &g, roots, &clock), r)
            ==> answers::<M>(g, roots@, IlpObjective::Size, size.options, r),
        call_ensures(DepthExtractor::solve_with::<M, C>, (&depth, &g, roots, &clock), r)
            ==> answers::<M>(g, roots@, IlpObjective::Depth, depth.options, r),
        call_ensures(
            SizeConstrainedDepthExtractor::solve_with::<M, C>,
            (&budget, &g, roots, &clock),
            r,
        ) ==> answers::<M>(
            g,
            roots@,
            IlpObjective::SizeConstrainedDepth { depth_budget: budget.depth_budget },
            budget.options,
            r,
        ),
        call_ensures(
            WeightedSizeDepthExtractor::solve_with::<M, C>,
            (&both, &g, roots, &clock),
            r,
        ) ==> answers::<M>(
            g,
            roots@,
            IlpObjective::WeightedSizeDepth {
                size_weight: both.size_weight,
                depth_weight: both.depth_weight,
            },
            both.options,
            r,
        ),
{
}

/// The CBC extractors weigh size by `beta` and depth by `alpha`, and bound the depth by
/// `max_delay`.
pub proof fn cbc_extractors_have_their_objective<M: MilpModel, C: Clock>(
    g: EGraph,
    roots: &[ClassId],
    clock: C,
    dual: DualIlpExtractor,
    bounded: DelayBudgetIlpExtractor,
    r: (ExtractionResult, SolveReport),
)
    ensures
        call_ensures(
            DualIlpExtractor::extract_with_report::<M, C>,
            (&dual, &g, roots, &clock),
            r,
        ) ==> ilp_cbc::extraction_holds::<M>(
            g,
            roots@,
            IlpObjective::WeightedSizeDepth { size_weight: dual.beta, depth_weight: dual.alpha },
            dual.timeout_seconds,
            dual.threads,
            dual.warm,
            r.0@,
            r.1,
        ),
        call_ensures(
            DelayBudgetIlpExtractor::extract_with_report::<M, C>,
            (&bounded, &g, roots, &clock),
            r,
        ) ==> ilp_cbc::extraction_holds::<M>(
            g,
            roots@,
            IlpObjective::SizeConstrainedDepth {
                depth_budget: DepthBudget::Fixed(bounded.max_delay),
            },
            bounded.timeout_seconds,
            bounded.threads,
            bounded.warm,
            r.0@,
            r.1,
        ),
{
}

/// With a solver that is right whenever it calls a solution optimal, an answer that is
/// called optimal is one: no other extraction is smaller, or less deep, or smaller within
/// the budget, which the answer keeps, or of a smaller weighted sum.
pub proof fn optimal_answers_are_optimal<M: MilpModel, C: Clock>(
    g: EGraph,
    roots: &[ClassId],
    objective: IlpObjective,
    options: IlpOptions,
    clock: C,
    o: IlpOutcome,
    other: Map<ClassId, NodeId>,
)
    requires
        g.wf(),
        figures_fit(g),
        call_ensures(
            solve::solve::<M, C>,
            (&g, roots, objective, &options, &clock),
            Ok::<IlpOutcome, IlpError>(o),
        ),
        objective != (IlpObjective::SizeConstrainedDepth { depth_budget: DepthBudget::Initial }),
        o.report.outcome is Optimal,
        is_honest::<M>(),
        valid(g, other, roots@),
    ensures
        valid(g, o.extraction@, roots@),
        objective == IlpObjective::Size ==> dag_size(g, o.extraction@, roots@) <= dag_size(
            g,
            other,
            roots@,
        ),
        objective == IlpObjective::Depth ==> dag_depth_of(g, o.extraction@, roots@)
            <= dag_depth_of(g, other, roots@),
        (objective matches IlpObjective::SizeConstrainedDepth {
            depth_budget: DepthBudget::Fixed(b),
        } ==> dag_depth_of(g, other, roots@) <= b ==> dag_depth_of(g, o.extraction@, roots@) <= b
            && dag_size(g, o.extraction@, roots@) <= dag_size(g, other, roots@)),
        (objective matches IlpObjective::WeightedSizeDepth { size_weight, depth_weight }
            ==> dag_size(g, other, roots@) < INFINITY ==> size_weight * dag_size(
            g,
            o.extraction@,
            roots@,
        ) + depth_weight * dag_depth_of(g, o.extraction@, roots@) <= size_weight * dag_size(
            g,
            other,
            roots@,
        ) + depth_weight * dag_depth_of(g, other, roots@)),
{
    let r = Ok::<IlpOutcome, IlpError>(o);
    assert(answers::<M>(g, roots@, objective, options, r));
    let initial = choose|initial: Option<CompleteExtraction>| #[trigger]
        is_initial(g, roots@, initial) && is_outcome::<M>(
            g,
            roots@,
            objective,
            options,
            initial,
            o.report.initial_wall_secs,
            o.extraction@,
            o.report,
        );
    crate::laws::outcomes::answers_are_valid_and_no_worse_than_the_fallback::<M>(
        g,
        roots@,
        objective,
        options,
        initial,
        o.report.initial_wall_secs,
        o.extraction@,
        o.report,
    );
    if crate::extract::ilp::optimality::meets_budget(g, objective, other, roots@) {
        optimal_outcome_is_optimal::<M>(
            g,
            roots@,
            objective,
            options,
            initial,
            o.report.initial_wall_secs,
            o.extraction@,
            o.report,
            other,
        );
    }
}

/// A request that starts from the initial expression, or is bounded by its depth, is
/// refused without one; any other is answered if the roots have an extraction and every
/// amount is sound.
pub proof fn requests_are_answered<M: MilpModel, C: Clock>(
    g: EGraph,
    roots: &[ClassId],
    objective: IlpObjective,
    options: IlpOptions,
    clock: C,
    r: Result<IlpOutcome, IlpError>,
    some: Map<ClassId, NodeId>,
)
    requires
        call_ensures(solve::solve::<M, C>, (&g, roots, objective, &options, &clock), r),
        forall|n: int| 0 <= n < g.nodes@.len() ==> !(#[trigger] g.nodes@[n]).initial,
    ensures
        options.warm_start == crate::extract::ilp::options::WarmStart::Initial || objective == (
        IlpObjective::SizeConstrainedDepth { depth_budget: DepthBudget::Initial }) ==> r == Err::<
            IlpOutcome,
            IlpError,
        >(IlpError::MissingInitial(MissingInitial::NotFlagged)),
        roots@.len() > 0 && valid(g, some, roots@) && options.warm_start
            != crate::extract::ilp::options::WarmStart::Initial && objective == IlpObjective::Size
            && (forall|n: int|
            0 <= n < g.nodes@.len() ==> 0 <= (#[trigger] g.nodes@[n]).cost < INFINITY && 0
                <= g.nodes@[n].delay < INFINITY) ==> r is Ok,
{
    assert(!solve::is_flagged(g));
    if roots@.len() > 0 && valid(g, some, roots@) && options.warm_start
        != crate::extract::ilp::options::WarmStart::Initial && objective == IlpObjective::Size && (
    forall|n: int|
        0 <= n < g.nodes@.len() ==> 0 <= (#[trigger] g.nodes@[n]).cost < INFINITY && 0
            <= g.nodes@[n].delay < INFINITY) && r is Err {
        let initial = choose|initial: Option<CompleteExtraction>| #[trigger]
            is_initial(g, roots@, initial) && solve::refuses(
                g,
                roots@,
                objective,
                initial,
                r->Err_0,
            );
        let o = choose|o: IlpObjective| #[trigger]
            solve::resolves_to(g, roots@, objective, initial, o) && solve::refuted(
                g,
                roots@,
                o,
                r->Err_0,
            );
        assert(o == objective);
        assert(crate::extract::ilp::fallback::has_extraction(g, roots@));
    }
}

// ---------------------------------------------------------------------------
// Seeds
// ---------------------------------------------------------------------------

/// The node that `sel` chooses for class `c` is one of the class.
pub open spec fn serves(g: EGraph, sel: Map<ClassId, NodeId>, c: ClassId) -> bool {
    sel.contains_key(c) && g.nodes@[sel[c] as int].eclass == c
}

/// A seed is a valid extraction that takes the preferred node wherever it serves, and the
/// fallback's elsewhere; without a preferred choice nothing counts as repaired.
pub proof fn seeds_prefer_what_serves(
    g: EGraph,
    roots: &[ClassId],
    preferred: ExtractionResult,
    fallback: ExtractionResult,
    r: Result<Seed, SeedError>,
    s: Result<Seed, SeedError>,
    c: ClassId,
)
    requires
        call_ensures(build_seed, (&g, roots, Some(&preferred), &fallback), r),
        call_ensures(build_seed, (&g, roots, None::<&ExtractionResult>, &fallback), s),
    ensures
        (r matches Ok(seed) ==> {
            &&& valid(g, seed.selection@, roots@)
            &&& seed.selection@.contains_key(c) && serves(g, preferred@, c) ==> seed.selection@[c]
                == preferred@[c]
            &&& seed.selection@.contains_key(c) && !serves(g, preferred@, c) ==> serves(
                g,
                fallback@,
                c,
            ) && seed.selection@[c] == fallback@[c]
        }),
        (r matches Err(SeedError::Unfilled { class }) ==> !serves(g, preferred@, class) && !serves(
            g,
            fallback@,
            class,
        )),
        (s matches Ok(seed) ==> {
            &&& valid(g, seed.selection@, roots@)
            &&& seed.repaired == 0
            &&& seed.selection@.contains_key(c) ==> seed.selection@[c] == fallback@[c]
        }),
{
    if let Ok(seed) = s {
        let none = ilp_cbc::repaired_classes(g, None, fallback@, roots@);
        assert(none =~= Set::<ClassId>::empty());
    }
    if let Ok(seed) = r {
        if seed.selection@.contains_key(c) {
            let chosen = ilp_cbc::picks(g, Some(preferred@), fallback@);
            assert(chosen.contains_key(c));
        }
    }
}

/// A preferred choice that is a valid extraction is taken as it is, with nothing
/// repaired.
pub proof fn valid_seeds_are_kept(
    g: EGraph,
    roots: &[ClassId],
    preferred: ExtractionResult,
    fallback: ExtractionResult,
    r: Result<Seed, SeedError>,
    c: ClassId,
)
    requires
        call_ensures(build_seed, (&g, roots, Some(&preferred), &fallback), r),
        valid(g, preferred@, roots@),
    ensures
        r is Ok,
        r->Ok_0.repaired == 0,
        reaches(g, preferred@, roots@, c) ==> r->Ok_0.selection@.contains_key(c)
            && r->Ok_0.selection@[c] == preferred@[c],
        r->Ok_0.selection@.contains_key(c) ==> reaches(g, preferred@, roots@, c),
{
    let chosen = ilp_cbc::picks(g, Some(preferred@), fallback@);
    assert forall|x: ClassId| #[trigger] reaches(g, preferred@, roots@, x) implies
        chosen.contains_key(x) && chosen[x] == preferred@[x] by {
        assert(preferred@.contains_key(x));
        assert(ilp_cbc::usable(g, preferred@, x));
        assert(ilp_cbc::fillable(g, Some(preferred@), fallback@, x));
    }
    assert forall|x: ClassId| reaches(g, chosen, roots@, x) <==> #[trigger] reaches(
        g,
        preferred@,
        roots@,
        x,
    ) by {
        lemma_same_reach(g, preferred@, chosen, roots@, x);
    }
    let rank = choose|rank: Map<ClassId, nat>| selection::ranked(g, preferred@, roots@, rank);
    assert(selection::ranked(g, chosen, roots@, rank)) by {
        assert forall|a: ClassId, b: ClassId|
            reaches(g, chosen, roots@, a) && #[trigger] edge(g, chosen, a, b) implies rank[b]
            < rank[a] by {
            assert(reaches(g, preferred@, roots@, a));
            assert(edge(g, preferred@, a, b));
        }
    }
    assert(selection::covers(g, chosen, roots@)) by {
        assert forall|x: ClassId| #[trigger] reaches(g, chosen, roots@, x) implies
            chosen.contains_key(x) by {
            assert(reaches(g, preferred@, roots@, x));
        }
    }
    assert(selection::acyclic(g, chosen, roots@));
    let fixed = ilp_cbc::repaired_classes(g, Some(preferred@), fallback@, roots@);
    assert(fixed =~= Set::<ClassId>::empty()) by {
        assert forall|x: ClassId| !fixed.contains(x) by {
            if reaches(g, chosen, roots@, x) {
                assert(reaches(g, preferred@, roots@, x));
                assert(preferred@.contains_key(x));
            }
        }
    }
    if let Err(SeedError::Unfilled { class }) = r {
        assert(reaches(g, chosen, roots@, class));
        assert(reaches(g, preferred@, roots@, class));
        assert(chosen.contains_key(class));
    }
    if r is Ok && reaches(g, preferred@, roots@, c) {
        assert(reaches(g, chosen, roots@, c));
    }
}

/// Choices that agree below the roots reach the same classes.
proof fn lemma_same_reach(
    g: EGraph,
    a: Map<ClassId, NodeId>,
    b: Map<ClassId, NodeId>,
    roots: Seq<ClassId>,
    x: ClassId,
)
    requires
        forall|y: ClassId| #[trigger]
            reaches(g, a, roots, y) ==> a.contains_key(y) && b.contains_key(y) && b[y] == a[y],
    ensures
        reaches(g, b, roots, x) <==> reaches(g, a, roots, x),
{
    if reaches(g, a, roots, x) {
        selection::lemma_reaches_agree(g, a, b, roots, x);
    }
    if reaches(g, b, roots, x) {
        let all = Set::new(|y: ClassId| reaches(g, a, roots, y));
        assert forall|r: ClassId| #[trigger] roots.contains(r) implies all.contains(r) by {
            selection::lemma_reaches_root(g, a, roots, r);
        }
        assert forall|p: ClassId, q: ClassId|
            all.contains(p) && #[trigger] edge(g, b, p, q) implies all.contains(q) by {
            assert(edge(g, a, p, q));
            selection::lemma_reaches_step(g, a, roots, p, q);
        }
        selection::lemma_reaches_closed(g, b, roots, all, x);
    }
}

/// Arrival times are given exactly for the classes below the roots; a class arrives at
/// least its own depth after each of its children, at that after the latest of them or,
/// if none arrives after zero, at its own depth. There are none if a class below the roots
/// has no choice or is on a cycle.
pub proof fn classes_arrive_after_their_children(
    g: EGraph,
    roots: &[ClassId],
    e: ExtractionResult,
    r: Result<IndexMap<ClassId, Cost>, TimingError>,
    c: ClassId,
    j: int,
)
    requires
        call_ensures(arrival_times, (&g, roots, &e), r),
    ensures
        (r matches Ok(times) ==> {
            let kids = children_of(g, e@, c);
            &&& num_map(times).contains_key(c) <==> reaches(g, e@, roots@, c)
            &&& reaches(g, e@, roots@, c) ==> {
                &&& 0 <= j < kids.len() && g.nodes@[e@[c] as int].delay >= 0 ==> num_map(times)[c]
                    >= plus(g.nodes@[e@[c] as int].delay, num_map(times)[kids[j]])
                &&& num_map(times)[c] == g.nodes@[e@[c] as int].delay || exists|k: int|
                    0 <= k < kids.len() && num_map(times)[c] == plus(
                        g.nodes@[e@[c] as int].delay,
                        num_map(times)[#[trigger] kids[k]],
                    )
            }
        }),
        (r matches Err(TimingError::NoChoice { class }) ==> reaches(g, e@, roots@, class)
            && !e@.contains_key(class)),
        (r matches Err(TimingError::Cycle { class }) ==> reaches(g, e@, roots@, class)
            && selection::on_cycle(g, e@, class)),
        valid(g, e@, roots@) ==> r is Ok,
{
    if let Ok(times) = r {
        let t = num_map(times);
        if reaches(g, e@, roots@, c) {
            let n = e@[c];
            let k = g.nodes@[n as int].children@.len();
            let kids = children_of(g, e@, c);
            if 0 <= j < kids.len() {
                selection::lemma_latest_child_bound(g, t, n, k, j);
                assert(kids[j] == g.child_class(n, j));
            }
            lemma_latest_is_some(g, t, n, k);
            if selection::latest_child(g, t, n, k) != 0 {
                let i = choose|i: int|
                    0 <= i < k && t[#[trigger] g.child_class(n, i)] == selection::latest_child(
                        g,
                        t,
                        n,
                        k,
                    );
                assert(kids[i] == g.child_class(n, i));
            }
        }
    }
}

proof fn lemma_latest_is_some(g: EGraph, t: Map<ClassId, Cost>, n: NodeId, k: nat)
    ensures
        selection::latest_child(g, t, n, k) == 0 || exists|i: int|
            0 <= i < k && t[#[trigger] g.child_class(n, i)] == selection::latest_child(g, t, n, k),
    decreases k,
{
    if k > 0 {
        lemma_latest_is_some(g, t, n, (k - 1) as nat);
        let before = selection::latest_child(g, t, n, (k - 1) as nat);
        if selection::latest_child(g, t, n, k) == before && before != 0 {
            let i = choose|i: int|
                0 <= i < k - 1 && t[#[trigger] g.child_class(n, i)] == before;
            assert(t[g.child_class(n, i)] == before);
        } else if selection::latest_child(g, t, n, k) != before {
            assert(t[g.child_class(n, k - 1)] == selection::latest_child(g, t, n, k));
        }
    }
}

/// Levels of a valid extraction rise from a class to its children, and no further than
/// they have to; roots that nothing leads to are at level zero.
pub proof fn levels_rise_to_the_children(
    g: EGraph,
    roots: &[ClassId],
    e: ExtractionResult,
    r: IndexMap<ClassId, usize>,
    c: ClassId,
    d: ClassId,
)
    requires
        call_ensures(topological_levels, (&g, roots, &e), r),
        valid(g, e@, roots@),
    ensures
        id_map(r).contains_key(c) <==> reaches(g, e@, roots@, c),
        reaches(g, e@, roots@, c) && children_of(g, e@, c).contains(d) ==> id_map(r)[c]
            < id_map(r)[d],
        reaches(g, e@, roots@, d) && id_map(r)[d] > 0 ==> exists|a: ClassId| #[trigger]
            reaches(g, e@, roots@, a) && children_of(g, e@, a).contains(d) && id_map(r)[d]
                == id_map(r)[a] + 1,
{
    if reaches(g, e@, roots@, c) && children_of(g, e@, c).contains(d) {
        assert(e@.contains_key(c));
        edges_lead_to_children(g, e@, c, d);
    }
    if reaches(g, e@, roots@, d) && id_map(r)[d] > 0 {
        let a = choose|a: ClassId|
            reaches(g, e@, roots@, a) && #[trigger] crate::extract::ilp::warm::one_above(
                g,
                e@,
                id_map(r),
                a,
                d,
            );
        edges_lead_to_children(g, e@, a, d);
        assert(reaches(g, e@, roots@, a));
    }
}

// ---------------------------------------------------------------------------
// Supplied extractions
// ---------------------------------------------------------------------------

/// What the CBC extractors answer: nothing, and why, if there are no roots, an amount is
/// negative or infinite, or the roots have no extraction; else a valid extraction, for
/// which the solver is asked once, within the time and with the threads asked for.
pub proof fn cbc_extractors_answer_sound_requests<M: MilpModel>(
    g: EGraph,
    roots: Seq<ClassId>,
    objective: IlpObjective,
    timeout: u32,
    threads: u32,
    warm: WarmConfig,
    sel: Map<ClassId, NodeId>,
    report: SolveReport,
)
    requires
        ilp_cbc::extraction_holds::<M>(g, roots, objective, timeout, threads, warm, sel, report),
        objective != (IlpObjective::SizeConstrainedDepth { depth_budget: DepthBudget::Initial }),
    ensures
        ({
            let sound = has_sound_amounts(g, objective);
            let none = Map::<ClassId, NodeId>::empty();
            &&& roots.len() == 0 ==> sel == none && is_rejected(report, Rejection::NoRoots)
            &&& roots.len() > 0 && !sound ==> sel == none && is_rejected(
                report,
                Rejection::InvalidInput,
            )
            &&& roots.len() > 0 && sound && (forall|other: Map<ClassId, NodeId>| !#[trigger] valid(
                g,
                other,
                roots,
            )) ==> sel == none && is_rejected(report, Rejection::NoValidExtraction)
            &&& roots.len() > 0 && sound && (exists|other: Map<ClassId, NodeId>| #[trigger]
                valid(g, other, roots)) ==> valid(g, sel, roots) && report.num_solves == 1
                && report.threads == threads
        }),
{
    if roots.len() > 0 && has_extraction(g, roots) && amounts_valid(g, objective) {
        let (initial, options) = choose|initial: Option<CompleteExtraction>, options: IlpOptions|
            {
                &&& #[trigger] is_supplied(g, roots, warm.seed, initial)
                &&& #[trigger] is_request(options, timeout, threads, warm, initial)
                &&& is_outcome::<M>(g, roots, objective, options, initial, None, sel, report)
            };
        answers_are_valid_and_no_worse_than_the_fallback::<M>(
            g,
            roots,
            objective,
            options,
            initial,
            None,
            sel,
            report,
        );
    }
    assert(amounts_valid(g, objective) == has_sound_amounts(g, objective)) by {
        if has_sound_amounts(g, objective) {
            assert forall|m: int| 0 <= m < g.nodes@.len() implies is_weight(
                (#[trigger] g.nodes@[m]).cost,
            ) && is_weight(g.nodes@[m].delay) by {}
        }
        if amounts_valid(g, objective) {
            assert forall|m: int| 0 <= m < g.nodes@.len() implies is_sound_amount(
                (#[trigger] g.nodes@[m]).cost,
            ) && is_sound_amount(g.nodes@[m].delay) by {
                assert(is_weight(g.nodes@[m].cost));
            }
        }
    }
}

/// Sizes, depths, weights and the budget are finite and not negative.
pub open spec fn has_sound_amounts(g: EGraph, objective: IlpObjective) -> bool {
    &&& forall|m: int|
        0 <= m < g.nodes@.len() ==> is_sound_amount((#[trigger] g.nodes@[m]).cost)
            && is_sound_amount(g.nodes@[m].delay)
    &&& (objective matches IlpObjective::WeightedSizeDepth { size_weight, depth_weight }
        ==> is_sound_amount(size_weight) && is_sound_amount(depth_weight))
    &&& (fixed_budget(objective) matches Some(b) ==> is_sound_amount(b))
}

/// The report says that the request was rejected, and why, and that nothing was solved.
pub open spec fn is_rejected(report: SolveReport, why: Rejection) -> bool {
    report.num_solves == 0 && report.outcome == (SolveOutcome::Fallback {
        reason: FallbackReason::Rejected { why },
    })
}

/// An extraction that is supplied and valid is what a CBC extractor starts from; without
/// one there is none, and it asks for no start from it.
pub proof fn supplied_extractions_are_used(
    g: EGraph,
    roots: Seq<ClassId>,
    seed: Option<ExtractionResult>,
    e: Option<CompleteExtraction>,
    c: ClassId,
)
    requires
        is_supplied(g, roots, seed, e),
        roots.len() > 0,
    ensures
        seed is None ==> e is None,
        (e matches Some(x) ==> valid(g, x@, roots)),
        (seed matches Some(s) ==> (valid(g, s@, roots) ==> e is Some)),
        (seed matches Some(s) ==> (valid(g, s@, roots) ==> (e->0@.contains_key(c) <==> reaches(
            g,
            s@,
            roots,
            c,
        )))),
        (seed matches Some(s) ==> (valid(g, s@, roots) && reaches(g, s@, roots, c) ==> e->0@[c]
            == s@[c])),
{
    if let Some(s) = seed {
        if valid(g, s@, roots) {
            let chosen = repaired_choices(g, s@);
            assert forall|x: ClassId| #[trigger] reaches(g, s@, roots, x) implies
                chosen.contains_key(x) && chosen[x] == s@[x] by {
                assert(s@.contains_key(x));
                assert(ilp_cbc::usable(g, s@, x));
            }
            assert forall|x: ClassId| reaches(g, chosen, roots, x) <==> #[trigger] reaches(
                g,
                s@,
                roots,
                x,
            ) by {
                lemma_same_reach(g, s@, chosen, roots, x);
            }
            let rank = choose|rank: Map<ClassId, nat>| selection::ranked(g, s@, roots, rank);
            assert(selection::ranked(g, chosen, roots, rank)) by {
                assert forall|a: ClassId, b: ClassId|
                    reaches(g, chosen, roots, a) && #[trigger] edge(g, chosen, a, b) implies rank[b]
                    < rank[a] by {
                    assert(reaches(g, s@, roots, a));
                    assert(edge(g, s@, a, b));
                }
            }
            assert(selection::acyclic(g, chosen, roots));
            if reaches(g, s@, roots, c) {
                assert(reaches(g, chosen, roots, c));
                assert(e->0@.contains_key(c));
                assert(e->0@[c] == chosen[c]);
            }
        }
    }
}

/// What is supplied for a class is used if the node is still of the class; else the first
/// of the cheapest of the class is.
pub proof fn supplied_choices_are_repaired(
    g: EGraph,
    seed: Map<ClassId, NodeId>,
    c: ClassId,
    k: int,
)
    requires
        c < g.classes@.len(),
        0 <= k < g.classes@[c as int].nodes@.len(),
        forall|q: int|
            0 <= q < g.classes@[c as int].nodes@.len()
                ==> g.nodes@[g.classes@[c as int].nodes@[k] as int].cost
                <= g.nodes@[(#[trigger] g.classes@[c as int].nodes@[q]) as int].cost && (q < k
                ==> g.nodes@[g.classes@[c as int].nodes@[k] as int].cost
                < g.nodes@[g.classes@[c as int].nodes@[q] as int].cost),
        g.nodes@[g.classes@[c as int].nodes@[k] as int].eclass == c,
    ensures
        ({
            let stays = seed.contains_key(c) && g.nodes@[seed[c] as int].eclass == c;
            &&& stays ==> repaired_choices(g, seed)[c] == seed[c]
            &&& !stays ==> repaired_choices(g, seed)[c] == g.classes@[c as int].nodes@[k]
            &&& repaired_choices(g, seed).contains_key(c)
        }),
{
    assert(is_cheapest(g, c, k));
    let q = choose|q: int| is_cheapest(g, c, q);
    lemma_cheapest_unique(g, c, k, q);
    assert(ilp_cbc::usable(g, cheapest_choices(g), c));
}

/// The options of a CBC extractor: its own time and threads, its own log, no parameters,
/// and its own start, but none from an extraction that is not there.
pub proof fn cbc_extractors_ask_for_their_options(
    options: IlpOptions,
    timeout: u32,
    threads: u32,
    warm: WarmConfig,
    initial: Option<CompleteExtraction>,
)
    requires
        is_request(options, timeout, threads, warm, initial),
    ensures
        options.threads == threads,
        options.raw_params@.len() == 0,
        options.warm_start == warm.mode || (options.warm_start == WarmStart::Off && warm.mode
            == WarmStart::Initial && initial is None),
        warm.mode == WarmStart::Initial && initial is None ==> options.warm_start == WarmStart::Off,
        warm.milp_log is None ==> options.solver_log is None,
        (warm.milp_log matches Some(path) ==> options.solver_log is Some
            && options.solver_log->0@ == path@),
{
}

/// The timed extractors have their own time, one thread, no start and no log. What they
/// extract is valid, or empty if the request is not sound or the roots have no extraction.
pub proof fn timed_extractors_answer_sound_requests<
    M: MilpModel,
    C: Clock,
    const SECONDS: u32,
>(
    g: EGraph,
    roots: &[ClassId],
    clock: C,
    timed: IlpExtractorWithTimeout<SECONDS>,
    r: ExtractionResult,
) -> (report: SolveReport)
    requires
        call_ensures(
            IlpExtractorWithTimeout::<SECONDS>::extract_with::<M, C>,
            (&timed, &g, roots, &clock),
            r,
        ),
    ensures
        ilp_cbc::extraction_holds::<M>(
            g,
            roots@,
            IlpObjective::Size,
            SECONDS,
            1,
            WarmConfig { mode: WarmStart::Off, seed: None, milp_log: None },
            r@,
            report,
        ),
        r@ != Map::<ClassId, NodeId>::empty() ==> valid(g, r@, roots@),
        roots@.len() > 0 && has_sound_amounts(g, IlpObjective::Size) && (exists|
            other: Map<ClassId, NodeId>,
        | #[trigger] valid(g, other, roots@)) ==> valid(g, r@, roots@),
{
    let warm = WarmConfig { mode: WarmStart::Off, seed: None, milp_log: None };
    let report = choose|report: SolveReport| #[trigger]
        ilp_cbc::extraction_holds::<M>(
            g,
            roots@,
            IlpObjective::Size,
            SECONDS,
            1,
            warm,
            r@,
            report,
        );
    cbc_extractors_answer_sound_requests::<M>(
        g,
        roots@,
        IlpObjective::Size,
        SECONDS,
        1,
        warm,
        r@,
        report,
    );
    report
}

/// By default the CBC extractors have no time limit, one thread, no start and no log, and
/// weigh size and depth alike.
pub proof fn cbc_extractors_by_default(
    size: IlpExtractor,
    dual: DualIlpExtractor,
    bounded: DelayBudgetIlpExtractor,
    faster: FasterIlpExtractor,
    warm: WarmConfig,
)
    requires
        call_ensures(<IlpExtractor as Default>::default, (), size),
        call_ensures(<DualIlpExtractor as Default>::default, (), dual),
        call_ensures(<DelayBudgetIlpExtractor as Default>::default, (), bounded),
        call_ensures(<FasterIlpExtractor as Default>::default, (), faster),
        call_ensures(<WarmConfig as Default>::default, (), warm),
    ensures
        warm.mode == WarmStart::Off && warm.seed is None && warm.milp_log is None,
        size.timeout_seconds == u32::MAX && size.threads == 1 && size.warm == warm,
        dual.timeout_seconds == u32::MAX && dual.threads == 1 && dual.warm == warm,
        dual.alpha == 1_000_000 && dual.beta == 1_000_000,
        bounded.timeout_seconds == u32::MAX && bounded.threads == 1 && bounded.warm == warm,
        bounded.max_delay == INFINITY,
        faster.timeout_seconds == u32::MAX && faster.threads == 1 && faster.warm == warm,
{
}

} // verus!
