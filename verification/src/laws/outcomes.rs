//! What a request to the ILP extractors is answered.
use crate::cost::{Cost, INFINITY};
use crate::egraph::{ClassId, EGraph, NodeId};
use crate::extract::ilp::decode::{decode_selection, first_on};
use crate::extract::ilp::fallback::{best, Candidate};
use crate::extract::ilp::model::{ClassVars, IlpVars};
use crate::extract::ilp::objective::{CandidateName, DepthBudget, IlpObjective};
use crate::extract::ilp::options::{
    time_limit_from_seconds, time_limit_seconds, IlpOptions, TimeLimit, WarmStart,
};
use crate::extract::ilp::report::{FallbackReason, SolveOutcome, SolveReport};
use crate::extract::ilp::solve::{
    conclude, is_outcome, is_outcome_of, is_run_of, prepare, read_solution, validate, Clock, IlpError,
    IlpOutcome, InvalidAmount, Prepared,
};
use crate::extract::selection::{dag_depth_of, valid};
use crate::extract::{CompleteExtraction, ExtractionResult};
use crate::milp::stage::Staged;
use crate::milp::{MilpModel, MilpSolution, MilpStatus};
use crate::text::{same_word, trimmed};
use vstd::prelude::*;

verus! {

/// An amount is finite and not negative.
pub open spec fn is_sound_amount(v: Cost) -> bool {
    0 <= v && v < INFINITY
}

/// The budget, if it is a number.
pub open spec fn fixed_budget(objective: IlpObjective) -> Option<Cost> {
    match objective {
        IlpObjective::SizeConstrainedDepth { depth_budget: DepthBudget::Fixed(v) } => Some(v),
        _ => None,
    }
}

/// Where the fallback stands among the candidates.
pub open spec fn place_of(fallback: Option<(usize, bool)>) -> usize {
    match fallback {
        Some((i, flagged)) => i,
        None => 0,
    }
}

/// The fallback is flagged as violating the budget.
pub open spec fn is_flagged(fallback: Option<(usize, bool)>) -> bool {
    match fallback {
        Some((i, flagged)) => flagged,
        None => false,
    }
}

/// A request is refused exactly if there are no roots or an amount is negative or
/// infinite: a node's size or depth, a weight, or the budget. The first such amount is
/// named, nodes in order, size before depth, before weights and budget.
pub proof fn unsound_requests_are_refused(
    g: EGraph,
    roots: &[ClassId],
    objective: IlpObjective,
    r: Result<(), IlpError>,
)
    requires
        call_ensures(validate, (&g, roots, objective), r),
    ensures
        roots@.len() == 0 <==> (r matches Err(e) && e is NoRoots),
        r is Ok ==> forall|n: int|
            0 <= n < g.nodes@.len() ==> is_sound_amount((#[trigger] g.nodes@[n]).cost)
                && is_sound_amount(g.nodes@[n].delay),
        r is Ok ==> (objective matches IlpObjective::WeightedSizeDepth { size_weight, depth_weight }
            ==> is_sound_amount(size_weight) && is_sound_amount(depth_weight)),
        r is Ok ==> (fixed_budget(objective) matches Some(b) ==> is_sound_amount(b)),
        roots@.len() > 0 && (forall|n: int|
            0 <= n < g.nodes@.len() ==> is_sound_amount((#[trigger] g.nodes@[n]).cost)
                && is_sound_amount(g.nodes@[n].delay)) && (
        objective matches IlpObjective::WeightedSizeDepth { size_weight, depth_weight }
            ==> is_sound_amount(size_weight) && is_sound_amount(depth_weight)) && (fixed_budget(
            objective,
        ) matches Some(b) ==> is_sound_amount(b)) ==> r is Ok,
        (r matches Err(IlpError::InvalidInput(amount)) ==> match amount {
            InvalidAmount::Size { node, value } => node < g.nodes@.len() && value
                == g.nodes@[node as int].cost && !is_sound_amount(value) && forall|m: int|
                0 <= m < node ==> is_sound_amount((#[trigger] g.nodes@[m]).cost)
                    && is_sound_amount(g.nodes@[m].delay),
            InvalidAmount::Depth { node, value } => node < g.nodes@.len() && value
                == g.nodes@[node as int].delay && !is_sound_amount(value) && is_sound_amount(
                g.nodes@[node as int].cost,
            ) && forall|m: int|
                0 <= m < node ==> is_sound_amount((#[trigger] g.nodes@[m]).cost)
                    && is_sound_amount(g.nodes@[m].delay),
            InvalidAmount::SizeWeight { value } => !is_sound_amount(value) && (
            objective matches IlpObjective::WeightedSizeDepth { size_weight, depth_weight } && value
                == size_weight),
            InvalidAmount::DepthWeight { value } => !is_sound_amount(value) && (
            objective matches IlpObjective::WeightedSizeDepth { size_weight, depth_weight } && value
                == depth_weight && is_sound_amount(size_weight)),
            InvalidAmount::DepthBudget { value } => !is_sound_amount(value) && fixed_budget(
                objective,
            ) == Some(value),
        }),
        (r matches Err(e) ==> e is NoRoots || e is InvalidInput),
{
}

/// The fallback is the first of the candidates of least value; with a budget, among
/// those that keep it. If none keeps it, it is the first of the shallowest, and flagged.
pub proof fn fallback_is_the_best_candidate(
    objective: IlpObjective,
    found: Vec<Candidate>,
    r: Option<(usize, bool)>,
)
    requires
        objective != (IlpObjective::SizeConstrainedDepth { depth_budget: DepthBudget::Initial }),
        call_ensures(best, (objective, &found), r),
    ensures
        r is None <==> found@.len() == 0,
        (r matches Some((i, flagged)) ==> {
            let limit = fixed_budget(objective);
            let c = found@[i as int];
            &&& i < found@.len()
            &&& flagged ==> limit is Some && forall|j: int|
                0 <= j < found@.len() ==> (#[trigger] found@[j]).depth > limit->0 && c.depth
                    <= found@[j].depth && (j < i ==> c.depth < found@[j].depth)
            &&& !flagged ==> (limit is Some ==> c.depth <= limit->0) && forall|j: int|
                0 <= j < found@.len() && (limit is Some ==> (#[trigger] found@[j]).depth <= limit->0)
                    ==> c.objective <= found@[j].objective && (j < i ==> c.objective
                    < found@[j].objective)
        }),
{
    if let Some((i, flagged)) = r {
        if flagged {
            assert forall|j: int| 0 <= j < found@.len() implies (#[trigger] found@[j]).depth
                > fixed_budget(objective)->0 && found@[i as int].depth <= found@[j].depth && (j < i
                ==> found@[i as int].depth < found@[j].depth) by {
                assert(!crate::extract::ilp::fallback::within_limit(
                    found@[j],
                    objective.limit(),
                ));
                assert(crate::extract::ilp::fallback::within_limit(found@[j], None));
            }
        } else {
            assert forall|j: int|
                0 <= j < found@.len() && (fixed_budget(objective) is Some ==> (
                #[trigger] found@[j]).depth <= fixed_budget(objective)->0) implies
                found@[i as int].objective <= found@[j].objective && (j < i
                ==> found@[i as int].objective < found@[j].objective) by {
                assert(crate::extract::ilp::fallback::within_limit(found@[j], objective.limit()));
            }
        }
    }
}

/// What is proven optimal is returned as such. Another solution is returned as an
/// incumbent unless it is worth more than a fallback that keeps the budget, by more
/// than the allowance; then, and without a solution, the fallback is returned. Without
/// a fallback either there is no answer.
pub proof fn the_better_answer_is_returned(
    g: EGraph,
    roots: &[ClassId],
    objective: IlpObjective,
    found: Vec<Candidate>,
    fallback: Option<(usize, bool)>,
    solved: Result<(CompleteExtraction, bool), FallbackReason>,
    report: SolveReport,
    r: Result<IlpOutcome, IlpError>,
    v: Cost,
)
    requires
        call_ensures(conclude, (&g, roots, objective, &found, fallback, solved, report), r),
        solved matches Ok((e, _)) ==> call_ensures(
            IlpObjective::evaluate,
            (&objective, &g, roots, &e),
            v,
        ),
        fallback matches Some((i, _)) ==> i < found@.len() && found@[i as int].objective < INFINITY
            - 10,
    ensures
        (solved matches Ok((e, optimal)) ==> {
            let kept = optimal || fallback is None || is_flagged(fallback) || v
                <= found@[place_of(fallback) as int].objective + 10;
            &&& kept ==> (r matches Ok(o) && o.extraction@ == e@ && o.report == (SolveReport {
                outcome: if optimal {
                    SolveOutcome::Optimal
                } else {
                    SolveOutcome::Incumbent
                },
                ..report
            }))
            &&& !kept ==> (r matches Ok(o) && o.extraction@
                == found@[place_of(fallback) as int].extraction@ && o.report == (SolveReport {
                outcome: SolveOutcome::Fallback {
                    reason: FallbackReason::Worse {
                        value: v,
                        candidate: found@[place_of(fallback) as int].name,
                        objective: found@[place_of(fallback) as int].objective,
                    },
                },
                depth_budget_violated: false,
                ..report
            }))
        }),
        (solved matches Err(reason) ==> match fallback {
            Some((i, flagged)) => r matches Ok(o) && o.extraction@ == found@[i as int].extraction@
                && o.report == (SolveReport {
                outcome: SolveOutcome::Fallback { reason },
                depth_budget_violated: flagged,
                ..report
            }),
            None => r matches Err(e) && (e matches IlpError::NoSolution { reason: why, .. } && why
                == reason),
        }),
{
}

/// What a solution reads as: for every class whose column is at half or above, the
/// first member whose column is above half.
pub proof fn selections_are_read_at_half(
    solution: MilpSolution,
    g: EGraph,
    classes: Vec<ClassVars>,
    r: ExtractionResult,
    c: ClassId,
    k: int,
)
    requires
        call_ensures(decode_selection, (&solution, &g, &classes), r),
        c < g.classes@.len(),
        0 <= k < classes@[c as int].nodes@.len(),
    ensures
        solution.value_of(classes@[c as int].active) < 500_000 ==> !r@.contains_key(c),
        solution.value_of(classes@[c as int].active) >= 500_000 && solution.value_of(
            classes@[c as int].nodes@[k],
        ) > 500_000 && (forall|q: int|
            0 <= q < k ==> solution.value_of(#[trigger] classes@[c as int].nodes@[q]) <= 500_000)
            ==> r@.contains_key(c) && r@[c] == g.classes@[c as int].nodes@[k],
        (forall|q: int|
            0 <= q < classes@[c as int].nodes@.len() ==> solution.value_of(
                #[trigger] classes@[c as int].nodes@[q],
            ) <= 500_000) ==> !r@.contains_key(c),
{
    let class = classes@[c as int];
    if solution.value_of(class.active) >= 500_000 && solution.value_of(class.nodes@[k]) > 500_000
        && (forall|q: int|
        0 <= q < k ==> solution.value_of(#[trigger] class.nodes@[q]) <= 500_000) {
        assert(first_on(solution, class, k));
        assert(r@.contains_key(c));
        let q = choose|q: int| #[trigger]
            first_on(solution, class, q) && r@[c] == crate::extract::ilp::model::member(
                g,
                c as int,
                q,
            );
        if q < k {
            assert(solution.value_of(class.nodes@[q]) <= 500_000);
        } else if k < q {
            assert(solution.value_of(class.nodes@[k]) <= 500_000);
        }
    }
}

/// A solution is an extraction exactly if there is one and it reads as a valid
/// extraction of the roots; it is proven optimal if the solver ran to completion.
pub proof fn solutions_are_valid_extractions(
    solution: MilpSolution,
    g: EGraph,
    roots: &[ClassId],
    vars: IlpVars,
    r: Result<(CompleteExtraction, bool), FallbackReason>,
    read: ExtractionResult,
)
    requires
        call_ensures(read_solution, (&solution, &g, roots, &vars), r),
        call_ensures(decode_selection, (&solution, &g, &vars.classes), read),
    ensures
        !solution.feasible ==> (r matches Err(FallbackReason::NoSolution { detail }) && detail@
            == solution.detail@),
        solution.feasible ==> (r is Ok <==> roots@.len() > 0 && valid(g, read@, roots@)),
        solution.feasible && r is Err ==> r->Err_0 is Invalid,
        (r matches Ok((e, optimal)) ==> e@ == read@ && (optimal <==> solution.completed
            && !solution.infeasible)),
{
    if solution.feasible {
        let sel = choose|sel: Map<ClassId, NodeId>|
            {
                &&& #[trigger] crate::extract::ilp::decode::is_decoding(
                    g,
                    vars.classes@,
                    solution,
                    sel,
                )
                &&& r is Ok <==> roots@.len() > 0 && valid(g, sel, roots@)
                &&& r matches Ok((extraction, optimal)) ==> extraction@ == sel && optimal == (
                solution.completed && !solution.infeasible)
                &&& r matches Err(e) ==> e is Invalid
            };
        lemma_one_decoding(g, vars.classes@, solution, sel, read@);
    }
}

proof fn lemma_one_decoding(
    g: EGraph,
    classes: Seq<ClassVars>,
    solution: MilpSolution,
    a: Map<ClassId, NodeId>,
    b: Map<ClassId, NodeId>,
)
    requires
        crate::extract::ilp::decode::is_decoding(g, classes, solution, a),
        crate::extract::ilp::decode::is_decoding(g, classes, solution, b),
    ensures
        a == b,
{
    assert forall|c: ClassId| #[trigger] a.contains_key(c) <==> b.contains_key(c) by {}
    assert forall|c: ClassId| #[trigger] a.contains_key(c) implies a[c] == b[c] by {
        assert(b.contains_key(c));
        let class = classes[c as int];
        let k = choose|k: int| #[trigger]
            first_on(solution, class, k) && a[c] == crate::extract::ilp::model::member(
                g,
                c as int,
                k,
            );
        let q = choose|q: int| #[trigger]
            first_on(solution, class, q) && b[c] == crate::extract::ilp::model::member(
                g,
                c as int,
                q,
            );
        if k < q {
            assert(solution.value_of(class.nodes@[k]) <= 500_000);
        } else if q < k {
            assert(solution.value_of(class.nodes@[q]) <= 500_000);
        }
    }
    assert(a =~= b);
}

/// What a request starts from and falls back on: the initial extraction, where there is
/// one, and the greedy one are the candidates, each valid and with its own value and
/// depth. A start from the initial extraction is that; a greedy start is the fallback.
pub proof fn requests_are_prepared<C: Clock>(
    g: EGraph,
    roots: &[ClassId],
    objective: IlpObjective,
    options: IlpOptions,
    initial: Option<CompleteExtraction>,
    wall: Option<Cost>,
    backend: String,
    clock: C,
    r: Result<Prepared, IlpError>,
)
    requires
        call_ensures(
            prepare::<C>,
            (&g, roots, objective, &options, initial, wall, backend, &clock),
            r,
        ),
        objective != (IlpObjective::SizeConstrainedDepth { depth_budget: DepthBudget::Initial }),
    ensures
        (r matches Ok(p) ==> {
            let n = p.candidates@.len();
            &&& p.objective == objective
            &&& n == (if initial is Some {
                2nat
            } else {
                1nat
            })
            &&& initial matches Some(e) ==> p.candidates@[0].name == CandidateName::Initial
                && p.candidates@[0].extraction@ == e@
            &&& forall|i: int|
                0 <= i < n ==> valid(g, (#[trigger] p.candidates@[i]).extraction@, roots@)
                    && p.candidates@[i].depth == dag_depth_of(
                    g,
                    p.candidates@[i].extraction@,
                    roots@,
                )
            &&& p.fallback is Some && place_of(p.fallback) < n
            &&& options.warm_start == WarmStart::Off ==> p.seed is None
            &&& options.warm_start == WarmStart::Initial && initial is Some ==> p.seed == Some(
                0usize,
            )
            &&& options.warm_start == WarmStart::Initial && initial is None ==> p.seed is None
            &&& options.warm_start == WarmStart::Greedy ==> p.seed == Some(place_of(p.fallback))
            &&& p.report.fallback_objective == Some(
                p.candidates@[place_of(p.fallback) as int].objective,
            )
            &&& p.report.threads == options.threads && p.report.time_limit == options.time_limit
                && p.report.warm_start_requested == options.warm_start && p.report.backend
                == backend
        }),
        (r matches Err(e) ==> e is NoRoots || e is InvalidInput || e is NoValidExtraction),
        (r matches Err(e) ==> e is NoValidExtraction ==> forall|sel: Map<ClassId, NodeId>|
            !#[trigger] valid(g, sel, roots@)),
{
    if let Ok(p) = r {
        assert forall|i: int| 0 <= i < p.candidates@.len() implies valid(
            g,
            (#[trigger] p.candidates@[i]).extraction@,
            roots@,
        ) && p.candidates@[i].depth == dag_depth_of(g, p.candidates@[i].extraction@, roots@) by {
            assert(p.candidates@[i].describes(g, roots@, p.objective));
        }
    }
    if let Err(e) = r {
        assert forall|o: IlpObjective|
            crate::extract::ilp::solve::resolves_to(g, roots@, objective, initial, o) implies o
            == objective by {}
    }
}

/// Whatever the solver does, the answer is a valid extraction. What is returned in place
/// of the solver's answer is worth what was to be fallen back on, which is no more than
/// the initial extraction is worth if that keeps the budget; an answer that is not
/// proven is worth no more than that but for the allowance, if the budget can be kept;
/// only a fallback is flagged, and exactly if no extraction keeps the budget.
pub proof fn answers_are_valid_and_no_worse_than_the_fallback<M: MilpModel>(
    g: EGraph,
    roots: Seq<ClassId>,
    objective: IlpObjective,
    options: IlpOptions,
    initial: Option<CompleteExtraction>,
    wall: Option<Cost>,
    sel: Map<ClassId, NodeId>,
    report: SolveReport,
)
    requires
        objective != (IlpObjective::SizeConstrainedDepth { depth_budget: DepthBudget::Initial }),
        is_outcome::<M>(g, roots, objective, options, initial, wall, sel, report),
    ensures
        roots.len() > 0,
        valid(g, sel, roots),
        report.fallback_objective is Some,
        report.outcome is Optimal ==> report.status == Some(MilpStatus::Optimal),
        report.outcome is Incumbent ==> report.status != Some(MilpStatus::Optimal),
        report.outcome is Incumbent && report.fallback_objective->0 < INFINITY - 10
            && fixed_budget(objective) is None ==> objective.value_of(g, sel, roots)
            <= report.fallback_objective->0 + 10,
        report.outcome is Fallback ==> objective.value_of(g, sel, roots)
            == report.fallback_objective->0,
        (initial matches Some(e) ==> fixed_budget(objective) is None
            ==> report.fallback_objective->0 <= objective.value_of(g, e@, roots)),
        (initial matches Some(e) ==> (fixed_budget(objective) matches Some(b) ==> dag_depth_of(
            g,
            e@,
            roots,
        ) <= b ==> report.fallback_objective->0 <= objective.value_of(g, e@, roots))),
        report.depth_budget_violated ==> report.outcome is Fallback && (fixed_budget(
            objective,
        ) matches Some(b) && dag_depth_of(g, sel, roots) > b && forall|
            other: Map<ClassId, NodeId>,
        | #[trigger]
            valid(g, other, roots) ==> dag_depth_of(g, other, roots) > b && dag_depth_of(
                g,
                sel,
                roots,
            ) <= dag_depth_of(g, other, roots)),
        report.outcome is Fallback && !report.depth_budget_violated ==> (fixed_budget(
            objective,
        ) matches Some(b) ==> dag_depth_of(g, sel, roots) <= b),
        report.threads == options.threads,
        report.time_limit == options.time_limit,
        report.warm_start_requested == options.warm_start,
        report.num_solves == 1,
        report.depth_budget == fixed_budget(objective),
{
    let (p, first, asked, solved) = choose|
        p: Prepared,
        first: M,
        asked: SolveReport,
        solved: Result<(CompleteExtraction, bool), FallbackReason>,
    | #[trigger]
        is_outcome_of(
            g,
            roots,
            objective,
            options,
            initial,
            wall,
            sel,
            report,
            p,
            first,
            asked,
            solved,
        );
    assert(p.objective == objective);
    assert(objective.limit() == fixed_budget(objective));
    if report.depth_budget_violated {
        let b = fixed_budget(objective)->0;
        assert forall|other: Map<ClassId, NodeId>| #[trigger] valid(
            g,
            other,
            roots,
        ) implies dag_depth_of(g, other, roots) > b && dag_depth_of(g, sel, roots)
            <= dag_depth_of(g, other, roots) by {}
    }
}

/// The report holds what the solver came to: its status, its objective if it has a
/// solution, its bound and its gap. Without a solution the fallback is returned, in the
/// solver's own words; a solution that is returned is what it reads as.
pub proof fn reports_hold_the_solution<M: MilpModel>(
    g: EGraph,
    roots: Seq<ClassId>,
    objective: IlpObjective,
    options: IlpOptions,
    initial: Option<CompleteExtraction>,
    wall: Option<Cost>,
    sel: Map<ClassId, NodeId>,
    report: SolveReport,
) -> (solution: MilpSolution)
    requires
        is_outcome::<M>(g, roots, objective, options, initial, wall, sel, report),
    ensures
        report.status == Some(
            if solution.infeasible {
                MilpStatus::Infeasible
            } else if solution.completed {
                MilpStatus::Optimal
            } else if solution.feasible {
                MilpStatus::TimeoutWithSolution
            } else {
                MilpStatus::TimeoutNoSolution
            },
        ),
        report.status_detail is Some && report.status_detail->0@ == solution.detail@,
        solution.feasible ==> report.objective == Some(solution.objective),
        !solution.feasible ==> report.objective is None,
        report.best_bound == solution.bound,
        report.gap == solution.gap_of(),
        !solution.feasible ==> (report.outcome matches SolveOutcome::Fallback {
            reason: FallbackReason::NoSolution { detail },
        } && detail@ == solution.detail@),
        report.outcome is Optimal ==> solution.feasible && solution.completed
            && !solution.infeasible,
        report.outcome is Incumbent ==> solution.feasible && !(solution.completed
            && !solution.infeasible),
        report.initial_wall_secs == wall,
        report.greedy_wall_secs is Some,
{
    let (p, first, asked, solved) = choose|
        p: Prepared,
        first: M,
        asked: SolveReport,
        solved: Result<(CompleteExtraction, bool), FallbackReason>,
    | #[trigger]
        is_outcome_of(
            g,
            roots,
            objective,
            options,
            initial,
            wall,
            sel,
            report,
            p,
            first,
            asked,
            solved,
        );
    let (ready, staged, vars, solution, done) = choose|
        ready: M,
        staged: Staged,
        vars: IlpVars,
        solution: MilpSolution,
        done: M,
    | #[trigger]
        is_run_of(
            g,
            roots,
            p.objective,
            options,
            p.start_from(),
            first,
            p.report,
            asked,
            solved,
            ready,
            staged,
            vars,
            solution,
            done,
        );
    solution
}

// ---------------------------------------------------------------------------
// Options
// ---------------------------------------------------------------------------

/// A time limit is handed on in whole seconds, rounded up; without one, or with one too
/// long to count, it is the most there is. Seconds made a limit are those seconds.
pub proof fn time_limits_are_rounded_up(
    limit: Option<TimeLimit>,
    seconds: u32,
    given: u32,
    made: Option<TimeLimit>,
)
    requires
        call_ensures(time_limit_seconds, (limit,), seconds),
        call_ensures(time_limit_from_seconds, (given,), made),
    ensures
        limit is None ==> seconds == u32::MAX,
        (limit matches Some(d) ==> {
            let nanos = d.secs * 1_000_000_000 + d.nanos;
            &&& seconds < u32::MAX ==> nanos <= seconds * 1_000_000_000 < nanos + 1_000_000_000
            &&& seconds == u32::MAX ==> nanos > (u32::MAX - 1) * 1_000_000_000
        }),
        given == u32::MAX <==> made is None,
        (made matches Some(d) ==> d.secs == given && d.nanos == 0),
{
}

/// The options that are set are those asked for, and the others stay.
pub proof fn options_are_set_one_by_one(
    options: IlpOptions,
    limit: TimeLimit,
    start: WarmStart,
    limited: IlpOptions,
    started: IlpOptions,
    seconds: u32,
    again: u32,
)
    requires
        call_ensures(IlpOptions::with_time_limit, (options, limit), limited),
        call_ensures(IlpOptions::with_warm_start, (options, start), started),
        call_ensures(IlpOptions::time_limit_seconds, (&options,), seconds),
        call_ensures(time_limit_seconds, (options.time_limit,), again),
    ensures
        limited.time_limit == Some(limit),
        limited.threads == options.threads && limited.warm_start == options.warm_start
            && limited.solver_log == options.solver_log && limited.raw_params
            == options.raw_params,
        started.warm_start == start,
        started.threads == options.threads && started.time_limit == options.time_limit
            && started.solver_log == options.solver_log && started.raw_params
            == options.raw_params,
        seconds == again,
{
}

/// By default a solve has ten seconds and one thread, starts from the initial
/// expression, and writes no log.
pub proof fn default_options(options: IlpOptions, start: WarmStart)
    requires
        call_ensures(IlpOptions::default, (), options),
        call_ensures(WarmStart::default, (), start),
    ensures
        options.time_limit == Some(TimeLimit { secs: 10, nanos: 0 }),
        options.threads == 1,
        options.warm_start == WarmStart::Initial,
        options.solver_log is None,
        options.raw_params@.len() == 0,
        start == WarmStart::Initial,
{
}

/// Warm starts are named by their names, in any case and with space around.
pub proof fn warm_starts_are_named(
    text: &str,
    r: Result<WarmStart, crate::extract::ilp::options::UnknownWarmStart>,
    start: WarmStart,
    name: &'static str,
)
    requires
        call_ensures(WarmStart::parse, (text,), r),
        call_ensures(WarmStart::as_str, (start,), name),
    ensures
        same_word(trimmed(text@), "none"@) || same_word(trimmed(text@), "off"@) ==> r == Ok::<
            WarmStart,
            crate::extract::ilp::options::UnknownWarmStart,
        >(WarmStart::Off),
        same_word(trimmed(text@), "initial"@) ==> r == Ok::<
            WarmStart,
            crate::extract::ilp::options::UnknownWarmStart,
        >(WarmStart::Initial),
        same_word(trimmed(text@), "greedy"@) ==> r == Ok::<
            WarmStart,
            crate::extract::ilp::options::UnknownWarmStart,
        >(WarmStart::Greedy),
        r is Ok ==> same_word(trimmed(text@), "none"@) || same_word(trimmed(text@), "off"@)
            || same_word(trimmed(text@), "initial"@) || same_word(trimmed(text@), "greedy"@),
        name@ == (match start {
            WarmStart::Off => "none"@,
            WarmStart::Initial => "initial"@,
            WarmStart::Greedy => "greedy"@,
        }),
{
    reveal_strlit("none");
    reveal_strlit("off");
    reveal_strlit("initial");
    reveal_strlit("greedy");
    assert("initial"@.len() == 7 && "greedy"@.len() == 6 && "none"@.len() == 4 && "off"@.len()
        == 3);
}

} // verus!
