//! The only entry point that runs an ILP solve, and the only place that
//! decides whether the solver's answer or the fallback is returned.
use crate::collections::{num_keys, num_map, num_map_get_index, num_map_len};
use crate::cost::{
    add_costs, is_weight, max_cost, minus, plus, sub_costs, Cost, EPSILON_ALLOWANCE, INFINITY,
};
use crate::egraph::{ClassId, EGraph, NodeId};
use crate::extract::greedy::initial::{has_initial_nodes, HeightRule, InitialExtractor};
use crate::extract::greedy::fixpoint::{
    extractable, fixpoint_is_valid, greedy_choices, is_fixpoint,
};
use crate::extract::ilp::decode::{decode_selection, is_decoding};
use crate::extract::ilp::fallback::{
    any_within, best, best_meets_budget, candidates, flagged_is_shallowest, has_extraction, is_best,
    is_hopeless, within_limit, Candidate,
};
use crate::extract::ilp::model::{build, is_model, IlpVars};
use crate::extract::ilp::objective::{is_greedy, CandidateName, DepthBudget, IlpObjective};
use crate::extract::ilp::options::{whole_seconds, IlpOptions, WarmStart};
use crate::extract::ilp::report::{
    same_path, FallbackReason, SolveOutcome, SolveReport, WarmNote,
};
use crate::extract::ilp::warm::{arrival_times, is_levelling, push_seed, starts_from, times_in};
use crate::extract::measure::lemma_roots_of_valid;
use crate::extract::selection;
use crate::extract::selection::{
    acyclic, covers, dag_depth_of, is_timing, reaches, roots_known, timing, valid,
};
use crate::extract::{
    explains, CompleteExtraction, ExtractionError, ExtractionResult, Extractor,
};
use crate::milp::stage::{Col, Staged};
use crate::milp::steps::{
    ask, is_log, may_answer, may_be_named, may_begin, may_limit, may_log_to, may_support, may_tune,
    may_use_threads, pass_parameters, read_log_of, use_limit, use_log_file, use_threads,
};
use crate::milp::{MilpModel, MilpSolution, MilpStatus};
use indexmap::IndexMap;
use vstd::prelude::*;

verus! {

/// Reads the time.
pub trait Clock {
    /// Seconds since some moment.
    fn now(&self) -> Cost;
}

/// A clock may show this.
pub open spec fn may_show<C: Clock>(clock: C, now: Cost) -> bool {
    call_ensures(C::now, (&clock,), now)
}

/// A complete extraction and how it was obtained.
pub struct IlpOutcome {
    pub extraction: CompleteExtraction,
    pub report: SolveReport,
}

/// A negative or infinite amount.
#[derive(Debug, Clone, Copy, PartialEq, Eq)]
pub enum InvalidAmount {
    Size { node: NodeId, value: Cost },
    Depth { node: NodeId, value: Cost },
    SizeWeight { value: Cost },
    DepthWeight { value: Cost },
    DepthBudget { value: Cost },
}

/// Why the initial expression, though needed, is not there.
#[derive(Debug, Clone, Copy, PartialEq, Eq)]
pub enum MissingInitial {
    /// No node is flagged.
    NotFlagged,
    /// The flagged nodes are not a complete extraction of the roots.
    Incomplete { why: ExtractionError },
    /// The depth budget is that of the initial expression.
    NoBudget,
}

/// Why an ILP extraction produced no extraction.
pub enum IlpError {
    NoRoots,
    /// A negative or infinite size, depth, weight or budget.
    InvalidInput(InvalidAmount),
    /// The initial expression was requested but the e-graph's flags do not
    /// describe a complete extraction of the roots.
    MissingInitial(MissingInitial),
    /// The e-graph has no acyclic extraction of the roots at all.
    NoValidExtraction(ExtractionError),
    /// The solver produced no usable solution and there is no fallback
    /// extraction to return.
    NoSolution { reason: FallbackReason, report: Box<SolveReport> },
}

// ---------------------------------------------------------------------------
// The request
// ---------------------------------------------------------------------------

/// The first `n` nodes have valid sizes and depths.
pub open spec fn nodes_valid(g: EGraph, n: int) -> bool {
    forall|m: int|
        0 <= m < n ==> is_weight((#[trigger] g.nodes@[m]).cost) && is_weight(g.nodes@[m].delay)
}

/// What is first found wrong with the amounts of a request.
pub open spec fn first_invalid(g: EGraph, objective: IlpObjective, amount: InvalidAmount) -> bool {
    let all = g.nodes@.len() as int;
    let (size_weight, depth_weight) = objective.weighting();
    match amount {
        InvalidAmount::Size { node, value } => {
            &&& node < all
            &&& nodes_valid(g, node as int)
            &&& value == g.nodes@[node as int].cost
            &&& !is_weight(value)
        },
        InvalidAmount::Depth { node, value } => {
            &&& node < all
            &&& nodes_valid(g, node as int)
            &&& is_weight(g.nodes@[node as int].cost)
            &&& value == g.nodes@[node as int].delay
            &&& !is_weight(value)
        },
        InvalidAmount::SizeWeight { value } => {
            &&& nodes_valid(g, all)
            &&& value == size_weight
            &&& !is_weight(value)
        },
        InvalidAmount::DepthWeight { value } => {
            &&& nodes_valid(g, all)
            &&& is_weight(size_weight)
            &&& value == depth_weight
            &&& !is_weight(value)
        },
        InvalidAmount::DepthBudget { value } => {
            &&& nodes_valid(g, all)
            &&& is_weight(size_weight)
            &&& is_weight(depth_weight)
            &&& objective.limit() == Some(value)
            &&& !is_weight(value)
        },
    }
}

/// Every amount of a request is valid.
pub open spec fn amounts_valid(g: EGraph, objective: IlpObjective) -> bool {
    &&& nodes_valid(g, g.nodes@.len() as int)
    &&& is_weight(objective.weighting().0)
    &&& is_weight(objective.weighting().1)
    &&& objective.limit() matches Some(b) ==> is_weight(b)
}

fn weighs(v: Cost) -> (r: bool)
    ensures
        r == is_weight(v),
{
    0 <= v && v < INFINITY
}

/// Checks a request before anything is built.
pub fn validate(egraph: &EGraph, roots: &[ClassId], objective: IlpObjective) -> (r: Result<
    (),
    IlpError,
>)
    requires
        objective.resolved(),
    ensures
        r is Ok <==> roots@.len() > 0 && amounts_valid(*egraph, objective),
        r is Err && r->Err_0 is NoRoots <==> roots@.len() == 0,
        r matches Err(e) ==> e is NoRoots || (e matches IlpError::InvalidInput(amount)
            && first_invalid(*egraph, objective, amount)),
{
    let ghost g = *egraph;
    if roots.len() == 0 {
        return Err(IlpError::NoRoots);
    }
    let mut n: usize = 0;
    while n < egraph.nodes.len()
        invariant
            g == *egraph,
            n <= g.nodes@.len(),
            nodes_valid(g, n as int),
            roots@.len() > 0,
        decreases g.nodes@.len() - n,
    {
        let size: Cost = egraph.nodes[n].cost;
        if !weighs(size) {
            proof {
                assert(!is_weight(g.nodes@[n as int].cost));
            }
            return Err(IlpError::InvalidInput(InvalidAmount::Size { node: n, value: size }));
        }
        let depth: Cost = egraph.nodes[n].delay;
        if !weighs(depth) {
            proof {
                assert(!is_weight(g.nodes@[n as int].delay));
            }
            return Err(IlpError::InvalidInput(InvalidAmount::Depth { node: n, value: depth }));
        }
        n += 1;
    }
    let (size_weight, depth_weight) = objective.weights();
    if !weighs(size_weight) {
        return Err(IlpError::InvalidInput(InvalidAmount::SizeWeight { value: size_weight }));
    }
    if !weighs(depth_weight) {
        return Err(IlpError::InvalidInput(InvalidAmount::DepthWeight { value: depth_weight }));
    }
    if let Some(budget) = objective.budget_value() {
        if !weighs(budget) {
            return Err(IlpError::InvalidInput(InvalidAmount::DepthBudget { value: budget }));
        }
    }
    Ok(())
}

// ---------------------------------------------------------------------------
// The seed
// ---------------------------------------------------------------------------

/// The largest of some arrival times, and at least zero.
pub open spec fn is_worst(times: Map<ClassId, Cost>, worst: Cost) -> bool {
    &&& 0 <= worst
    &&& forall|c: ClassId| #[trigger] times.contains_key(c) ==> times[c] <= worst
    &&& worst == 0 || exists|c: ClassId| #[trigger] times.contains_key(c) && times[c] == worst
}

fn worst_time(times: &IndexMap<ClassId, Cost>) -> (r: Cost)
    ensures
        is_worst(num_map(*times), r),
{
    let n: usize = num_map_len(times);
    let ghost order = num_keys(*times);
    let ghost map = num_map(*times);
    let mut worst: Cost = 0;
    let mut k: usize = 0;
    while k < n
        invariant
            order == num_keys(*times),
            map == num_map(*times),
            k <= n == order.len(),
            0 <= worst,
            forall|i: int| 0 <= i < k ==> map[#[trigger] order[i]] <= worst,
            worst == 0 || exists|c: ClassId| #[trigger] map.contains_key(c) && map[c] == worst,
        decreases n - k,
    {
        if let Some((c, t)) = num_map_get_index(times, k) {
            assert(map.contains_key(c));
            worst = max_cost(worst, t);
        }
        k += 1;
    }
    proof {
        assert forall|c: ClassId| #[trigger] map.contains_key(c) implies map[c] <= worst by {
            assert(order.to_set().contains(c) <==> map.dom().contains(c));
            let i = choose|i: int| 0 <= i < order.len() && order[i] == c;
            assert(map[order[i]] <= worst);
        }
    }
    worst
}

/// The seed cannot be a start of the model: it arrives after the budget.
pub open spec fn over_budget(
    g: EGraph,
    roots: Seq<ClassId>,
    vars: IlpVars,
    sel: Map<ClassId, NodeId>,
) -> bool {
    vars.depth matches Some(d) && d.budget matches Some(b) && exists|c: ClassId| #[trigger]
        reaches(g, sel, roots, c) && timing(g, sel, roots)[c] > b
}

/// `w` is the latest arrival below the roots, and at least zero.
pub open spec fn latest_arrival(
    g: EGraph,
    roots: Seq<ClassId>,
    sel: Map<ClassId, NodeId>,
    w: Cost,
) -> bool {
    &&& 0 <= w
    &&& forall|c: ClassId| #[trigger]
        reaches(g, sel, roots, c) ==> timing(g, sel, roots)[c] <= w
    &&& w == 0 || exists|c: ClassId| #[trigger]
        reaches(g, sel, roots, c) && timing(g, sel, roots)[c] == w
}

/// How far the seed is under the budget of the model, if there is one.
pub open spec fn is_slack(
    g: EGraph,
    roots: Seq<ClassId>,
    vars: IlpVars,
    sel: Map<ClassId, NodeId>,
    slack: Option<Cost>,
) -> bool {
    if vars.depth is Some && vars.depth->0.budget is Some {
        exists|w: Cost| #[trigger]
            latest_arrival(g, roots, sel, w) && slack == Some(
                minus(vars.depth->0.budget->0, w),
            )
    } else {
        slack is None
    }
}

/// `start` is a start from the extraction `sel`.
pub open spec fn is_start_of(
    g: EGraph,
    roots: Seq<ClassId>,
    vars: IlpVars,
    sel: Map<ClassId, NodeId>,
    start: Map<Col, Cost>,
) -> bool {
    exists|levels: Map<ClassId, usize>, times: Map<ClassId, Cost>|
        {
            &&& is_levelling(g, sel, roots, levels)
            &&& vars.depth is Some ==> is_timing(g, sel, roots, times) && forall|c: ClassId|
             #[trigger]
                times.contains_key(c) <==> reaches(g, sel, roots, c)
            &&& #[trigger] starts_from(g, roots, vars, sel, levels, times, start)
        }
}

proof fn lemma_latest_arrival(
    g: EGraph,
    roots: Seq<ClassId>,
    sel: Map<ClassId, NodeId>,
    times: Map<ClassId, Cost>,
    w: Cost,
)
    requires
        is_worst(times, w),
        forall|c: ClassId| #[trigger] times.contains_key(c) <==> reaches(g, sel, roots, c),
        forall|c: ClassId| #[trigger]
            reaches(g, sel, roots, c) ==> timing(g, sel, roots)[c] == times[c],
    ensures
        latest_arrival(g, roots, sel, w),
{
    assert forall|c: ClassId| #[trigger] reaches(g, sel, roots, c) implies timing(
        g,
        sel,
        roots,
    )[c] <= w by {
        assert(times.contains_key(c));
    }
    if w != 0 {
        let c = choose|c: ClassId| #[trigger] times.contains_key(c) && times[c] == w;
        assert(reaches(g, sel, roots, c));
    }
}

/// Stages `seed` as the start, or records why not. Never fails the solve.
///
/// The budget caps *every* arrival column, so a single class over budget makes
/// the point infeasible.
pub(crate) fn apply_seed(
    model: &mut Staged,
    egraph: &EGraph,
    roots: &[ClassId],
    vars: &IlpVars,
    seed: &Candidate,
    supported: bool,
    mode: WarmStart,
    report: &mut SolveReport,
    Ghost(objective): Ghost<IlpObjective>,
)
    requires
        egraph.wf(),
        valid(*egraph, seed.extraction@, roots@),
        is_model(*egraph, roots@, objective, *vars, old(model).lp()),
        old(model).wf(),
        old(model).start() == Map::<Col, Cost>::empty(),
    ensures
        final(model).wf(),
        final(model).lp() == old(model).lp(),
        final(model).sent() == old(model).sent(),
        ({
            let g = *egraph;
            let sel = seed.extraction@;
            if !supported {
                &&& final(model).start() == old(model).start()
                &&& *final(report) == (SolveReport {
                    warm_start_applied: WarmStart::Off,
                    warm_start_note: Some(WarmNote::Unsupported),
                    ..*old(report)
                })
            } else if over_budget(g, roots@, *vars, sel) {
                &&& final(model).start() == old(model).start()
                &&& final(report).warm_start_note matches Some(
                    WarmNote::OverBudget { candidate, depth, budget },
                ) && candidate == seed.name && depth > budget && vars.depth->0.budget == Some(
                    budget,
                ) && latest_arrival(g, roots@, sel, depth)
                &&& *final(report) == (SolveReport {
                    warm_start_applied: WarmStart::Off,
                    warm_start_note: final(report).warm_start_note,
                    ..*old(report)
                })
            } else {
                &&& is_start_of(g, roots@, *vars, sel, final(model).start())
                &&& final(report).warm_start_note matches Some(
                    WarmNote::Seeded { candidate, slack },
                ) && candidate == seed.name && is_slack(g, roots@, *vars, sel, slack)
                &&& *final(report) == (SolveReport {
                    warm_start_applied: mode,
                    warm_start_note: final(report).warm_start_note,
                    warm_start_objective: Some(seed.objective),
                    ..*old(report)
                })
            }
        }),
{
    let ghost g = *egraph;
    let ghost sel = seed.extraction@;
    if !supported {
        report.refuse_warm_start(WarmNote::Unsupported);
        return ;
    }
    proof {
        lemma_roots_of_valid(g, sel, roots@);
    }
    let seed_result: &ExtractionResult = seed.extraction.as_result();
    let mut arrival: Option<IndexMap<ClassId, Cost>> = None;
    let mut slack: Option<Cost> = None;
    if let Some(depth) = &vars.depth {
        match arrival_times(egraph, roots, seed_result) {
            Ok(times) => {
                proof {
                    selection::lemma_timing_is(g, sel, roots@, num_map(times));
                }
                if let Some(budget) = depth.budget {
                    let worst: Cost = worst_time(&times);
                    proof {
                        lemma_latest_arrival(g, roots@, sel, num_map(times), worst);
                    }
                    if worst > budget {
                        proof {
                            assert(budget >= 0);
                            let c = choose|c: ClassId| #[trigger]
                                num_map(times).contains_key(c) && num_map(times)[c] == worst;
                            assert(reaches(g, sel, roots@, c));
                            assert(timing(g, sel, roots@)[c] > budget);
                        }
                        report.refuse_warm_start(
                            WarmNote::OverBudget { candidate: seed.name, depth: worst, budget },
                        );
                        return ;
                    }
                    slack = Some(sub_costs(budget, worst));
                    proof {
                        assert forall|c: ClassId| #[trigger]
                            reaches(g, sel, roots@, c) implies timing(g, sel, roots@)[c]
                            <= budget by {
                            assert(num_map(times).contains_key(c));
                        }
                    }
                }
                arrival = Some(times);
            },
            Err(why) => {
                report.refuse_warm_start(WarmNote::Untimed { why });
                return ;
            },
        }
    }
    push_seed(model, egraph, roots, vars, seed_result, &arrival);
    report.warm_start_objective = Some(seed.objective);
    report.accept_warm_start(
        mode,
        Some(WarmNote::Seeded { candidate: seed.name, slack }),
    );
    proof {
        let times = times_in(arrival);
        let levels = choose|levels: Map<ClassId, usize>|
            is_levelling(g, sel, roots@, levels) && #[trigger] starts_from(
                g,
                roots@,
                *vars,
                sel,
                levels,
                times,
                model.start(),
            );
        assert(starts_from(g, roots@, *vars, sel, levels, times, model.start()));
    }
}

// ---------------------------------------------------------------------------
// The solve
// ---------------------------------------------------------------------------

/// What a solution comes to: its decoding, if that is valid, and whether it is
/// proven optimal; else why there is nothing.
pub open spec fn is_reading(
    g: EGraph,
    roots: Seq<ClassId>,
    vars: IlpVars,
    solution: MilpSolution,
    r: Result<(CompleteExtraction, bool), FallbackReason>,
) -> bool {
    if !solution.feasible {
        r is Err && (r->Err_0 matches FallbackReason::NoSolution { detail } && detail@
            == solution.detail@)
    } else {
        exists|sel: Map<ClassId, NodeId>|
            {
                &&& #[trigger] is_decoding(g, vars.classes@, solution, sel)
                &&& r is Ok <==> roots.len() > 0 && valid(g, sel, roots)
                &&& r matches Ok((extraction, optimal)) ==> extraction@ == sel && optimal == (
                solution.completed && !solution.infeasible)
                &&& r matches Err(e) ==> e matches FallbackReason::Invalid { why } && explains(
                    g,
                    sel,
                    roots,
                    why,
                )
            }
    }
}

/// A valid extraction and whether it is proven optimal, or why there is none.
pub fn read_solution(solution: &MilpSolution, egraph: &EGraph, roots: &[ClassId], vars: &IlpVars) -> (r:
    Result<(CompleteExtraction, bool), FallbackReason>)
    requires
        egraph.wf(),
        crate::extract::ilp::decode::classes_shaped(*egraph, vars.classes@),
    ensures
        is_reading(*egraph, roots@, *vars, *solution, r),
        r matches Ok((extraction, optimal)) ==> valid(*egraph, extraction@, roots@),
{
    if !solution.has_solution() {
        return Err(FallbackReason::NoSolution { detail: solution.detail.clone() });
    }
    let selection: ExtractionResult = decode_selection(solution, egraph, &vars.classes);
    let ghost sel = selection@;
    let optimal: bool = solution.ran_to_completion() && !solution.is_infeasible();
    match CompleteExtraction::try_new(selection, egraph, roots) {
        Ok(extraction) => {
            assert(is_decoding(*egraph, vars.classes@, *solution, sel));
            Ok((extraction, optimal))
        },
        Err(why) => {
            assert(is_decoding(*egraph, vars.classes@, *solution, sel));
            Err(FallbackReason::Invalid { why })
        },
    }
}

/// What becomes of a seed: `start` is what the model is started from, and
/// `after` says of it what it is, or why it is nothing.
pub open spec fn seeded(
    g: EGraph,
    roots: Seq<ClassId>,
    vars: IlpVars,
    seed: Option<&Candidate>,
    supported: bool,
    mode: WarmStart,
    start: Map<Col, Cost>,
    before: SolveReport,
    after: SolveReport,
) -> bool {
    match seed {
        None => {
            &&& start == Map::<Col, Cost>::empty()
            &&& after.warm_start_applied == before.warm_start_applied
            &&& after.warm_start_note == before.warm_start_note
            &&& after.warm_start_objective == before.warm_start_objective
        },
        Some(c) => {
            let sel = c.extraction@;
            if !supported {
                &&& start == Map::<Col, Cost>::empty()
                &&& after.warm_start_applied == WarmStart::Off
                &&& after.warm_start_note == Some(WarmNote::Unsupported)
                &&& after.warm_start_objective == before.warm_start_objective
            } else if over_budget(g, roots, vars, sel) {
                &&& start == Map::<Col, Cost>::empty()
                &&& after.warm_start_applied == WarmStart::Off
                &&& after.warm_start_note matches Some(
                    WarmNote::OverBudget { candidate, depth, budget },
                ) && candidate == c.name && depth > budget && vars.depth->0.budget == Some(budget)
                    && latest_arrival(g, roots, sel, depth)
                &&& after.warm_start_objective == before.warm_start_objective
            } else {
                &&& is_start_of(g, roots, vars, sel, start)
                &&& after.warm_start_applied == mode
                &&& after.warm_start_note matches Some(WarmNote::Seeded { candidate, slack })
                    && candidate == c.name && is_slack(g, roots, vars, sel, slack)
                &&& after.warm_start_objective == Some(c.objective)
            }
        },
    }
}

/// Describes the model of a request, with the seed staged where there is one
/// and it can be.
pub fn stage_model(
    egraph: &EGraph,
    roots: &[ClassId],
    objective: IlpObjective,
    seed: Option<&Candidate>,
    supported: bool,
    mode: WarmStart,
    report: &mut SolveReport,
) -> (r: (Staged, IlpVars))
    requires
        egraph.wf(),
        roots_known(*egraph, roots@),
        objective.resolved(),
        seed matches Some(c) ==> valid(*egraph, c.extraction@, roots@),
    ensures
        r.0.wf(),
        r.0.sent() == (0nat, 0nat),
        is_model(*egraph, roots@, objective, r.1, r.0.lp()),
        seeded(
            *egraph,
            roots@,
            r.1,
            seed,
            supported,
            mode,
            r.0.start(),
            *old(report),
            *final(report),
        ),
        *final(report) == (SolveReport {
            warm_start_applied: final(report).warm_start_applied,
            warm_start_note: final(report).warm_start_note,
            warm_start_objective: final(report).warm_start_objective,
            ..*old(report)
        }),
{
    let mut model: Staged = Staged::new();
    let vars: IlpVars = build(&mut model, egraph, roots, objective);
    if let Some(seed) = seed {
        apply_seed(
            &mut model,
            egraph,
            roots,
            &vars,
            seed,
            supported,
            mode,
            report,
            Ghost(objective),
        );
    }
    (model, vars)
}

/// A solver set up as `options` ask may become this: its time limit and threads
/// are set, the parameters are passed in order, and the log is turned on if there
/// is a path for it.
pub open spec fn is_set_up<M: MilpModel>(first: M, options: IlpOptions, ready: M) -> bool {
    exists|limited: M, threaded: M, tuned: M|
        {
            &&& #[trigger] may_limit(first, whole_seconds(options.time_limit) as u32, limited)
            &&& #[trigger] may_use_threads(limited, options.threads, threaded)
            &&& #[trigger] may_tune(threaded, options.raw_params@, tuned)
            &&& match options.solver_log {
                Some(path) => may_log_to(tuned, path@, ready),
                None => ready == tuned,
            }
        }
}

/// Sets a solver up as `options` ask.
fn set_up<M: MilpModel>(model: &mut M, options: &IlpOptions)
    ensures
        is_set_up(*old(model), *options, *final(model)),
{
    let limited: Ghost<M> = use_limit(model, options.time_limit_seconds());
    let threaded: Ghost<M> = use_threads(model, options.threads);
    pass_parameters(model, &options.raw_params);
    let ghost tuned = *model;
    proof {
        assert(may_limit(*old(model), whole_seconds(options.time_limit) as u32, limited@));
        assert(may_use_threads(limited@, options.threads, threaded@));
        assert(may_tune(threaded@, options.raw_params@, tuned));
    }
    if let Some(path) = &options.solver_log {
        let logged: Ghost<M> = use_log_file(model, path.as_str());
        assert(may_log_to(tuned, path@, logged@));
    }
}

/// What a run of a solver that was `first` comes to: it is set up, handed the model
/// of the request, all of it pending, with what becomes of the seed as start, and `r` is the reading of
/// the solution that it returns, which the report records with what the log holds.
pub open spec fn is_run_of<M: MilpModel>(
    g: EGraph,
    roots: Seq<ClassId>,
    objective: IlpObjective,
    options: IlpOptions,
    seed: Option<&Candidate>,
    first: M,
    before: SolveReport,
    after: SolveReport,
    r: Result<(CompleteExtraction, bool), FallbackReason>,
    ready: M,
    staged: Staged,
    vars: IlpVars,
    solution: MilpSolution,
    done: M,
) -> bool {
    &&& is_set_up(first, options, ready)
    &&& staged.wf()
    &&& staged.sent() == (0nat, 0nat)
    &&& is_model(g, roots, objective, vars, staged.lp())
    &&& exists|supported: bool| #[trigger]
        may_support(ready, supported) && seeded(
            g,
            roots,
            vars,
            seed,
            supported,
            options.warm_start,
            staged.start(),
            before,
            after,
        )
    &&& may_answer(ready, staged, solution, done)
    &&& is_reading(g, roots, vars, solution, r)
    &&& after.status == Some(solution.status_of())
    &&& after.status_detail is Some && after.status_detail->0@ == solution.detail@
    &&& after.objective == (if solution.feasible {
        Some(solution.objective)
    } else {
        None
    })
    &&& after.best_bound == solution.bound
    &&& after.gap == solution.gap_of()
    &&& options.solver_log is Some ==> same_path(after.solver_log, options.solver_log)
        && exists|text: Option<String>| #[trigger]
        is_log(done, options.solver_log, text) && after.traces(text)
    &&& options.solver_log is None ==> after.solver_log == before.solver_log && after.trajectory
        == before.trajectory && after.time_to_first_incumbent_secs
        == before.time_to_first_incumbent_secs
}

/// What a run of a solver that was `first` may come to.
pub open spec fn is_run<M: MilpModel>(
    g: EGraph,
    roots: Seq<ClassId>,
    objective: IlpObjective,
    options: IlpOptions,
    seed: Option<&Candidate>,
    first: M,
    before: SolveReport,
    after: SolveReport,
    r: Result<(CompleteExtraction, bool), FallbackReason>,
) -> bool {
    exists|ready: M, staged: Staged, vars: IlpVars, solution: MilpSolution, done: M| #[trigger]
        is_run_of(
            g,
            roots,
            objective,
            options,
            seed,
            first,
            before,
            after,
            r,
            ready,
            staged,
            vars,
            solution,
            done,
        )
}

/// Builds, seeds and solves the model. `Ok((extraction, proven_optimal))`, or
/// why there is no usable solution.
pub fn run_solver<M: MilpModel, C: Clock>(
    model: &mut M,
    egraph: &EGraph,
    roots: &[ClassId],
    objective: IlpObjective,
    options: &IlpOptions,
    seed: Option<&Candidate>,
    report: &mut SolveReport,
    clock: &C,
) -> (r: Result<(CompleteExtraction, bool), FallbackReason>)
    requires
        egraph.wf(),
        roots_known(*egraph, roots@),
        objective.resolved(),
        seed matches Some(c) ==> valid(*egraph, c.extraction@, roots@),
    ensures
        r matches Ok((extraction, optimal)) ==> valid(*egraph, extraction@, roots@),
        r matches Ok((extraction, optimal)) ==> (optimal <==> final(report).status == Some(
            MilpStatus::Optimal,
        )),
        r matches Err(reason) ==> reason is NoSolution || reason is Invalid,
        final(report).objective is None <==> r is Err && r->Err_0 is NoSolution,
        final(report).num_solves == 1,
        final(report).same_request(*old(report)),
        is_run(
            *egraph,
            roots@,
            objective,
            *options,
            seed,
            *old(model),
            *old(report),
            *final(report),
            r,
        ),
{
    set_up(model, options);
    let ghost ready = *model;
    if let Some(path) = &options.solver_log {
        report.solver_log = Some(path.clone());
    }
    let build_start: Cost = clock.now();
    let supported: bool = model.supports_warm_start();
    assert(may_support(ready, supported));
    let (staged, vars) = stage_model(
        egraph,
        roots,
        objective,
        seed,
        supported,
        options.warm_start,
        report,
    );
    let solve_start: Cost = clock.now();
    report.build_wall_secs = sub_costs(solve_start, build_start);
    let (solution, done) = ask(model, &staged);
    assert(may_answer(ready, staged, solution, done@));
    report.num_solves = 1;
    report.solve_wall_secs = sub_costs(clock.now(), solve_start);
    report.record_solution(&solution);
    let ghost recorded = *report;
    if options.solver_log.is_some() {
        let text: Option<String> = read_log_of(&*model, &options.solver_log);
        report.load_trajectory(&text);
        assert(is_log(done@, options.solver_log, text));
    }
    let r: Result<(CompleteExtraction, bool), FallbackReason> = read_solution(
        &solution,
        egraph,
        roots,
        &vars,
    );
    proof {
        assert(seeded(
            *egraph,
            roots@,
            vars,
            seed,
            supported,
            options.warm_start,
            staged.start(),
            *old(report),
            *report,
        ));
        assert(is_run_of(
            *egraph,
            roots@,
            objective,
            *options,
            seed,
            *old(model),
            *old(report),
            *report,
            r,
            ready,
            staged,
            vars,
            solution,
            done@,
        ));
    }
    r
}

/// Why the fallback is returned, if it is.
pub open spec fn fallback_reason(
    g: EGraph,
    roots: Seq<ClassId>,
    objective: IlpObjective,
    found: Seq<Candidate>,
    fallback: Option<(usize, bool)>,
    solved: Result<(CompleteExtraction, bool), FallbackReason>,
) -> Option<FallbackReason> {
    match solved {
        Ok((extraction, optimal)) => {
            let value = objective.value_of(g, extraction@, roots);
            match fallback {
                Some((i, violated)) => {
                    let c = found[i as int];
                    if !optimal && !violated && value > plus(c.objective, EPSILON_ALLOWANCE) {
                        Some(
                            FallbackReason::Worse {
                                value,
                                candidate: c.name,
                                objective: c.objective,
                            },
                        )
                    } else {
                        None
                    }
                },
                None => None,
            }
        },
        Err(reason) => Some(reason),
    }
}

/// The extraction `sel`, with the report `after`, is the one to return: the
/// solver's, or the fallback where there is a reason for it.
pub open spec fn concludes(
    g: EGraph,
    roots: Seq<ClassId>,
    objective: IlpObjective,
    found: Seq<Candidate>,
    fallback: Option<(usize, bool)>,
    solved: Result<(CompleteExtraction, bool), FallbackReason>,
    before: SolveReport,
    sel: Map<ClassId, NodeId>,
    after: SolveReport,
) -> bool {
    match fallback_reason(g, roots, objective, found, fallback, solved) {
        None => {
            &&& solved matches Ok((extraction, optimal))
            &&& sel == extraction@
            &&& after == (SolveReport {
                outcome: if optimal {
                    SolveOutcome::Optimal
                } else {
                    SolveOutcome::Incumbent
                },
                ..before
            })
        },
        Some(reason) => {
            &&& fallback matches Some((i, violated))
            &&& sel == found[i as int].extraction@
            &&& after == (SolveReport {
                outcome: SolveOutcome::Fallback { reason },
                depth_budget_violated: violated,
                ..before
            })
        },
    }
}

/// Decides between the solver's answer and the fallback.
pub fn conclude(
    egraph: &EGraph,
    roots: &[ClassId],
    objective: IlpObjective,
    found: &Vec<Candidate>,
    fallback: Option<(usize, bool)>,
    solved: Result<(CompleteExtraction, bool), FallbackReason>,
    report: SolveReport,
) -> (r: Result<IlpOutcome, IlpError>)
    requires
        egraph.wf(),
        solved matches Ok((extraction, _)) ==> valid(*egraph, extraction@, roots@),
        fallback matches Some((i, _)) ==> i < found@.len(),
    ensures
        match r {
            Ok(outcome) => concludes(
                *egraph,
                roots@,
                objective,
                found@,
                fallback,
                solved,
                report,
                outcome.extraction@,
                outcome.report,
            ),
            Err(e) => {
                &&& fallback is None
                &&& fallback_reason(
                    *egraph,
                    roots@,
                    objective,
                    found@,
                    fallback,
                    solved,
                ) matches Some(reason)
                &&& e matches IlpError::NoSolution { reason: why, report: last }
                &&& why == reason
                &&& *last == (SolveReport {
                    outcome: SolveOutcome::Fallback { reason },
                    ..report
                })
            },
        },
{
    let mut report: SolveReport = report;
    let reason: FallbackReason = match solved {
        Ok((extraction, optimal)) => {
            if optimal {
                report.outcome = SolveOutcome::Optimal;
                return Ok(IlpOutcome { extraction, report });
            }
            let value: Cost = objective.evaluate(egraph, roots, &extraction);
            let mut worse: Option<FallbackReason> = None;
            if let Some((i, violated)) = fallback {
                let b: &Candidate = &found[i];
                if !violated && value > add_costs(b.objective, EPSILON_ALLOWANCE) {
                    worse = Some(
                        FallbackReason::Worse {
                            value,
                            candidate: b.name,
                            objective: b.objective,
                        },
                    );
                }
            }
            match worse {
                Some(reason) => reason,
                None => {
                    report.outcome = SolveOutcome::Incumbent;
                    return Ok(IlpOutcome { extraction, report });
                },
            }
        },
        Err(reason) => reason,
    };
    match fallback {
        Some((i, violated)) => {
            report.outcome = SolveOutcome::Fallback { reason };
            report.depth_budget_violated = violated;
            Ok(IlpOutcome { extraction: found[i].extraction.clone(), report })
        },
        None => {
            report.outcome = SolveOutcome::Fallback { reason: reason.clone() };
            Err(IlpError::NoSolution { reason, report: Box::new(report) })
        },
    }
}

// ---------------------------------------------------------------------------
// The whole
// ---------------------------------------------------------------------------

/// Some node is flagged as initial.
pub open spec fn is_flagged(g: EGraph) -> bool {
    exists|n: int| 0 <= n < g.nodes@.len() && (#[trigger] g.nodes@[n]).initial
}

/// The flagged nodes describe a complete extraction of the roots.
pub open spec fn initial_available(g: EGraph, roots: Seq<ClassId>) -> bool {
    is_flagged(g) && roots.len() > 0 && extractable(g, HeightRule, roots)
}

/// `found` is the initial expression: the valid choice of flagged nodes of least
/// height, if they describe one.
pub open spec fn is_initial(
    g: EGraph,
    roots: Seq<ClassId>,
    found: Option<CompleteExtraction>,
) -> bool {
    &&& found is Some <==> initial_available(g, roots)
    &&& found matches Some(e) ==> {
        &&& valid(g, e@, roots)
        &&& is_greedy(g, CandidateName::Initial, e@)
        &&& forall|c: ClassId| #[trigger]
            e@.contains_key(c) ==> g.nodes@[e@[c] as int].initial
    }
}

/// The initial expression must be there.
pub open spec fn initial_required(objective: IlpObjective, warm_start: WarmStart) -> bool {
    warm_start == WarmStart::Initial || objective.budget() == Some(DepthBudget::Initial)
}

/// Flagged nodes that are no complete extraction leave a class without a choice
/// that has none.
proof fn lemma_incomplete(
    g: EGraph,
    roots: Seq<ClassId>,
    sel: Map<ClassId, NodeId>,
    why: ExtractionError,
)
    requires
        exists|f: Map<ClassId, Cost>, rank: Map<ClassId, nat>| #[trigger]
            is_fixpoint(g, HeightRule, sel, f, rank),
        forall|c: ClassId| #[trigger]
            sel.contains_key(c) <==> extractable(g, HeightRule, seq![c]),
        !valid(g, sel, roots),
        explains(g, sel, roots, why),
        !(why is NoRoots),
    ensures
        why matches ExtractionError::NoChoice { class } && !extractable(
            g,
            HeightRule,
            seq![class],
        ),
{
    let (f, rank) = choose|f: Map<ClassId, Cost>, rank: Map<ClassId, nat>| #[trigger]
        is_fixpoint(g, HeightRule, sel, f, rank);
    assert forall|c: ClassId| #[trigger] sel.contains_key(c) implies sel[c] < g.nodes@.len()
        && g.nodes@[sel[c] as int].eclass == c by {
        assert(sel.dom().contains(c));
        assert(f.contains_key(c));
    }
    if covers(g, sel, roots) {
        assert forall|i: int| 0 <= i < roots.len() implies f.contains_key(#[trigger] roots[i]) by {
            assert(roots.contains(roots[i]));
            selection::lemma_reaches_root(g, sel, roots, roots[i]);
            assert(sel.dom().contains(roots[i]));
        }
        fixpoint_is_valid(g, HeightRule, sel, f, rank, roots);
    }
}

/// `why` says why there is no initial expression: no node is flagged, or the flagged
/// ones leave a class without a choice.
pub open spec fn lacks_initial(g: EGraph, roots: Seq<ClassId>, why: MissingInitial) -> bool {
    if !is_flagged(g) {
        why == MissingInitial::NotFlagged
    } else {
        why matches MissingInitial::Incomplete { why: missing } && explains(
            g,
            greedy_choices(g, HeightRule).0,
            roots,
            missing,
        ) && match missing {
            ExtractionError::NoRoots => roots.len() == 0,
            ExtractionError::NoChoice { class } => roots.len() > 0 && !extractable(
                g,
                HeightRule,
                seq![class],
            ),
            _ => false,
        }
    }
}

/// The initial expression, if the flags describe one.
pub fn initial_extraction(egraph: &EGraph, roots: &[ClassId], required: bool) -> (r: Result<
    Option<CompleteExtraction>,
    MissingInitial,
>)
    requires
        egraph.wf(),
    ensures
        r is Err <==> required && !initial_available(*egraph, roots@),
        r matches Ok(found) ==> is_initial(*egraph, roots@, found),
        r matches Err(why) ==> lacks_initial(*egraph, roots@, why),
{
    if !has_initial_nodes(egraph) {
        if required {
            return Err(MissingInitial::NotFlagged);
        }
        return Ok(None);
    }
    let extraction: ExtractionResult = InitialExtractor.extract(egraph, roots);
    let ghost chosen = extraction@;
    match CompleteExtraction::try_new(extraction, egraph, roots) {
        Ok(e) => Ok(Some(e)),
        Err(why) => if required {
            proof {
                if !(why is NoRoots) {
                    lemma_incomplete(*egraph, roots@, chosen, why);
                }
            }
            Err(MissingInitial::Incomplete { why })
        } else {
            Ok(None)
        },
    }
}

/// A checked request, with what there is to start from and to fall back on.
pub struct Prepared {
    /// The objective, its budget a number.
    pub objective: IlpObjective,
    pub candidates: Vec<Candidate>,
    /// The fallback, and whether it violates the budget.
    pub fallback: Option<(usize, bool)>,
    /// The candidate to start from.
    pub seed: Option<usize>,
    pub report: SolveReport,
}

/// No valid extraction is less deep.
pub open spec fn is_shallowest(g: EGraph, roots: Seq<ClassId>, depth: Cost) -> bool {
    forall|sel: Map<ClassId, NodeId>| #[trigger]
        valid(g, sel, roots) ==> depth <= dag_depth_of(g, sel, roots)
}

/// The objective with the budget of the initial expression put in.
pub open spec fn resolves_to(
    g: EGraph,
    roots: Seq<ClassId>,
    objective: IlpObjective,
    initial: Option<CompleteExtraction>,
    resolved: IlpObjective,
) -> bool {
    if objective.resolved() {
        resolved == objective
    } else {
        initial matches Some(e) && resolved == (IlpObjective::SizeConstrainedDepth {
            depth_budget: DepthBudget::Fixed(dag_depth_of(g, e@, roots)),
        })
    }
}

impl Prepared {
    /// What [`prepare`] gives.
    pub open spec fn answers(
        &self,
        g: EGraph,
        roots: Seq<ClassId>,
        objective: IlpObjective,
        options: IlpOptions,
        initial: Option<CompleteExtraction>,
    ) -> bool {
        &&& self.objective.resolved()
        &&& resolves_to(g, roots, objective, initial, self.objective)
        &&& roots.len() > 0
        &&& amounts_valid(g, self.objective)
        &&& self.candidates@.len() == (if initial is Some {
            2nat
        } else {
            1nat
        })
        &&& forall|i: int|
            0 <= i < self.candidates@.len() ==> (#[trigger] self.candidates@[i]).describes(
                g,
                roots,
                self.objective,
            )
        &&& initial matches Some(e) ==> self.candidates@[0].name == CandidateName::Initial
            && self.candidates@[0].extraction@ == e@
        &&& self.candidates@.last().name == self.objective.greedy()
        &&& is_greedy(g, self.objective.greedy(), self.candidates@.last().extraction@)
        &&& self.objective.greedy() is GreedyDepth ==> is_shallowest(
            g,
            roots,
            self.candidates@.last().depth,
        )
        &&& is_best(self.objective, self.candidates@, self.fallback)
        &&& self.fallback matches Some((i, _)) && i < self.candidates@.len()
        &&& self.seed == (match options.warm_start {
            WarmStart::Off => None,
            WarmStart::Initial => if initial is Some {
                Some(0usize)
            } else {
                None
            },
            WarmStart::Greedy => Some(self.fallback_index()),
        })
        &&& self.report.model@ == self.objective.label()
        &&& self.report.depth_budget == self.objective.limit()
        &&& !self.report.depth_budget_violated
        &&& self.report.fallback_objective == Some(
            self.candidates@[self.fallback_index() as int].objective,
        )
        &&& self.report.warm_start_requested == options.warm_start
        &&& self.report.warm_start_applied == WarmStart::Off
        &&& self.report.warm_start_note is None
        &&& self.report.warm_start_objective is None
        &&& self.report.threads == options.threads
        &&& self.report.time_limit == options.time_limit
        &&& self.report.solver_log is None
        &&& self.report.trajectory@.len() == 0
        &&& self.report.time_to_first_incumbent_secs is None
    }

    /// The candidate to start from.
    pub open spec fn start_from(&self) -> Option<&Candidate> {
        match self.seed {
            Some(i) => Some(&self.candidates@[i as int]),
            None => None,
        }
    }

    pub open spec fn fallback_index(&self) -> usize {
        match self.fallback {
            Some((i, _)) => i,
            None => 0,
        }
    }
}

/// `e` is what is wrong with a request whose budget is a number.
pub open spec fn refuted(g: EGraph, roots: Seq<ClassId>, objective: IlpObjective, e: IlpError) -> bool {
    match e {
        IlpError::NoRoots => roots.len() == 0,
        IlpError::InvalidInput(amount) => roots.len() > 0 && first_invalid(g, objective, amount),
        IlpError::NoValidExtraction(why) => {
            &&& roots.len() > 0
            &&& amounts_valid(g, objective)
            &&& !has_extraction(g, roots)
            &&& is_hopeless(g, why)
        },
        _ => false,
    }
}

/// `e` is what is wrong with a request.
pub open spec fn refuses(
    g: EGraph,
    roots: Seq<ClassId>,
    objective: IlpObjective,
    initial: Option<CompleteExtraction>,
    e: IlpError,
) -> bool {
    if !objective.resolved() && initial is None {
        e == IlpError::MissingInitial(MissingInitial::NoBudget)
    } else {
        exists|o: IlpObjective| #[trigger]
            resolves_to(g, roots, objective, initial, o) && refuted(g, roots, o, e)
    }
}

/// Checks a request and computes the candidates: the initial extraction, where
/// there is one, and the greedy extraction of the objective.
pub fn prepare<C: Clock>(
    egraph: &EGraph,
    roots: &[ClassId],
    objective: IlpObjective,
    options: &IlpOptions,
    initial: Option<CompleteExtraction>,
    initial_wall_secs: Option<Cost>,
    backend: String,
    clock: &C,
) -> (r: Result<Prepared, IlpError>)
    requires
        egraph.wf(),
        initial matches Some(e) ==> valid(*egraph, e@, roots@),
    ensures
        match r {
            Ok(p) => {
                &&& p.answers(*egraph, roots@, objective, *options, initial)
                &&& p.report.backend == backend
                &&& p.report.initial_wall_secs == initial_wall_secs
                &&& p.report.greedy_wall_secs is Some
            },
            Err(e) => refuses(*egraph, roots@, objective, initial, e),
        },
{
    let ghost g = *egraph;
    let mut initial_depth: Option<Cost> = None;
    if let Some(e) = &initial {
        proof {
            lemma_roots_of_valid(g, e@, roots@);
        }
        initial_depth = Some(e.as_result().dag_depth(egraph, roots));
    }
    let resolved: IlpObjective = match objective.resolve_budget(initial_depth) {
        Some(resolved) => resolved,
        None => {
            proof {
                assert forall|o: IlpObjective| !#[trigger]
                    resolves_to(g, roots@, objective, initial, o) by {}
            }
            return Err(IlpError::MissingInitial(MissingInitial::NoBudget));
        },
    };
    proof {
        assert(resolves_to(g, roots@, objective, initial, resolved));
        assert forall|o: IlpObjective| #[trigger]
            resolves_to(g, roots@, objective, initial, o) implies o == resolved by {}
    }
    if let Err(e) = validate(egraph, roots, resolved) {
        return Err(e);
    }
    let mut report: SolveReport = SolveReport::new(
        backend,
        resolved.name(),
        options.threads,
        options.time_limit,
        options.warm_start,
    );
    report.depth_budget = resolved.budget_value();
    report.initial_wall_secs = initial_wall_secs;
    let greedy_start: Cost = clock.now();
    let has_initial: bool = initial.is_some();
    let found: Vec<Candidate> = match candidates(egraph, roots, resolved, initial, true) {
        Ok(found) => found,
        Err(why) => {
            return Err(IlpError::NoValidExtraction(why));
        },
    };
    report.greedy_wall_secs = Some(sub_costs(clock.now(), greedy_start));
    let fallback: Option<(usize, bool)> = best(resolved, &found);
    let mut best_index: usize = 0;
    if let Some((i, _)) = fallback {
        best_index = i;
    }
    report.fallback_objective = Some(found[best_index].objective);
    let seed: Option<usize> = match options.warm_start {
        WarmStart::Off => None,
        WarmStart::Initial => if has_initial {
            Some(0)
        } else {
            None
        },
        WarmStart::Greedy => Some(best_index),
    };
    Ok(Prepared { objective: resolved, candidates: found, fallback, seed, report })
}

/// A valid extraction meets the budget, if there is one.
pub open spec fn budget_attainable(g: EGraph, roots: Seq<ClassId>, budget: Option<Cost>) -> bool {
    budget matches Some(b) ==> exists|sel: Map<ClassId, NodeId>| #[trigger]
        valid(g, sel, roots) && dag_depth_of(g, sel, roots) <= b
}

/// What holds of every outcome under `objective`, whose budget is a number.
///
/// The extraction is valid, and called optimal only where the solver says so.
/// A fallback is worth no more than the initial expression, if that meets the
/// budget, and an incumbent no more than the fallback but for the allowance, if
/// the budget can be met. Only a fallback can be
/// flagged as violating the budget: it is exactly when it does, which is when
/// no extraction meets it, and no extraction is less deep then.
pub open spec fn outcome_holds(
    g: EGraph,
    roots: Seq<ClassId>,
    objective: IlpObjective,
    initial: Option<CompleteExtraction>,
    sel: Map<ClassId, NodeId>,
    report: SolveReport,
) -> bool {
    let value = objective.value_of(g, sel, roots);
    let limit = objective.limit();
    &&& roots.len() > 0
    &&& amounts_valid(g, objective)
    &&& valid(g, sel, roots)
    &&& report.depth_budget == limit
    &&& report.fallback_objective matches Some(least)
    &&& initial matches Some(e) ==> (limit matches Some(b) ==> dag_depth_of(g, e@, roots) <= b)
        ==> least <= objective.value_of(g, e@, roots)
    &&& report.outcome is Optimal ==> report.status == Some(MilpStatus::Optimal)
    &&& report.outcome is Incumbent ==> report.status != Some(MilpStatus::Optimal)
    &&& report.outcome is Incumbent && budget_attainable(g, roots, limit) ==> value <= plus(
        least,
        EPSILON_ALLOWANCE,
    )
    &&& report.outcome is Fallback ==> {
        &&& value == least
        &&& report.depth_budget_violated <==> !budget_attainable(g, roots, limit)
        &&& limit matches Some(b) ==> (report.depth_budget_violated <==> dag_depth_of(
            g,
            sel,
            roots,
        ) > b)
        &&& report.depth_budget_violated ==> is_shallowest(g, roots, dag_depth_of(g, sel, roots))
    }
    &&& !(report.outcome is Fallback) ==> !report.depth_budget_violated
}

/// The report says what was asked for, and that it was solved once.
pub open spec fn reports(report: SolveReport, objective: IlpObjective, options: IlpOptions) -> bool {
    &&& report.model@ == objective.label()
    &&& report.threads == options.threads
    &&& report.time_limit == options.time_limit
    &&& report.warm_start_requested == options.warm_start
    &&& report.num_solves == 1
    &&& same_path(report.solver_log, options.solver_log)
    &&& options.solver_log is None ==> report.trajectory@.len() == 0
        && report.time_to_first_incumbent_secs is None
}

/// The extraction `sel`, with its report, is what a request is answered: from
/// the candidates, the fallback and the seed of `p`, a run of a solver that has
/// just begun, and the decision between its answer and the fallback.
pub open spec fn is_outcome_of<M: MilpModel>(
    g: EGraph,
    roots: Seq<ClassId>,
    objective: IlpObjective,
    options: IlpOptions,
    initial: Option<CompleteExtraction>,
    initial_wall_secs: Option<Cost>,
    sel: Map<ClassId, NodeId>,
    report: SolveReport,
    p: Prepared,
    first: M,
    asked: SolveReport,
    solved: Result<(CompleteExtraction, bool), FallbackReason>,
) -> bool {
    &&& p.answers(g, roots, objective, options, initial)
    &&& may_begin(first)
    &&& may_be_named(first, p.report.backend@)
    &&& is_run(
        g,
        roots,
        p.objective,
        options,
        p.start_from(),
        first,
        p.report,
        asked,
        solved,
    )
    &&& concludes(
        g,
        roots,
        p.objective,
        p.candidates@,
        p.fallback,
        solved,
        asked,
        sel,
        report,
    )
    &&& reports(report, p.objective, options)
    &&& report.backend == p.report.backend
    &&& report.initial_wall_secs == initial_wall_secs
    &&& report.greedy_wall_secs is Some
    &&& outcome_holds(g, roots, p.objective, initial, sel, report)
}

/// What a request may be answered.
pub open spec fn is_outcome<M: MilpModel>(
    g: EGraph,
    roots: Seq<ClassId>,
    objective: IlpObjective,
    options: IlpOptions,
    initial: Option<CompleteExtraction>,
    initial_wall_secs: Option<Cost>,
    sel: Map<ClassId, NodeId>,
    report: SolveReport,
) -> bool {
    exists|
        p: Prepared,
        first: M,
        asked: SolveReport,
        solved: Result<(CompleteExtraction, bool), FallbackReason>,
    | #[trigger]
        is_outcome_of(
            g,
            roots,
            objective,
            options,
            initial,
            initial_wall_secs,
            sel,
            report,
            p,
            first,
            asked,
            solved,
        )
}

/// [`solve`] with the initial extraction supplied by the caller rather than
/// read from the flags.
pub fn solve_with_initial<M: MilpModel, C: Clock>(
    egraph: &EGraph,
    roots: &[ClassId],
    objective: IlpObjective,
    options: &IlpOptions,
    initial: Option<CompleteExtraction>,
    initial_wall_secs: Option<Cost>,
    clock: &C,
) -> (r: Result<IlpOutcome, IlpError>)
    requires
        egraph.wf(),
        initial matches Some(e) ==> valid(*egraph, e@, roots@),
    ensures
        match r {
            Ok(outcome) => is_outcome::<M>(
                *egraph,
                roots@,
                objective,
                *options,
                initial,
                initial_wall_secs,
                outcome.extraction@,
                outcome.report,
            ),
            Err(e) => refuses(*egraph, roots@, objective, initial, e),
        },
{
    let ghost g = *egraph;
    let ghost supplied = initial;
    let mut model: M = M::new();
    let ghost first = model;
    let backend: String = model.backend_name();
    let ghost name = backend;
    assert(may_begin(first));
    assert(may_be_named(first, name@));
    let prepared: Prepared = match prepare(
        egraph,
        roots,
        objective,
        options,
        initial,
        initial_wall_secs,
        backend,
        clock,
    ) {
        Ok(prepared) => prepared,
        Err(e) => {
            return Err(e);
        },
    };
    let ghost p = prepared;
    let mut report: SolveReport = prepared.report;
    let found: Vec<Candidate> = prepared.candidates;
    proof {
        assert(found@[0].describes(g, roots@, prepared.objective));
        lemma_roots_of_valid(g, found@[0].extraction@, roots@);
    }
    let seed: Option<&Candidate> = match prepared.seed {
        Some(i) => {
            assert(found@[i as int].describes(g, roots@, prepared.objective));
            Some(&found[i])
        },
        None => None,
    };
    assert(seed == p.start_from());
    let solved: Result<(CompleteExtraction, bool), FallbackReason> = run_solver(
        &mut model,
        egraph,
        roots,
        prepared.objective,
        options,
        seed,
        &mut report,
        clock,
    );
    let ghost asked = report;
    let ghost answer = solved;
    let r: Result<IlpOutcome, IlpError> = conclude(
        egraph,
        roots,
        prepared.objective,
        &found,
        prepared.fallback,
        solved,
        report,
    );
    proof {
        lemma_concluded(g, roots@, prepared.objective, found@, prepared.fallback);
        if supplied is Some {
            let (i, violated) = prepared.fallback->0;
            if within_limit(found@[0], prepared.objective.limit()) {
                assert(any_within(found@, prepared.objective.limit()));
                best_meets_budget(prepared.objective, found@, i, 0);
            }
        }
        assert(r matches Ok(outcome) ==> outcome_holds(
            g,
            roots@,
            prepared.objective,
            supplied,
            outcome.extraction@,
            outcome.report,
        ));
        assert(p.answers(g, roots@, objective, *options, supplied));
        assert(is_run(
            g,
            roots@,
            p.objective,
            *options,
            p.start_from(),
            first,
            p.report,
            asked,
            answer,
        ));
        assert(r matches Ok(outcome) ==> is_outcome_of(
            g,
            roots@,
            objective,
            *options,
            supplied,
            initial_wall_secs,
            outcome.extraction@,
            outcome.report,
            p,
            first,
            asked,
            answer,
        ));
    }
    r
}

/// The candidate that the rule picks is flagged exactly if it exceeds the
/// budget, which it does exactly if every extraction does; it is then as
/// shallow as any.
proof fn lemma_concluded(
    g: EGraph,
    roots: Seq<ClassId>,
    objective: IlpObjective,
    found: Seq<Candidate>,
    fallback: Option<(usize, bool)>,
)
    requires
        is_best(objective, found, fallback),
        fallback matches Some((i, _)) && i < found.len(),
        forall|i: int|
            0 <= i < found.len() ==> (#[trigger] found[i]).describes(g, roots, objective),
        objective.greedy() is GreedyDepth ==> is_shallowest(g, roots, found.last().depth),
    ensures
        fallback matches Some((i, violated)) ==> {
            let sel = found[i as int].extraction@;
            &&& valid(g, sel, roots)
            &&& violated <==> !budget_attainable(g, roots, objective.limit())
            &&& objective.limit() matches Some(b) ==> (violated <==> dag_depth_of(g, sel, roots)
                > b)
            &&& violated ==> is_shallowest(g, roots, dag_depth_of(g, sel, roots))
        },
{
    let (i, violated) = fallback->0;
    let last = found.len() - 1;
    let limit = objective.limit();
    assert(found[i as int].describes(g, roots, objective));
    assert(found[last].describes(g, roots, objective));
    if violated {
        flagged_is_shallowest(objective, found, i, i as int);
        flagged_is_shallowest(objective, found, i, last);
        assert(objective.greedy() is GreedyDepth);
    } else {
        assert(within_limit(found[i as int], limit));
        if limit is Some {
            assert(valid(g, found[i as int].extraction@, roots));
        }
    }
}

/// What a request is answered: with an outcome, or with an error that says what
/// is wrong with it.
pub open spec fn answers<M: MilpModel>(
    g: EGraph,
    roots: Seq<ClassId>,
    objective: IlpObjective,
    options: IlpOptions,
    r: Result<IlpOutcome, IlpError>,
) -> bool {
    if initial_required(objective, options.warm_start) && !initial_available(g, roots) {
        r matches Err(IlpError::MissingInitial(why)) && lacks_initial(g, roots, why)
    } else {
        exists|initial: Option<CompleteExtraction>| #[trigger]
            is_initial(g, roots, initial) && match r {
                Ok(outcome) => outcome.report.initial_wall_secs is Some && is_outcome::<M>(
                    g,
                    roots,
                    objective,
                    options,
                    initial,
                    outcome.report.initial_wall_secs,
                    outcome.extraction@,
                    outcome.report,
                ),
                Err(e) => refuses(g, roots, objective, initial, e),
            }
    }
}

/// Extracts `roots` from `egraph` minimising `objective`.
///
/// Two candidate extractions are computed first: the initial expression, where
/// the e-graph flags one, and the greedy extraction of the objective. The
/// better of the two is the fallback, returned when the solver produces
/// nothing usable (no solution within the time limit, an infeasible depth
/// budget, an invalid solution, an incumbent worse than the fallback). With a
/// depth budget, candidates within it are compared by size; if none is, the
/// shallowest is returned and flagged.
pub fn solve<M: MilpModel, C: Clock>(
    egraph: &EGraph,
    roots: &[ClassId],
    objective: IlpObjective,
    options: &IlpOptions,
    clock: &C,
) -> (r: Result<IlpOutcome, IlpError>)
    requires
        egraph.wf(),
    ensures
        answers::<M>(*egraph, roots@, objective, *options, r),
{
    let required: bool = match options.warm_start {
        WarmStart::Initial => true,
        _ => match objective.depth_budget() {
            Some(DepthBudget::Initial) => true,
            _ => false,
        },
    };
    let start: Cost = clock.now();
    let initial: Option<CompleteExtraction> = match initial_extraction(egraph, roots, required) {
        Ok(initial) => initial,
        Err(why) => {
            return Err(IlpError::MissingInitial(why));
        },
    };
    let initial_wall_secs: Option<Cost> = Some(sub_costs(clock.now(), start));
    let r: Result<IlpOutcome, IlpError> = solve_with_initial::<M, C>(
        egraph,
        roots,
        objective,
        options,
        initial,
        initial_wall_secs,
        clock,
    );
    r
}

} // verus!
