//! A DAG-optimal ILP extractor that simplifies the e-graph first and adds
//! constraints against cycles only where they occur.
//!
//! 1. The e-graph is simplified: nodes that cannot be part of a best solution
//!    are removed, and classes are collapsed.
//! 2. The solver is asked for an extraction, which may contain cycles.
//! 3. If it does, constraints that block them are added, and the solver is
//!    asked again.
//!
//! One could add constraints against all cycles up front. Most of them would
//! only remove expensive extractions, and they slow the solver down.
//!
//! A solution that is cut short and still contains a cycle is discarded, so
//! with a short time limit the greedy extraction is returned almost every
//! time. The `ilp` extractors encode a topological order up front, and are to
//! be preferred.
pub mod block;
pub mod converge;
pub mod cycles;
pub mod empty;
pub mod encoding;
pub mod exact;
pub mod lift;
pub mod optimum;
pub mod parents;
pub mod problem;
pub mod progress;
pub mod prune;
pub mod pull;
pub mod reach;
pub mod read;
pub mod rows;
pub mod seed;
pub mod simplify;
pub mod start;
pub mod subsume;
pub mod thin;
pub mod zero;

use crate::cost::{add_costs, minus, plus, sub_costs, Cost, EPSILON_ALLOWANCE, INFINITY, ONE};
use crate::egraph::{ClassId, EGraph, NodeId};
use crate::extract::faster_ilp_cbc::block::{
    admits, block_cycle, blocked_all, lemma_blocked_sense, lemma_model_admits,
};
use crate::extract::faster_ilp_cbc::cycles::{
    cycles_of, find_cycles_in_result, holds_part, is_cycle, is_part, is_used, lemma_picked, listed_in,
    picked, picks_fit, step,
};
use crate::extract::faster_ilp_cbc::encoding::{
    encodes, is_closed_under, lemma_columns_apart, reads,
};
use crate::extract::faster_ilp_cbc::problem::{place, simplifies, solves, sound, Problem, Vars};
use crate::extract::faster_ilp_cbc::read::{
    all_readable, chosen_cost, complete, is_complete, on_in, read_choices,
};
use crate::extract::faster_ilp_cbc::rows::{columns_apart, root_closed, rows_to, stage_problem};
use crate::extract::faster_ilp_cbc::seed::{
    all_served, apply_seed, is_start, reseeded, seed_choices, seed_simplified, SeedFailure,
};
use crate::extract::faster_ilp_cbc::simplify::{
    completed, simplified, simplify, solution_is_left, solution_is_valid,
};
use crate::extract::faster_ilp_cbc::start::{
    columns_below, costs_valid, sorted_roots, sorts, start_problem, start_vars,
};
use crate::extract::greedy::size::{extractable_by_size, TreeRule};
use crate::extract::greedy::GreedySizeExtractor;
use crate::extract::ilp::fallback::has_extraction;
use crate::extract::ilp::objective::{is_greedy_by, CandidateName};
use crate::extract::ilp::options::{limit_of_seconds, time_limit_from_seconds, WarmStart};
use crate::extract::ilp::report::{
    same_path, FallbackReason, Rejection, SolveOutcome, SolveReport, WarmNote,
};
use crate::extract::ilp::solve::{may_show, Clock};
use crate::extract::measure::lemma_roots_of_valid;
use crate::extract::selection::{dag_size, nodes_known, roots_known, valid};
use crate::extract::{CompleteExtraction, ExtractionError, ExtractionResult, Extractor};
use crate::milp::stage::{Col, Staged};
use crate::milp::steps::{
    ask, is_log, may_answer, may_be_named, may_begin, may_limit, may_log_at, may_log_to,
    may_support, may_use_threads, read_log_of, use_limit, use_log_file, use_log_level, use_threads,
};
use crate::milp::{MilpModel, MilpSense, MilpSolution, MilpStatus};
use vstd::prelude::*;

verus! {

/// Which simplifications are made, and what is done with a solution that was
/// cut short.
#[derive(Debug, Clone, Copy)]
pub struct Config {
    pub pull_up_costs: bool,
    pub remove_self_loops: bool,
    pub remove_high_cost_nodes: bool,
    pub remove_more_expensive_subsumed_nodes: bool,
    pub remove_unreachable_classes: bool,
    pub pull_up_single_parent: bool,
    pub take_intersection_of_children_in_class: bool,
    pub move_min_cost_of_members_to_class: bool,
    pub find_extra_roots: bool,
    pub remove_empty_classes: bool,
    pub return_improved_on_timeout: bool,
    pub remove_single_zero_cost: bool,
}

/// Everything but moving least costs to classes.
pub open spec fn default_config() -> Config {
    Config {
        pull_up_costs: true,
        remove_self_loops: true,
        remove_high_cost_nodes: true,
        remove_more_expensive_subsumed_nodes: true,
        remove_unreachable_classes: true,
        pull_up_single_parent: true,
        take_intersection_of_children_in_class: true,
        move_min_cost_of_members_to_class: false,
        find_extra_roots: true,
        remove_empty_classes: true,
        return_improved_on_timeout: true,
        remove_single_zero_cost: true,
    }
}

impl Config {
    /// [`default_config`].
    pub fn default() -> (r: Self)
        ensures
            r == default_config(),
    {
        Config {
            pull_up_costs: true,
            remove_self_loops: true,
            remove_high_cost_nodes: true,
            remove_more_expensive_subsumed_nodes: true,
            remove_unreachable_classes: true,
            pull_up_single_parent: true,
            take_intersection_of_children_in_class: true,
            move_min_cost_of_members_to_class: false,
            find_extra_roots: true,
            remove_empty_classes: true,
            return_improved_on_timeout: true,
            remove_single_zero_cost: true,
        }
    }
}

/// Warm start and solver log of an extractor.
pub struct WarmConfig {
    /// Which starting incumbent to use.
    pub mode: WarmStart,
    /// The initial extraction, for [`WarmStart::Initial`], of the e-graph the
    /// extractor is given. Without one the simplifying extractor starts from
    /// the greedy extraction, and says so.
    pub seed: Option<ExtractionResult>,
    /// Where to write the solver's own log, from which the incumbents over
    /// time are read. Without a path the solver stays silent.
    pub milp_log: Option<String>,
}

/// No starting incumbent, no log.
pub open spec fn unwarmed() -> WarmConfig {
    WarmConfig { mode: WarmStart::Off, seed: None, milp_log: None }
}

impl Default for WarmConfig {
    /// [`unwarmed`].
    fn default() -> (r: Self)
        ensures
            r == unwarmed(),
    {
        WarmConfig { mode: WarmStart::Off, seed: None, milp_log: None }
    }
}

// ---------------------------------------------------------------------------
// What a solution is taken for
// ---------------------------------------------------------------------------

/// What is to be done with a solution.
pub enum Verdict {
    /// There is no extraction.
    Infeasible,
    /// Return the greedy extraction.
    Fallback(FallbackReason),
    /// Return this one.
    Found { extraction: ExtractionResult, optimal: bool },
    /// Block these cycles and solve again.
    Refine(Vec<Vec<ClassId>>),
}

/// Two amounts differ by less than the allowance.
pub open spec fn near(a: Cost, b: Cost) -> bool {
    -EPSILON_ALLOWANCE < a - b < EPSILON_ALLOWANCE
}

fn are_near(a: Cost, b: Cost) -> (r: bool)
    ensures
        r == near(a, b),
{
    let difference: i128 = a as i128 - b as i128;
    let allowance: i128 = EPSILON_ALLOWANCE as i128;
    difference < allowance && difference > 0 - allowance
}

/// The costs of the choices, of the extraction and the solver's own agree, and
/// are no more than what is known.
pub open spec fn adds_up(cost: Cost, size: Cost, objective: Cost, bound: Cost) -> bool {
    cost <= plus(bound, EPSILON_ALLOWANCE) && near(size, cost) && near(cost, objective)
}

/// A solution that was cut short is not worth reading.
pub open spec fn is_unwanted(config: Config, solution: MilpSolution, bound: Cost) -> bool {
    !solution.completed && (!config.return_improved_on_timeout || solution.objective > bound)
}

/// What choices are taken for.
pub open spec fn verdict_on(
    g: EGraph,
    roots: Seq<ClassId>,
    q: Problem,
    bound: Cost,
    solution: MilpSolution,
    sel: Map<ClassId, NodeId>,
    v: Verdict,
) -> bool {
    let whole = completed(q, sel);
    let size = dag_size(g, whole, roots);
    if !is_closed_under(q, sel) {
        v == Verdict::Fallback(FallbackReason::Inconsistent)
    } else if !holds_part(q, sel) {
        if solution.completed {
            v matches Verdict::Refine(cycles) && cycles@.len() > 0 && listed_in(cycles@)
                == cycles_of(q, sel, g.classes@.len(), q.roots.len()).1 && forall|i: int|
                0 <= i < cycles@.len() ==> is_cycle(q, sel, (#[trigger] cycles@[i])@)
        } else {
            v == Verdict::Fallback(FallbackReason::Cyclic)
        }
    } else if solution.completed {
        if adds_up(chosen_cost(q, sel, g.classes@.len()), size, solution.objective, bound) {
            v matches Verdict::Found { extraction, optimal } && extraction@ == whole && optimal
        } else {
            v == Verdict::Fallback(FallbackReason::Inconsistent)
        }
    } else {
        if size < bound {
            v matches Verdict::Found { extraction, optimal } && extraction@ == whole && !optimal
        } else {
            v == Verdict::Fallback(
                FallbackReason::Worse {
                    value: size,
                    candidate: CandidateName::GreedySize,
                    objective: bound,
                },
            )
        }
    }
}

proof fn lemma_blockable(q: Problem, n: nat, picks: Seq<Option<usize>>, cycle: Seq<ClassId>)
    requires
        sound(q, n),
        picks_fit(q, picks),
        is_cycle(q, picked(q, picks), cycle),
    ensures
        blockable(q, cycle),
{
    let sel = picked(q, picks);
    lemma_picked(q, n, picks);
    assert forall|k: int| 0 <= k < cycle.len() implies q.classes.contains_key(
        #[trigger] cycle[k],
    ) by {
        if k < cycle.len() - 1 {
            assert(step(q, sel, cycle[k], cycle[k + 1]));
        } else {
            assert(step(q, sel, cycle.last(), cycle[0]));
        }
        assert(sel.contains_key(cycle[k]));
    }
}

/// `vars` can be solved in place of the problem of the roots.
pub open spec fn stands_for(g: EGraph, roots: Seq<ClassId>, q: Problem, bound: Cost) -> bool {
    exists|sorted: Seq<ClassId>| #[trigger]
        sorts(roots, sorted) && simplifies(
            start_problem(g, sorted),
            q,
            g.classes@.len(),
            bound as int,
        )
}

proof fn lemma_found(g: EGraph, roots: Seq<ClassId>, q: Problem, bound: Cost, picks: Seq<Option<usize>>)
    requires
        g.wf(),
        costs_valid(g),
        sound(q, g.classes@.len()),
        stands_for(g, roots, q, bound),
        picks_fit(q, picks),
        holds_part(q, picked(q, picks)),
    ensures
        valid(g, completed(q, picked(q, picks)), roots),
        nodes_known(g, completed(q, picked(q, picks))),
{
    let sel = picked(q, picks);
    lemma_picked(q, g.classes@.len(), picks);
    let sorted = choose|sorted: Seq<ClassId>| #[trigger]
        sorts(roots, sorted) && simplifies(
            start_problem(g, sorted),
            q,
            g.classes@.len(),
            bound as int,
        );
    let part = choose|part: Map<ClassId, NodeId>| is_part(part, sel) && #[trigger] solves(q, part);
    solution_is_valid(g, roots, sorted, q, bound as int, part, sel);
    lemma_roots_of_valid(g, completed(q, sel), roots);
}

/// What choices without a cycle are taken for.
fn weigh(
    egraph: &EGraph,
    roots: &[ClassId],
    vars: &Vars,
    config: &Config,
    bound: Cost,
    solution: &MilpSolution,
    picks: &Vec<Option<usize>>,
) -> (v: Verdict)
    requires
        egraph.wf(),
        costs_valid(*egraph),
        roots_known(*egraph, roots@),
        vars.wf(),
        vars.size() == egraph.classes@.len(),
        stands_for(*egraph, roots@, vars@, bound),
        picks@.len() == vars.size(),
        picks_fit(vars@, picks@),
        is_closed_under(vars@, picked(vars@, picks@)),
        holds_part(vars@, picked(vars@, picks@)),
        !is_unwanted(*config, *solution, bound),
    ensures
        verdict_on(*egraph, roots@, vars@, bound, *solution, picked(vars@, picks@), v),
        v is Found || v is Fallback,
        v matches Verdict::Fallback(reason) ==> !(reason is NoSolution) && !(reason is NotSolved),
        v matches Verdict::Found { extraction, optimal } ==> valid(*egraph, extraction@, roots@)
            && (optimal ==> dag_size(*egraph, extraction@, roots@) < bound + 2 * EPSILON_ALLOWANCE)
            && (!optimal ==> dag_size(*egraph, extraction@, roots@) < bound
            && config.return_improved_on_timeout),
{
    let (result, cost) = complete(vars, picks);
    proof {
        lemma_found(*egraph, roots@, vars@, bound, picks@);
    }
    let size: Cost = result.dag_cost(egraph, roots);
    if solution.ran_to_completion() {
        if cost <= add_costs(bound, EPSILON_ALLOWANCE) && are_near(size, cost) && are_near(
            cost,
            solution.obj_value(),
        ) {
            Verdict::Found { extraction: result, optimal: true }
        } else {
            Verdict::Fallback(FallbackReason::Inconsistent)
        }
    } else if size < bound {
        Verdict::Found { extraction: result, optimal: false }
    } else {
        Verdict::Fallback(
            FallbackReason::Worse {
                value: size,
                candidate: CandidateName::GreedySize,
                objective: bound,
            },
        )
    }
}

/// What the choices of a solution are taken for.
fn judge_choices(
    egraph: &EGraph,
    roots: &[ClassId],
    vars: &Vars,
    config: &Config,
    bound: Cost,
    solution: &MilpSolution,
    picks: &Vec<Option<usize>>,
) -> (v: Verdict)
    requires
        egraph.wf(),
        costs_valid(*egraph),
        roots_known(*egraph, roots@),
        vars.wf(),
        vars.size() == egraph.classes@.len(),
        stands_for(*egraph, roots@, vars@, bound),
        picks@.len() == vars.size(),
        picks_fit(vars@, picks@),
        !is_unwanted(*config, *solution, bound),
    ensures
        verdict_on(*egraph, roots@, vars@, bound, *solution, picked(vars@, picks@), v),
        !(v is Infeasible),
        v matches Verdict::Fallback(reason) ==> !(reason is NoSolution) && !(reason is NotSolved),
        v matches Verdict::Found { extraction, optimal } ==> valid(*egraph, extraction@, roots@)
            && (optimal ==> dag_size(*egraph, extraction@, roots@) < bound + 2 * EPSILON_ALLOWANCE)
            && (!optimal ==> dag_size(*egraph, extraction@, roots@) < bound
            && config.return_improved_on_timeout),
        v matches Verdict::Refine(cycles) ==> forall|i: int|
            0 <= i < cycles@.len() ==> blockable(vars@, (#[trigger] cycles@[i])@),
{
    let ghost g = *egraph;
    let ghost q = vars@;
    let ghost n = vars.size();
    let finished: bool = solution.ran_to_completion();
    let ghost sel = picked(q, picks@);
    if !is_complete(vars, picks) {
        let v: Verdict = Verdict::Fallback(FallbackReason::Inconsistent);
        return v;
    }
    let cycles: Vec<Vec<ClassId>> = find_cycles_in_result(vars, picks);
    if cycles.len() > 0 {
        proof {
            assert forall|i: int| 0 <= i < cycles@.len() implies blockable(
                q,
                (#[trigger] cycles@[i])@,
            ) by {
                lemma_blockable(q, n, picks@, cycles@[i]@);
            }
        }
        let v: Verdict = if finished {
            Verdict::Refine(cycles)
        } else {
            Verdict::Fallback(FallbackReason::Cyclic)
        };
        return v;
    }
    weigh(egraph, roots, vars, config, bound, solution, picks)
}

/// What a solution of the simplified problem is taken for.
pub open spec fn is_verdict(
    g: EGraph,
    roots: Seq<ClassId>,
    vars: Vars,
    config: Config,
    bound: Cost,
    solution: MilpSolution,
    v: Verdict,
) -> bool {
    if solution.infeasible {
        v is Infeasible
    } else if is_unwanted(config, solution, bound) {
        v == Verdict::Fallback(FallbackReason::Unfinished { objective: solution.objective })
    } else if !all_readable(vars@, vars.actives(), on_in(solution)) {
        v == Verdict::Fallback(FallbackReason::Inconsistent)
    } else {
        exists|sel: Map<ClassId, NodeId>| #[trigger]
            reads(vars@, vars.actives(), on_in(solution), sel) && verdict_on(
                g,
                roots,
                vars@,
                bound,
                solution,
                sel,
                v,
            )
    }
}

/// What a solution of the simplified problem is taken for. `bound` is the
/// size of the greedy extraction.
pub fn judge(
    egraph: &EGraph,
    roots: &[ClassId],
    vars: &Vars,
    config: &Config,
    bound: Cost,
    solution: &MilpSolution,
) -> (v: Verdict)
    requires
        egraph.wf(),
        costs_valid(*egraph),
        roots_known(*egraph, roots@),
        vars.wf(),
        vars.size() == egraph.classes@.len(),
        stands_for(*egraph, roots@, vars@, bound),
    ensures
        is_verdict(*egraph, roots@, *vars, *config, bound, *solution, v),
        v matches Verdict::Fallback(reason) ==> !(reason is NoSolution) && !(reason is NotSolved),
        v matches Verdict::Found { extraction, optimal } ==> valid(*egraph, extraction@, roots@)
            && (optimal ==> dag_size(*egraph, extraction@, roots@) < bound + 2 * EPSILON_ALLOWANCE)
            && (!optimal ==> dag_size(*egraph, extraction@, roots@) < bound
            && config.return_improved_on_timeout),
        v matches Verdict::Refine(cycles) ==> forall|i: int|
            0 <= i < cycles@.len() ==> blockable(vars@, (#[trigger] cycles@[i])@),
{
    let ghost g = *egraph;
    let ghost q = vars@;
    let ghost n = vars.size();
    let ghost actives = vars.actives();
    let ghost on = on_in(*solution);
    if solution.is_infeasible() {
        return Verdict::Infeasible;
    }
    let finished: bool = solution.ran_to_completion();
    if !finished && (!config.return_improved_on_timeout || solution.obj_value() > bound) {
        return Verdict::Fallback(FallbackReason::Unfinished { objective: solution.obj_value() });
    }
    let picks: Vec<Option<usize>> = match read_choices(vars, solution) {
        Some(picks) => picks,
        None => {
            return Verdict::Fallback(FallbackReason::Inconsistent);
        },
    };
    let v: Verdict = judge_choices(egraph, roots, vars, config, bound, solution, &picks);
    assert(reads(q, actives, on, picked(q, picks@)));
    v
}

/// Classes of the problem, each once.
pub open spec fn blockable(q: Problem, cycle: Seq<ClassId>) -> bool {
    &&& cycle.len() > 0
    &&& cycle.no_duplicates()
    &&& forall|k: int| 0 <= k < cycle.len() ==> q.classes.contains_key(#[trigger] cycle[k])
}

// ---------------------------------------------------------------------------
// The model and its start
// ---------------------------------------------------------------------------

/// `vars` is what the simplifications make of the problem of the roots.
pub open spec fn is_reduction(
    g: EGraph,
    roots: Seq<ClassId>,
    sorted: Seq<ClassId>,
    config: Config,
    bound: Cost,
    vars: Vars,
) -> bool {
    let p = start_problem(g, sorted);
    &&& sorts(roots, sorted)
    &&& vars.wf()
    &&& vars.size() == g.classes@.len()
    &&& simplified(p, vars@, g.classes@.len(), bound, config)
    &&& simplifies(p, vars@, g.classes@.len(), bound as int)
}

/// `staged` is the model of the problem, to be minimised, and has every solution
/// of it.
pub open spec fn is_staged(vars: Vars, config: Config, staged: Staged) -> bool {
    &&& staged.wf()
    &&& staged.lp().sense == MilpSense::Minimize
    &&& encodes(staged.lp(), vars@, vars.actives(), config, vars.size())
    &&& admits(staged.lp(), vars@, vars.actives(), vars.size())
}

/// Simplifies the problem of extracting `roots`, of which `bound` is the size
/// of a known extraction, and builds the model of what is left. `false` if
/// nothing can be chosen for a root; the model is then of no use.
pub fn stage(egraph: &EGraph, roots: &[ClassId], config: &Config, bound: Cost) -> (r: (
    Vars,
    Staged,
    bool,
))
    requires
        egraph.wf(),
        costs_valid(*egraph),
        roots_known(*egraph, roots@),
    ensures
        exists|sorted: Seq<ClassId>|
            is_reduction(*egraph, roots@, sorted, *config, bound, r.0),
        r.2 == !root_closed(r.0@),
        r.2 ==> {
            &&& is_staged(r.0, *config, r.1)
            &&& r.1.lp().rows == rows_to(r.0@, r.0.actives(), *config, r.0.size())
            &&& r.1.start() == Map::<Col, Cost>::empty()
            &&& r.1.sent() == (0nat, 0nat)
        },
{
    let ghost g = *egraph;
    let n: usize = egraph.classes.len();
    let sorted: Vec<ClassId> = sorted_roots(egraph, roots);
    let ghost in_order = sorted@;
    proof {
        assert forall|i: int| 0 <= i < in_order.len() implies (#[trigger] in_order[i])
            < g.classes@.len() by {
            assert(in_order.contains(in_order[i]));
            let k = choose|k: int| 0 <= k < roots@.len() && roots@[k] == in_order[i];
            assert(roots@[k] < g.classes@.len());
        }
    }
    let mut model: Staged = Staged::new();
    let mut vars: Vars = start_vars(egraph, sorted, &mut model);
    let ghost before = vars;
    simplify(&mut vars, bound, config);
    let n_cols: usize = model.num_cols();
    proof {
        let actives = vars.actives();
        assert(is_reduction(g, roots@, in_order, *config, bound, vars));
        assert forall|c: ClassId| c < g.classes@.len() implies #[trigger] actives[c as int]
            == columns_below(g, c as nat) by {
            assert(vars.classes@[c as int].active == before.classes@[c as int].active);
            assert(before.active(c) == columns_below(g, c as nat));
        }
        lemma_columns_apart(g, in_order, vars@, actives);
    }
    let feasible: bool = stage_problem(&vars, config, &mut model);
    let n_cols: usize = model.num_cols();
    proof {
        if feasible {
            let actives = vars.actives();
            let rows = rows_to(vars@, actives, *config, n as nat);
            assert(encodes(model.lp(), vars@, actives, *config, n as nat));
            assert forall|r: int| 0 <= r < model.lp().rows.len() implies rows.contains(
                #[trigger] model.lp().rows[r],
            ) by {}
            lemma_model_admits(model.lp(), vars@, actives, *config, n as nat);
        }
    }
    let r: (Vars, Staged, bool) = (vars, model, feasible);
    assert(is_reduction(g, roots@, in_order, *config, bound, r.0));
    r
}

/// What a report says of the warm start.
pub open spec fn warm_noted(
    report: SolveReport,
    applied: WarmStart,
    note: Option<WarmNote>,
    objective: Option<Cost>,
) -> SolveReport {
    SolveReport {
        warm_start_applied: applied,
        warm_start_note: note,
        warm_start_objective: objective,
        ..report
    }
}

/// The extraction to start from: the one supplied if it is asked for and there
/// is one, else the greedy one.
pub open spec fn preferred_by(warm: WarmConfig, greedy: Map<ClassId, NodeId>) -> Map<
    ClassId,
    NodeId,
> {
    match (warm.mode, warm.seed) {
        (WarmStart::Initial, Some(seed)) => seed@,
        _ => greedy,
    }
}

/// The start that then is applied.
pub open spec fn effective_mode(warm: WarmConfig) -> WarmStart {
    if warm.mode is Initial && warm.seed is Some {
        WarmStart::Initial
    } else {
        WarmStart::Greedy
    }
}

/// What is said of a start that is applied: how many classes the extraction
/// asked for does not serve, and whether the greedy one stands in for it.
pub open spec fn repair_note(q: Problem, warm: WarmConfig, greedy: Map<ClassId, NodeId>) -> Option<
    WarmNote,
> {
    let repaired = reseeded(q, preferred_by(warm, greedy), greedy).len();
    let degraded = warm.mode is Initial && warm.seed is None;
    if repaired > 0 || degraded {
        Some(WarmNote::Simplified { repaired: repaired as usize, degraded })
    } else {
        None
    }
}

/// What becomes of the start that `warm` asks for: `start` is what the model is
/// started from, and the report says of it what it is, or why it is nothing.
pub open spec fn is_warmed(
    g: EGraph,
    roots: Seq<ClassId>,
    vars: Vars,
    warm: WarmConfig,
    greedy: Map<ClassId, NodeId>,
    supported: bool,
    start: Map<Col, Cost>,
    report: SolveReport,
) -> bool {
    let q = vars@;
    let seeds = seed_choices(q, preferred_by(warm, greedy), greedy);
    if warm.mode is Off {
        &&& start == Map::<Col, Cost>::empty()
        &&& report.warm_start_applied == WarmStart::Off
        &&& report.warm_start_note is None
        &&& report.warm_start_objective is None
    } else if !supported {
        &&& start == Map::<Col, Cost>::empty()
        &&& report.warm_start_applied == WarmStart::Off
        &&& report.warm_start_note == Some(WarmNote::Unsupported)
        &&& report.warm_start_objective is None
    } else if all_served(q, seeds) && holds_part(q, seeds) {
        exists|sel: Map<ClassId, NodeId>|
            {
                &&& #[trigger] solves(q, sel)
                &&& is_part(sel, seeds)
                &&& forall|c: ClassId| #[trigger] sel.contains_key(c) <==> is_used(q, seeds, c)
                &&& is_start(q, vars.actives(), sel, start)
                &&& report.warm_start_applied == effective_mode(warm)
                &&& report.warm_start_note == repair_note(q, warm, greedy)
                &&& report.warm_start_objective == Some(dag_size(g, completed(q, sel), roots))
            }
    } else {
        &&& start == Map::<Col, Cost>::empty()
        &&& report.warm_start_applied == WarmStart::Off
        &&& report.warm_start_note matches Some(WarmNote::Unseeded { why }) && match why {
            SeedFailure::NoMembers { class } => is_used(q, seeds, class) && q.classes.contains_key(
                class,
            ) && q.classes[class].len() == 0,
            SeedFailure::Cycle => all_served(q, seeds),
        }
        &&& report.warm_start_objective is None
    }
}

/// Stages the start that `warm` asks for, and reports what became of it.
fn start_warm(
    egraph: &EGraph,
    roots: &[ClassId],
    vars: &Vars,
    warm: &WarmConfig,
    greedy: &ExtractionResult,
    supported: bool,
    bound: Cost,
    staged: &mut Staged,
    report: &mut SolveReport,
)
    requires
        egraph.wf(),
        costs_valid(*egraph),
        roots_known(*egraph, roots@),
        vars.wf(),
        vars.size() == egraph.classes@.len(),
        stands_for(*egraph, roots@, vars@, bound),
        old(staged).wf(),
        columns_apart(vars@, vars.actives(), old(staged).lp().cols.len()),
        old(staged).start() == Map::<Col, Cost>::empty(),
        old(report).warm_start_applied == WarmStart::Off,
        old(report).warm_start_note is None,
        old(report).warm_start_objective is None,
    ensures
        final(staged).wf(),
        final(staged).lp() == old(staged).lp(),
        final(staged).sent() == old(staged).sent(),
        is_warmed(
            *egraph,
            roots@,
            *vars,
            *warm,
            greedy@,
            supported,
            final(staged).start(),
            *final(report),
        ),
        *final(report) == warm_noted(
            *old(report),
            final(report).warm_start_applied,
            final(report).warm_start_note,
            final(report).warm_start_objective,
        ),
{
    match warm.mode {
        WarmStart::Off => {
            return ;
        },
        _ => {},
    }
    if !supported {
        report.refuse_warm_start(WarmNote::Unsupported);
        return ;
    }
    let mut effective: WarmStart = WarmStart::Greedy;
    let mut degraded: bool = false;
    let mut preferred: &ExtractionResult = greedy;
    match warm.mode {
        WarmStart::Initial => match &warm.seed {
            Some(seed) => {
                preferred = seed;
                effective = WarmStart::Initial;
            },
            None => {
                degraded = true;
            },
        },
        _ => {},
    }
    assert(preferred@ == preferred_by(*warm, greedy@));
    match seed_simplified(vars, preferred, greedy) {
        Ok((picks, repaired)) => {
            let ghost sel = picked(vars@, picks@);
            proof {
                assert(is_part(sel, sel));
                assert(solves(vars@, sel));
                lemma_found(*egraph, roots@, vars@, bound, picks@);
            }
            let (whole, _cost) = complete(vars, &picks);
            report.warm_start_objective = Some(whole.dag_cost(egraph, roots));
            apply_seed(vars, &picks, staged);
            let note: Option<WarmNote> = if repaired > 0 || degraded {
                Some(WarmNote::Simplified { repaired, degraded })
            } else {
                None
            };
            report.accept_warm_start(effective, note);
            assert(is_part(sel, seed_choices(vars@, preferred@, greedy@)));
        },
        Err(why) => {
            report.refuse_warm_start(WarmNote::Unseeded { why });
        },
    }
}

// ---------------------------------------------------------------------------
// Extraction
// ---------------------------------------------------------------------------

/// The whole seconds left of `timeout`; none if the clock went back.
pub open spec fn seconds_left(timeout: u32, elapsed: Cost) -> u32 {
    if elapsed < 0 || elapsed / ONE >= timeout {
        0
    } else {
        (timeout - elapsed / ONE) as u32
    }
}

/// [`seconds_left`].
pub fn remaining_seconds(timeout: u32, elapsed: Cost) -> (r: u32)
    ensures
        r == seconds_left(timeout, elapsed),
{
    if elapsed < 0 || elapsed / ONE >= timeout as i64 {
        0
    } else {
        timeout - (elapsed / ONE) as u32
    }
}

/// `vars` is what the simplifications make of the problem of the roots, in some
/// order.
pub open spec fn is_reduced(
    g: EGraph,
    roots: Seq<ClassId>,
    config: Config,
    bound: Cost,
    vars: Vars,
) -> bool {
    exists|sorted: Seq<ClassId>| #[trigger]
        is_reduction(g, roots, sorted, config, bound, vars)
}

/// A solver that has just begun, silenced, told its threads and where to log, may
/// become this.
pub open spec fn is_opened<M: MilpModel>(
    threads: u32,
    log: Option<String>,
    backend: Seq<char>,
    first: M,
    ready: M,
) -> bool {
    &&& may_begin(first)
    &&& may_be_named(first, backend)
    &&& exists|quiet: M, threaded: M|
        {
            &&& #[trigger] may_log_at(first, 0, quiet)
            &&& #[trigger] may_use_threads(quiet, threads, threaded)
            &&& match log {
                Some(path) => may_log_to(threaded, path@, ready),
                None => ready == threaded,
            }
        }
}

/// One solve of a search: when it was begun, the solver given what is left of the
/// time, the model that it was handed, the solution that it returned, and what it
/// was then.
pub struct Round<M> {
    pub now: Cost,
    pub limited: M,
    pub staged: Staged,
    pub solution: MilpSolution,
    pub done: M,
}

/// The `i`th solve goes on with the solver as it was before, which is given the
/// whole seconds left of `timeout` since `start`.
pub open spec fn is_round<M: MilpModel, C: Clock>(
    vars: Vars,
    config: Config,
    timeout: u32,
    clock: C,
    start: Cost,
    ready: M,
    rounds: Seq<Round<M>>,
    i: int,
) -> bool {
    let round = rounds[i];
    let before = if i == 0 {
        ready
    } else {
        rounds[i - 1].done
    };
    &&& is_staged(vars, config, round.staged)
    &&& may_show(clock, round.now)
    &&& may_limit(before, seconds_left(timeout, minus(round.now, start)), round.limited)
    &&& may_answer(round.limited, round.staged, round.solution, round.done)
}

/// The solution is to be refined, and `next` is the model with the cycles of it
/// blocked, without a start, and what is pending for a solver that has the model.
pub open spec fn refines(
    g: EGraph,
    roots: Seq<ClassId>,
    vars: Vars,
    config: Config,
    bound: Cost,
    staged: Staged,
    solution: MilpSolution,
    next: Staged,
) -> bool {
    exists|v: Verdict|
        {
            &&& #[trigger] is_verdict(g, roots, vars, config, bound, solution, v)
            &&& v matches Verdict::Refine(cycles)
            &&& next.lp() == blocked_all(vars@, cycles@, staged.lp(), cycles@.len())
            &&& next.start() == Map::<Col, Cost>::empty()
            &&& next.in_sync(staged.lp())
        }
}

/// Each of the first solutions is refined for the next solve.
pub open spec fn is_refined<M>(
    g: EGraph,
    roots: Seq<ClassId>,
    vars: Vars,
    config: Config,
    bound: Cost,
    rounds: Seq<Round<M>>,
    i: int,
) -> bool {
    refines(
        g,
        roots,
        vars,
        config,
        bound,
        rounds[i].staged,
        rounds[i].solution,
        rounds[i + 1].staged,
    )
}

/// `rounds` is how a search goes that begins at `start` with the model `first`: the
/// cycles of each solution are blocked before the next solve.
pub open spec fn is_search<M: MilpModel, C: Clock>(
    g: EGraph,
    roots: Seq<ClassId>,
    vars: Vars,
    config: Config,
    bound: Cost,
    timeout: u32,
    clock: C,
    start: Cost,
    ready: M,
    first: Staged,
    rounds: Seq<Round<M>>,
) -> bool {
    &&& may_show(clock, start)
    &&& rounds.len() > 0 ==> rounds[0].staged == first
    &&& forall|i: int|
        0 <= i < rounds.len() ==> #[trigger] is_round(
            vars,
            config,
            timeout,
            clock,
            start,
            ready,
            rounds,
            i,
        )
    &&& forall|i: int|
        0 <= i < rounds.len() - 1 ==> #[trigger] is_refined(
            g,
            roots,
            vars,
            config,
            bound,
            rounds,
            i,
        )
}

/// What is returned on a verdict.
pub open spec fn follows(
    v: Verdict,
    greedy: Map<ClassId, NodeId>,
    sel: Map<ClassId, NodeId>,
    outcome: SolveOutcome,
) -> bool {
    match v {
        Verdict::Infeasible => {
            &&& sel == Map::<ClassId, NodeId>::empty()
            &&& outcome matches SolveOutcome::Fallback { reason }
            &&& reason is NoSolution
        },
        Verdict::Fallback(reason) => {
            &&& sel == greedy
            &&& outcome == (SolveOutcome::Fallback { reason })
        },
        Verdict::Found { extraction, optimal } => {
            &&& sel == extraction@
            &&& outcome == (if optimal {
                SolveOutcome::Optimal
            } else {
                SolveOutcome::Incumbent
            })
        },
        Verdict::Refine(_) => false,
    }
}

/// What is returned is what follows from the verdict on the last of `solves`
/// solutions, which the report records. If no further solve can be counted, a
/// solution that would have to be refined is cyclic.
pub open spec fn is_answer(
    g: EGraph,
    roots: Seq<ClassId>,
    config: Config,
    bound: Cost,
    greedy: Map<ClassId, NodeId>,
    vars: Vars,
    solves: nat,
    solution: MilpSolution,
    sel: Map<ClassId, NodeId>,
    report: SolveReport,
) -> bool {
    &&& exists|v: Verdict| #[trigger]
        is_verdict(g, roots, vars, config, bound, solution, v) && if v is Refine {
            &&& solves == usize::MAX
            &&& follows(
                Verdict::Fallback(FallbackReason::Cyclic),
                greedy,
                sel,
                report.outcome,
            )
        } else {
            follows(v, greedy, sel, report.outcome)
        }
    &&& report.outcome matches SolveOutcome::Fallback {
        reason: FallbackReason::NoSolution { detail },
    } ==> detail@ == solution.detail@
    &&& report.num_solves == solves
    &&& report.status == Some(solution.status_of())
    &&& report.status_detail is Some && report.status_detail->0@ == solution.detail@
    &&& report.objective == (if solution.feasible {
        Some(solution.objective)
    } else {
        None
    })
    &&& report.best_bound == solution.bound
    &&& report.gap == solution.gap_of()
}

/// The model of the simplified problem, all of it pending, with the start that `warm`
/// asks for as far as the solver supports it.
pub open spec fn is_primed<M: MilpModel>(
    g: EGraph,
    roots: Seq<ClassId>,
    config: Config,
    warm: WarmConfig,
    greedy: Map<ClassId, NodeId>,
    vars: Vars,
    ready: M,
    first: Staged,
    report: SolveReport,
) -> bool {
    &&& is_staged(vars, config, first)
    &&& first.sent() == (0nat, 0nat)
    &&& first.lp().rows == rows_to(vars@, vars.actives(), config, vars.size())
    &&& exists|supported: bool| #[trigger]
        may_support(ready, supported) && is_warmed(
            g,
            roots,
            vars,
            warm,
            greedy,
            supported,
            first.start(),
            report,
        )
}

/// `rounds` is the search that the extraction comes of: from the model of the
/// simplified problem with its start on, and until there is an answer. The report
/// holds what the solver's log does at the end.
pub open spec fn is_found_by<M: MilpModel, C: Clock>(
    g: EGraph,
    roots: Seq<ClassId>,
    config: Config,
    timeout: u32,
    warm: WarmConfig,
    clock: C,
    greedy: Map<ClassId, NodeId>,
    vars: Vars,
    ready: M,
    sel: Map<ClassId, NodeId>,
    report: SolveReport,
    first: Staged,
    start: Cost,
    rounds: Seq<Round<M>>,
) -> bool {
    let bound = dag_size(g, greedy, roots);
    &&& rounds.len() > 0
    &&& is_primed(g, roots, config, warm, greedy, vars, ready, first, report)
    &&& is_search(
        g,
        roots,
        vars,
        config,
        bound,
        timeout,
        clock,
        start,
        ready,
        first,
        rounds,
    )
    &&& is_answer(
        g,
        roots,
        config,
        bound,
        greedy,
        vars,
        rounds.len(),
        rounds.last().solution,
        sel,
        report,
    )
    &&& warm.milp_log is Some ==> exists|text: Option<String>| #[trigger]
        is_log(rounds.last().done, warm.milp_log, text) && report.traces(text)
}

/// What holds of every extraction that starts from the greedy one: if a root can be
/// had at infinite size alone, it is the greedy one and the solver is not asked.
/// Else it comes of a search, and is valid and, but for the allowance, no larger
/// than the greedy one, unless the solver says there is none.
pub open spec fn holds_from<M: MilpModel, C: Clock>(
    g: EGraph,
    roots: Seq<ClassId>,
    config: Config,
    timeout: u32,
    warm: WarmConfig,
    clock: C,
    greedy: Map<ClassId, NodeId>,
    vars: Vars,
    ready: M,
    sel: Map<ClassId, NodeId>,
    report: SolveReport,
) -> bool {
    let bound = dag_size(g, greedy, roots);
    &&& valid(g, greedy, roots)
    &&& report.fallback_objective == Some(bound)
    &&& is_reduced(g, roots, config, bound, vars)
    &&& report.num_solves == 0 <==> root_closed(vars@)
    &&& report.num_solves == 0 <==> (report.outcome matches SolveOutcome::Fallback { reason }
        && reason is NotSolved)
    &&& report.num_solves == 0 ==> bound == INFINITY && report.trajectory@.len() == 0
    &&& report.num_solves > 0 ==> exists|first: Staged, start: Cost, rounds: Seq<Round<M>>|
     #[trigger]
        is_found_by(
            g,
            roots,
            config,
            timeout,
            warm,
            clock,
            greedy,
            vars,
            ready,
            sel,
            report,
            first,
            start,
            rounds,
        )
    &&& match report.outcome {
        SolveOutcome::Optimal => {
            &&& valid(g, sel, roots)
            &&& dag_size(g, sel, roots) < bound + 2 * EPSILON_ALLOWANCE
            &&& report.status == Some(MilpStatus::Optimal)
        },
        SolveOutcome::Incumbent => {
            &&& valid(g, sel, roots)
            &&& dag_size(g, sel, roots) < bound
            &&& config.return_improved_on_timeout
            &&& report.status != Some(MilpStatus::Optimal)
        },
        SolveOutcome::Fallback { reason } => if reason is NoSolution {
            &&& sel == Map::<ClassId, NodeId>::empty()
            &&& report.status == Some(MilpStatus::Infeasible)
        } else {
            sel == greedy
        },
    }
}

/// What holds of every extraction: without one to be had it is empty and the
/// solver is not asked; else it starts from that of the tree rule.
pub open spec fn extraction_holds<M: MilpModel, C: Clock>(
    g: EGraph,
    roots: Seq<ClassId>,
    config: Config,
    timeout: u32,
    threads: u32,
    warm: WarmConfig,
    clock: C,
    sel: Map<ClassId, NodeId>,
    report: SolveReport,
) -> bool {
    &&& same_path(report.solver_log, warm.milp_log)
    &&& warm.milp_log is None ==> report.trajectory@.len() == 0
        && report.time_to_first_incumbent_secs is None
    &&& exists|begun: M, ready: M|
        {
            &&& #[trigger] is_opened(threads, warm.milp_log, report.backend@, begun, ready)
            &&& if roots.len() == 0 || !has_extraction(g, roots) {
                &&& sel == Map::<ClassId, NodeId>::empty()
                &&& report.num_solves == 0
                &&& report.fallback_objective is None
                &&& report.trajectory@.len() == 0
                &&& report.outcome matches SolveOutcome::Fallback { reason }
                &&& reason == (FallbackReason::Rejected {
                    why: if roots.len() == 0 {
                        Rejection::NoRoots
                    } else {
                        Rejection::NoValidExtraction
                    },
                })
            } else {
                exists|greedy: Map<ClassId, NodeId>, vars: Vars|
                    is_greedy_by(g, TreeRule, greedy) && #[trigger] holds_from(
                        g,
                        roots,
                        config,
                        timeout,
                        warm,
                        clock,
                        greedy,
                        vars,
                        ready,
                        sel,
                        report,
                    )
            }
        }
}

/// Extracts `roots`. The report says what was asked for, what the solver
/// achieved, and where the extraction came from.
pub fn extract<M: MilpModel, C: Clock>(
    egraph: &EGraph,
    roots: &[ClassId],
    config: &Config,
    timeout: u32,
    threads: u32,
    warm: &WarmConfig,
    clock: &C,
) -> (r: (ExtractionResult, SolveReport))
    requires
        egraph.wf(),
        costs_valid(*egraph),
        roots_known(*egraph, roots@),
    ensures
        r.1.model@ == "area-ilp"@,
        r.1.threads == threads,
        r.1.time_limit == limit_of_seconds(timeout),
        r.1.warm_start_requested == warm.mode,
        extraction_holds::<M, C>(
            *egraph,
            roots@,
            *config,
            timeout,
            threads,
            *warm,
            *clock,
            r.0@,
            r.1,
        ),
{
    let ghost g = *egraph;
    let mut model: M = M::new();
    let ghost begun = model;
    assert(may_begin(begun));
    let backend: String = model.backend_name();
    assert(may_be_named(begun, backend@));
    let mut report: SolveReport = SolveReport::new(
        backend,
        "area-ilp",
        threads,
        time_limit_from_seconds(timeout),
        warm.mode,
    );
    let quiet: Ghost<M> = use_log_level(&mut model, 0);
    assert(may_log_at(begun, 0, quiet@));
    let threaded: Ghost<M> = use_threads(&mut model, threads);
    assert(may_use_threads(quiet@, threads, threaded@));
    if let Some(path) = &warm.milp_log {
        let logged: Ghost<M> = use_log_file(&mut model, path.as_str());
        assert(may_log_to(threaded@, path@, logged@));
        report.solver_log = Some(path.clone());
    }
    let ghost ready = model;
    assert(is_opened(threads, warm.milp_log, report.backend@, begun, ready));
    let greedy: ExtractionResult = GreedySizeExtractor.extract(egraph, roots);
    proof {
        if has_extraction(g, roots@) {
            let sel = choose|sel: Map<ClassId, NodeId>| #[trigger] valid(g, sel, roots@);
            extractable_by_size(g, sel, roots@);
        }
    }
    match CompleteExtraction::try_new(greedy, egraph, roots) {
        Ok(initial) => {
            let initial: ExtractionResult = initial.into_inner();
            assert(valid(g, initial@, roots@));
            assert(has_extraction(g, roots@));
            assert(is_greedy_by(g, TreeRule, initial@));
            let ghost greedy = initial@;
            let r: (ExtractionResult, SolveReport) = improve(
                &mut model,
                egraph,
                roots,
                config,
                timeout,
                warm,
                initial,
                report,
                clock,
            );
            proof {
                let vars = choose|vars: Vars| #[trigger]
                    holds_from(
                        g,
                        roots@,
                        *config,
                        timeout,
                        *warm,
                        *clock,
                        greedy,
                        vars,
                        ready,
                        r.0@,
                        r.1,
                    );
                assert(is_opened(threads, warm.milp_log, r.1.backend@, begun, ready));
                assert(is_greedy_by(g, TreeRule, greedy));
                assert(extraction_holds::<M, C>(
                    g,
                    roots@,
                    *config,
                    timeout,
                    threads,
                    *warm,
                    *clock,
                    r.0@,
                    r.1,
                ));
            }
            r
        },
        Err(why) => {
            let why: Rejection = match why {
                ExtractionError::NoRoots => Rejection::NoRoots,
                _ => Rejection::NoValidExtraction,
            };
            report.outcome = SolveOutcome::Fallback { reason: FallbackReason::Rejected { why } };
            let r: (ExtractionResult, SolveReport) = (ExtractionResult::default(), report);
            assert(is_opened(threads, warm.milp_log, r.1.backend@, begun, ready));
            r
        },
    }
}

/// Looks for an extraction smaller than `initial`.
fn improve<M: MilpModel, C: Clock>(
    model: &mut M,
    egraph: &EGraph,
    roots: &[ClassId],
    config: &Config,
    timeout: u32,
    warm: &WarmConfig,
    initial: ExtractionResult,
    asked: SolveReport,
    clock: &C,
) -> (r: (ExtractionResult, SolveReport))
    requires
        egraph.wf(),
        costs_valid(*egraph),
        roots_known(*egraph, roots@),
        roots@.len() > 0,
        valid(*egraph, initial@, roots@),
        is_greedy_by(*egraph, TreeRule, initial@),
        asked.num_solves == 0,
        asked.warm_start_applied == WarmStart::Off,
        asked.warm_start_note is None,
        asked.warm_start_objective is None,
        asked.trajectory@.len() == 0,
        asked.time_to_first_incumbent_secs is None,
        same_path(asked.solver_log, warm.milp_log),
    ensures
        r.1.backend == asked.backend,
        r.1.model == asked.model,
        r.1.threads == asked.threads,
        r.1.time_limit == asked.time_limit,
        r.1.warm_start_requested == asked.warm_start_requested,
        r.1.solver_log == asked.solver_log,
        warm.milp_log is None ==> r.1.trajectory@.len() == 0
            && r.1.time_to_first_incumbent_secs is None,
        exists|vars: Vars| #[trigger]
            holds_from(
                *egraph,
                roots@,
                *config,
                timeout,
                *warm,
                *clock,
                initial@,
                vars,
                *old(model),
                r.0@,
                r.1,
            ),
{
    let ghost g = *egraph;
    let ghost greedy = initial@;
    let ghost ready = *model;
    let mut report: SolveReport = asked;
    proof {
        lemma_roots_of_valid(g, initial@, roots@);
        assert(has_extraction(g, roots@));
    }
    let build_start: Cost = clock.now();
    let bound: Cost = initial.dag_cost(egraph, roots);
    report.fallback_objective = Some(bound);
    let (vars, staged0, feasible) = stage(egraph, roots, config, bound);
    proof {
        let sorted = choose|sorted: Seq<ClassId>|
            is_reduction(g, roots@, sorted, *config, bound, vars);
        assert(sorts(roots@, sorted));
        assert(stands_for(g, roots@, vars@, bound));
        assert(is_reduced(g, roots@, *config, bound, vars));
    }
    if !feasible {
        // Every extraction is of infinite size.
        proof {
            if bound < INFINITY {
                let sorted = choose|sorted: Seq<ClassId>|
                    is_reduction(g, roots@, sorted, *config, bound, vars);
                solution_is_left(g, roots@, sorted, vars@, initial@);
            }
        }
        report.outcome = SolveOutcome::Fallback { reason: FallbackReason::NotSolved };
        let r: (ExtractionResult, SolveReport) = (initial, report);
        assert(holds_from(
            g,
            roots@,
            *config,
            timeout,
            *warm,
            *clock,
            greedy,
            vars,
            ready,
            r.0@,
            r.1,
        ));
        return r;
    }
    let mut staged: Staged = staged0;
    let supported: bool = model.supports_warm_start();
    assert(may_support(ready, supported));
    start_warm(
        egraph,
        roots,
        &vars,
        warm,
        &initial,
        supported,
        bound,
        &mut staged,
        &mut report,
    );
    let ghost first = staged;
    let ghost noted = report;
    let solve_start: Cost = clock.now();
    assert(may_show(*clock, solve_start));
    report.build_wall_secs = sub_costs(solve_start, build_start);
    let ghost mut rounds: Seq<Round<M>> = Seq::empty();
    assert(is_primed(g, roots@, *config, *warm, greedy, vars, ready, first, noted));
    loop
        invariant
            egraph.wf(),
            g == *egraph,
            costs_valid(g),
            roots_known(g, roots@),
            valid(g, initial@, roots@),
            bound == dag_size(g, initial@, roots@),
            vars.wf(),
            vars.size() == g.classes@.len(),
            stands_for(g, roots@, vars@, bound),
            is_staged(vars, *config, staged),
            greedy == initial@,
            ready == *old(model),
            !root_closed(vars@),
            is_reduced(g, roots@, *config, bound, vars),
            is_primed(g, roots@, *config, *warm, greedy, vars, ready, first, noted),
            is_search(
                g,
                roots@,
                vars,
                *config,
                bound,
                timeout,
                *clock,
                solve_start,
                ready,
                first,
                rounds,
            ),
            rounds.len() == 0 ==> staged == first && *model == ready,
            rounds.len() > 0 ==> *model == rounds.last().done && refines(
                g,
                roots@,
                vars,
                *config,
                bound,
                rounds.last().staged,
                rounds.last().solution,
                staged,
            ),
            rounds.len() == report.num_solves,
            report.num_solves < usize::MAX,
            report.warm_start_applied == noted.warm_start_applied,
            report.warm_start_note == noted.warm_start_note,
            report.warm_start_objective == noted.warm_start_objective,
            report.backend == asked.backend,
            report.model == asked.model,
            report.threads == asked.threads,
            report.time_limit == asked.time_limit,
            report.warm_start_requested == asked.warm_start_requested,
            report.solver_log == asked.solver_log,
            same_path(asked.solver_log, warm.milp_log),
            report.trajectory == asked.trajectory,
            asked.trajectory@.len() == 0,
            asked.time_to_first_incumbent_secs is None,
            report.time_to_first_incumbent_secs == asked.time_to_first_incumbent_secs,
            report.fallback_objective == Some(bound),
        decreases usize::MAX - report.num_solves,
    {
        let ghost handed = staged;
        let (solution, round) = solve_once(model, clock, timeout, solve_start, &staged);
        proof {
            lemma_search_grows(
                g,
                roots@,
                vars,
                *config,
                bound,
                timeout,
                *clock,
                solve_start,
                ready,
                first,
                rounds,
                round@,
            );
            rounds = rounds.push(round@);
        }
        staged.mark_flushed();
        report.num_solves = report.num_solves + 1;
        report.solve_wall_secs = sub_costs(clock.now(), solve_start);
        report.record_solution(&solution);
        let verdict: Verdict = judge(egraph, roots, &vars, config, bound, &solution);
        let ghost judged = verdict;
        let last: Verdict = match verdict {
            Verdict::Refine(cycles) => {
                if report.num_solves < usize::MAX {
                    block_all(&vars, &cycles, config, &mut staged);
                    proof {
                        assert(is_verdict(g, roots@, vars, *config, bound, solution, judged));
                        assert(refines(
                            g,
                            roots@,
                            vars,
                            *config,
                            bound,
                            handed,
                            solution,
                            staged,
                        ));
                    }
                    continue;
                }
                Verdict::Fallback(FallbackReason::Cyclic)
            },
            verdict => verdict,
        };
        return finish_search(
            &*model,
            egraph,
            roots,
            config,
            timeout,
            warm,
            clock,
            last,
            solution,
            initial,
            report,
            Ghost(judged),
            Ghost(bound),
            Ghost(vars),
            Ghost((ready, first, noted, solve_start)),
            Ghost(rounds),
        );
    }
}

/// One solve, with what is left of the time.
fn solve_once<M: MilpModel, C: Clock>(
    model: &mut M,
    clock: &C,
    timeout: u32,
    start: Cost,
    staged: &Staged,
) -> (r: (MilpSolution, Ghost<Round<M>>))
    requires
        staged.wf(),
    ensures
        r.1@.staged == *staged,
        r.1@.solution == r.0,
        r.1@.done == *final(model),
        may_show(*clock, r.1@.now),
        may_limit(
            *old(model),
            seconds_left(timeout, minus(r.1@.now, start)),
            r.1@.limited,
        ),
        may_answer(r.1@.limited, *staged, r.0, *final(model)),
{
    let now: Cost = clock.now();
    assert(may_show(*clock, now));
    let elapsed: Cost = sub_costs(now, start);
    let limited: Ghost<M> = use_limit(model, remaining_seconds(timeout, elapsed));
    assert(may_limit(*old(model), seconds_left(timeout, elapsed), limited@));
    let (solution, done) = ask(model, staged);
    assert(may_answer(limited@, *staged, solution, done@));
    let ghost round = Round { now, limited: limited@, staged: *staged, solution, done: done@ };
    (solution, Ghost(round))
}

/// Ends a search with what follows from the verdict on the last solution.
fn finish_search<M: MilpModel, C: Clock>(
    model: &M,
    egraph: &EGraph,
    roots: &[ClassId],
    config: &Config,
    timeout: u32,
    warm: &WarmConfig,
    clock: &C,
    last: Verdict,
    solution: MilpSolution,
    initial: ExtractionResult,
    report: SolveReport,
    Ghost(judged): Ghost<Verdict>,
    Ghost(bound): Ghost<Cost>,
    Ghost(vars): Ghost<Vars>,
    Ghost(begin): Ghost<(M, Staged, SolveReport, Cost)>,
    Ghost(rounds): Ghost<Seq<Round<M>>>,
) -> (r: (ExtractionResult, SolveReport))
    requires
        valid(*egraph, initial@, roots@),
        bound == dag_size(*egraph, initial@, roots@),
        is_reduced(*egraph, roots@, *config, bound, vars),
        !root_closed(vars@),
        is_primed(
            *egraph,
            roots@,
            *config,
            *warm,
            initial@,
            vars,
            begin.0,
            begin.1,
            begin.2,
        ),
        is_search(
            *egraph,
            roots@,
            vars,
            *config,
            bound,
            timeout,
            *clock,
            begin.3,
            begin.0,
            begin.1,
            rounds,
        ),
        rounds.len() > 0,
        rounds.len() == report.num_solves,
        rounds.last().solution == solution,
        rounds.last().done == *model,
        is_verdict(*egraph, roots@, vars, *config, bound, solution, judged),
        judged matches Verdict::Fallback(reason) ==> !(reason is NoSolution) && !(
        reason is NotSolved),
        judged matches Verdict::Found { extraction, optimal } ==> {
            &&& valid(*egraph, extraction@, roots@)
            &&& optimal ==> dag_size(*egraph, extraction@, roots@) < bound + 2 * EPSILON_ALLOWANCE
            &&& !optimal ==> dag_size(*egraph, extraction@, roots@) < bound
                && config.return_improved_on_timeout
        },
        judged is Refine ==> report.num_solves == usize::MAX,
        last == (if judged is Refine {
            Verdict::Fallback(FallbackReason::Cyclic)
        } else {
            judged
        }),
        report.warm_start_applied == begin.2.warm_start_applied,
        report.warm_start_note == begin.2.warm_start_note,
        report.warm_start_objective == begin.2.warm_start_objective,
        same_path(report.solver_log, warm.milp_log),
        report.trajectory@.len() == 0,
        report.time_to_first_incumbent_secs is None,
        report.fallback_objective == Some(bound),
        report.status == Some(solution.status_of()),
        report.status_detail is Some,
        report.status_detail->0@ == solution.detail@,
        report.objective == (if solution.feasible {
            Some(solution.objective)
        } else {
            None
        }),
        report.best_bound == solution.bound,
        report.gap == solution.gap_of(),
    ensures
        r.1.backend == report.backend,
        r.1.model == report.model,
        r.1.threads == report.threads,
        r.1.time_limit == report.time_limit,
        r.1.warm_start_requested == report.warm_start_requested,
        r.1.solver_log == report.solver_log,
        warm.milp_log is None ==> r.1.trajectory@.len() == 0
            && r.1.time_to_first_incumbent_secs is None,
        holds_from(
            *egraph,
            roots@,
            *config,
            timeout,
            *warm,
            *clock,
            initial@,
            vars,
            begin.0,
            r.0@,
            r.1,
        ),
{
    let ghost g = *egraph;
    let ghost greedy = initial@;
    let ghost answer = solution;
    let r: (ExtractionResult, SolveReport) = finish(
        model,
        &warm.milp_log,
        last,
        solution.detail,
        initial,
        report,
    );
    proof {
        let (ready, first, noted, start) = begin;
        lemma_answered(
            g,
            roots@,
            *config,
            bound,
            greedy,
            vars,
            rounds.len(),
            answer,
            judged,
            r.0@,
            r.1,
        );
        lemma_primed(g, roots@, *config, *warm, greedy, vars, ready, first, noted, r.1);
        assert(is_found_by(
            g,
            roots@,
            *config,
            timeout,
            *warm,
            *clock,
            greedy,
            vars,
            ready,
            r.0@,
            r.1,
            first,
            start,
            rounds,
        ));
    }
    r
}

/// A search goes on with what the last solution is refined to.
proof fn lemma_search_grows<M: MilpModel, C: Clock>(
    g: EGraph,
    roots: Seq<ClassId>,
    vars: Vars,
    config: Config,
    bound: Cost,
    timeout: u32,
    clock: C,
    start: Cost,
    ready: M,
    first: Staged,
    rounds: Seq<Round<M>>,
    round: Round<M>,
)
    requires
        is_search(
            g,
            roots,
            vars,
            config,
            bound,
            timeout,
            clock,
            start,
            ready,
            first,
            rounds,
        ),
        rounds.len() == 0 ==> round.staged == first,
        rounds.len() > 0 ==> refines(
            g,
            roots,
            vars,
            config,
            bound,
            rounds.last().staged,
            rounds.last().solution,
            round.staged,
        ),
        is_staged(vars, config, round.staged),
        may_show(clock, round.now),
        may_limit(
            if rounds.len() == 0 {
                ready
            } else {
                rounds.last().done
            },
            seconds_left(timeout, minus(round.now, start)),
            round.limited,
        ),
        may_answer(round.limited, round.staged, round.solution, round.done),
    ensures
        is_search(
            g,
            roots,
            vars,
            config,
            bound,
            timeout,
            clock,
            start,
            ready,
            first,
            rounds.push(round),
        ),
{
    let all = rounds.push(round);
    assert forall|i: int| 0 <= i < all.len() implies #[trigger] is_round(
        vars,
        config,
        timeout,
        clock,
        start,
        ready,
        all,
        i,
    ) by {
        if i < rounds.len() {
            assert(is_round(vars, config, timeout, clock, start, ready, rounds, i));
        }
    }
    assert forall|i: int| 0 <= i < all.len() - 1 implies #[trigger] is_refined(
        g,
        roots,
        vars,
        config,
        bound,
        all,
        i,
    ) by {
        if i < rounds.len() - 1 {
            assert(is_refined(g, roots, vars, config, bound, rounds, i));
        }
    }
}

/// Blocks cycles.
fn block_all(vars: &Vars, cycles: &Vec<Vec<ClassId>>, config: &Config, staged: &mut Staged)
    requires
        vars.wf(),
        is_staged(*vars, *config, *old(staged)),
        forall|i: int| 0 <= i < cycles@.len() ==> blockable(vars@, (#[trigger] cycles@[i])@),
    ensures
        is_staged(*vars, *config, *final(staged)),
        final(staged).lp() == blocked_all(vars@, cycles@, old(staged).lp(), cycles@.len()),
        final(staged).start() == old(staged).start(),
        final(staged).sent() == old(staged).sent(),
        old(staged).delta().kept_by(final(staged).delta()),
{
    let mut k: usize = 0;
    while k < cycles.len()
        invariant
            vars.wf(),
            is_staged(*vars, *config, *staged),
            staged.lp() == blocked_all(vars@, cycles@, old(staged).lp(), k as nat),
            staged.start() == old(staged).start(),
            staged.sent() == old(staged).sent(),
            old(staged).delta().kept_by(staged.delta()),
            k <= cycles@.len(),
            forall|i: int| 0 <= i < cycles@.len() ==> blockable(vars@, (#[trigger] cycles@[i])@),
        decreases cycles@.len() - k,
    {
        assert(blockable(vars@, cycles@[k as int]@));
        proof {
            lemma_blocked_sense(vars@, cycles@[k as int]@, staged.lp());
        }
        block_cycle(vars, &cycles[k], config, staged);
        k += 1;
    }
}

/// What is returned on a verdict that ends the search, with the incumbents over
/// time, read from the solver's log, in the report. What the log holds is up to the
/// solver.
fn finish<M: MilpModel>(
    model: &M,
    log: &Option<String>,
    verdict: Verdict,
    detail: String,
    greedy: ExtractionResult,
    report: SolveReport,
) -> (r: (ExtractionResult, SolveReport))
    requires
        !(verdict is Refine),
        same_path(report.solver_log, *log),
    ensures
        follows(verdict, greedy@, r.0@, r.1.outcome),
        verdict is Infeasible ==> (r.1.outcome matches SolveOutcome::Fallback {
            reason: FallbackReason::NoSolution { detail: said },
        } && said@ == detail@),
        exists|text: Option<String>|
            {
                &&& #[trigger] is_log(*model, *log, text)
                &&& report.loads(text, (SolveReport { outcome: report.outcome, ..r.1 }))
                &&& log is Some ==> r.1.traces(text)
            },
{
    let mut report: SolveReport = report;
    let ghost before = report;
    let text: Option<String> = read_log_of(model, log);
    report.load_trajectory(&text);
    let ghost read = report;
    assert(is_log(*model, *log, text));
    match verdict {
        Verdict::Infeasible => {
            report.outcome = SolveOutcome::Fallback {
                reason: FallbackReason::NoSolution { detail },
            };
            assert(SolveReport { outcome: before.outcome, ..report } == read);
            (ExtractionResult::default(), report)
        },
        Verdict::Fallback(reason) => {
            report.outcome = SolveOutcome::Fallback { reason };
            assert(SolveReport { outcome: before.outcome, ..report } == read);
            (greedy, report)
        },
        Verdict::Found { extraction, optimal } => {
            report.outcome = if optimal {
                SolveOutcome::Optimal
            } else {
                SolveOutcome::Incumbent
            };
            assert(SolveReport { outcome: before.outcome, ..report } == read);
            (extraction, report)
        },
        Verdict::Refine(_) => (greedy, report),
    }
}

/// How a search began does not depend on how it ended.
proof fn lemma_primed<M: MilpModel>(
    g: EGraph,
    roots: Seq<ClassId>,
    config: Config,
    warm: WarmConfig,
    greedy: Map<ClassId, NodeId>,
    vars: Vars,
    ready: M,
    first: Staged,
    before: SolveReport,
    after: SolveReport,
)
    requires
        is_primed(g, roots, config, warm, greedy, vars, ready, first, before),
        after.warm_start_applied == before.warm_start_applied,
        after.warm_start_note == before.warm_start_note,
        after.warm_start_objective == before.warm_start_objective,
    ensures
        is_primed(g, roots, config, warm, greedy, vars, ready, first, after),
{
    let supported = choose|supported: bool| #[trigger]
        may_support(ready, supported) && is_warmed(
            g,
            roots,
            vars,
            warm,
            greedy,
            supported,
            first.start(),
            before,
        );
    assert(is_warmed(g, roots, vars, warm, greedy, supported, first.start(), after));
}

/// What follows from a verdict is an extraction as it should be.
proof fn lemma_answered(
    g: EGraph,
    roots: Seq<ClassId>,
    config: Config,
    bound: Cost,
    greedy: Map<ClassId, NodeId>,
    vars: Vars,
    solves: nat,
    solution: MilpSolution,
    v: Verdict,
    sel: Map<ClassId, NodeId>,
    report: SolveReport,
)
    requires
        is_verdict(g, roots, vars, config, bound, solution, v),
        v matches Verdict::Fallback(reason) ==> !(reason is NoSolution) && !(reason is NotSolved),
        v matches Verdict::Found { extraction, optimal } ==> {
            &&& valid(g, extraction@, roots)
            &&& optimal ==> dag_size(g, extraction@, roots) < bound + 2 * EPSILON_ALLOWANCE
            &&& !optimal ==> dag_size(g, extraction@, roots) < bound
                && config.return_improved_on_timeout
        },
        v is Refine ==> solves == usize::MAX,
        follows(
            if v is Refine {
                Verdict::Fallback(FallbackReason::Cyclic)
            } else {
                v
            },
            greedy,
            sel,
            report.outcome,
        ),
        report.outcome matches SolveOutcome::Fallback {
            reason: FallbackReason::NoSolution { detail },
        } ==> detail@ == solution.detail@,
        report.num_solves == solves,
        report.status == Some(solution.status_of()),
        report.status_detail is Some,
        report.status_detail->0@ == solution.detail@,
        report.objective == (if solution.feasible {
            Some(solution.objective)
        } else {
            None
        }),
        report.best_bound == solution.bound,
        report.gap == solution.gap_of(),
    ensures
        is_answer(g, roots, config, bound, greedy, vars, solves, solution, sel, report),
        !(report.outcome matches SolveOutcome::Fallback { reason } && reason is NotSolved),
        match report.outcome {
            SolveOutcome::Optimal => {
                &&& valid(g, sel, roots)
                &&& dag_size(g, sel, roots) < bound + 2 * EPSILON_ALLOWANCE
                &&& report.status == Some(MilpStatus::Optimal)
            },
            SolveOutcome::Incumbent => {
                &&& valid(g, sel, roots)
                &&& dag_size(g, sel, roots) < bound
                &&& config.return_improved_on_timeout
                &&& report.status != Some(MilpStatus::Optimal)
            },
            SolveOutcome::Fallback { reason } => if reason is NoSolution {
                &&& sel == Map::<ClassId, NodeId>::empty()
                &&& report.status == Some(MilpStatus::Infeasible)
            } else {
                sel == greedy
            },
        },
{
    if !solution.infeasible && !is_unwanted(config, solution, bound) && all_readable(
        vars@,
        vars.actives(),
        on_in(solution),
    ) {
        let read = choose|read: Map<ClassId, NodeId>| #[trigger]
            reads(vars@, vars.actives(), on_in(solution), read) && verdict_on(
                g,
                roots,
                vars@,
                bound,
                solution,
                read,
                v,
            );
    }
}

/// The simplifying ILP extractor with a time limit that is part of its type.
pub struct FasterIlpExtractorWithTimeout<const TIMEOUT_IN_SECONDS: u32>;

/// [`FasterIlpExtractorWithTimeout`], under its former name.
pub type FasterCbcExtractorWithTimeout<const TIMEOUT_IN_SECONDS: u32> =
    FasterIlpExtractorWithTimeout<TIMEOUT_IN_SECONDS>;

impl<const TIMEOUT_IN_SECONDS: u32> FasterIlpExtractorWithTimeout<TIMEOUT_IN_SECONDS> {
    pub fn new() -> (r: Self)
        ensures
            r == FasterIlpExtractorWithTimeout::<TIMEOUT_IN_SECONDS>,
    {
        FasterIlpExtractorWithTimeout
    }

    /// [`extract`] with the default simplifications, on one thread and without
    /// a start.
    pub fn extract_with<M: MilpModel, C: Clock>(
        &self,
        egraph: &EGraph,
        roots: &[ClassId],
        clock: &C,
    ) -> (r: ExtractionResult)
        requires
            egraph.wf(),
            costs_valid(*egraph),
            roots_known(*egraph, roots@),
        ensures
            exists|report: SolveReport| #[trigger]
                extraction_holds::<M, C>(
                    *egraph,
                    roots@,
                    default_config(),
                    TIMEOUT_IN_SECONDS,
                    1,
                    unwarmed(),
                    *clock,
                    r@,
                    report,
                ),
    {
        let (extraction, report) = extract::<M, C>(
            egraph,
            roots,
            &Config::default(),
            TIMEOUT_IN_SECONDS,
            1,
            &WarmConfig::default(),
            clock,
        );
        extraction
    }
}

/// The simplifying ILP extractor.
pub struct FasterIlpExtractor {
    /// Solver time limit in seconds; `u32::MAX` is to run until it finishes,
    /// which on a hard instance is to hang.
    pub timeout_seconds: u32,
    /// Solver threads for each solve.
    pub threads: u32,
    /// Warm start and solver log.
    pub warm: WarmConfig,
}

/// [`FasterIlpExtractor`], under its former name.
pub type FasterCbcExtractor = FasterIlpExtractor;

impl Default for FasterIlpExtractor {
    /// No time limit, one thread, no start and no log.
    fn default() -> (r: Self)
        ensures
            r.timeout_seconds == u32::MAX,
            r.threads == 1,
            r.warm == unwarmed(),
    {
        FasterIlpExtractor { timeout_seconds: u32::MAX, threads: 1, warm: WarmConfig::default() }
    }
}

impl FasterIlpExtractor {
    /// The extraction of [`Self::extract_with_report`].
    pub fn extract_with<M: MilpModel, C: Clock>(
        &self,
        egraph: &EGraph,
        roots: &[ClassId],
        clock: &C,
    ) -> (r: ExtractionResult)
        requires
            egraph.wf(),
            costs_valid(*egraph),
            roots_known(*egraph, roots@),
        ensures
            exists|report: SolveReport| #[trigger]
                extraction_holds::<M, C>(
                    *egraph,
                    roots@,
                    default_config(),
                    self.timeout_seconds,
                    self.threads,
                    self.warm,
                    *clock,
                    r@,
                    report,
                ),
    {
        let (extraction, report) = self.extract_with_report::<M, C>(egraph, roots, clock);
        extraction
    }

    /// [`extract`] with the default simplifications.
    pub fn extract_with_report<M: MilpModel, C: Clock>(
        &self,
        egraph: &EGraph,
        roots: &[ClassId],
        clock: &C,
    ) -> (r: (ExtractionResult, SolveReport))
        requires
            egraph.wf(),
            costs_valid(*egraph),
            roots_known(*egraph, roots@),
        ensures
            r.1.model@ == "area-ilp"@,
            r.1.threads == self.threads,
            r.1.time_limit == limit_of_seconds(self.timeout_seconds),
            r.1.warm_start_requested == self.warm.mode,
            extraction_holds::<M, C>(
                *egraph,
                roots@,
                default_config(),
                self.timeout_seconds,
                self.threads,
                self.warm,
                *clock,
                r.0@,
                r.1,
            ),
    {
        extract::<M, C>(
            egraph,
            roots,
            &Config::default(),
            self.timeout_seconds,
            self.threads,
            &self.warm,
            clock,
        )
    }
}

} // verus!
