//! What an outcome called optimal is worth.
use crate::cost::{saturate, Cost, INFINITY, ONE};
use crate::egraph::{ClassId, EGraph, NodeId};
use crate::extract::ilp::decode::is_decoding;
use crate::extract::ilp::model::{is_model, IlpVars};
use crate::extract::ilp::objective::IlpObjective;
use crate::extract::ilp::optimality::{
    budget_is_met, is_optimal_point, meets_budget, model_value, objective_at,
    optimal_depth_is_shallowest, optimal_objective_is_value, optimal_point_is_optimal,
    optimal_size_is_smallest, optimal_value_is_least,
};
use crate::extract::ilp::options::IlpOptions;
use crate::extract::ilp::report::{FallbackReason, SolveReport};
use crate::extract::ilp::seeding::figures_fit;
use crate::extract::ilp::solve::{
    amounts_valid, is_outcome, is_outcome_of, is_reading, is_run_of, Prepared,
};
use crate::extract::ilp::soundness::{feasible_is_valid, rounds_to};
use crate::extract::measure::lemma_roots_of_valid;
use crate::extract::selection::{dag_depth_of, dag_size, valid};
use crate::extract::CompleteExtraction;
use crate::milp::stage::{Col, Lp, Staged};
use crate::milp::steps::{lemma_may_solve, may_solve};
use crate::milp::{MilpModel, MilpSense, MilpSolution, MilpStatus};
use vstd::prelude::*;

verus! {

/// The integral columns of `solution` are those of an optimal point.
pub open spec fn is_optimum(lp: Lp, solution: MilpSolution) -> bool {
    exists|x: Seq<int>, den: int| #[trigger]
        is_optimal_point(lp, x, den) && forall|j: Col|
            j < lp.cols.len() && (#[trigger] lp.cols[j as int]).integral ==> solution.value_of(j)
                * den == x[j as int] * ONE
}

/// The solver is right whenever it calls a solution of a model to be minimised
/// optimal.
pub open spec fn is_honest<M: MilpModel>() -> bool {
    forall|staged: Staged, solution: MilpSolution|
        staged.wf() && staged.lp().sense == MilpSense::Minimize && #[trigger] may_solve::<M>(
            staged,
            solution,
        ) && solution.status_of() == MilpStatus::Optimal ==> is_optimum(staged.lp(), solution)
}

/// `solution` is called optimal, its columns are those of an optimal point, and
/// its objective is that of the point.
pub open spec fn is_exact_answer(lp: Lp, solution: MilpSolution) -> bool {
    &&& solution.status_of() == MilpStatus::Optimal
    &&& exists|x: Seq<int>, den: int|
        {
            &&& #[trigger] is_optimal_point(lp, x, den)
            &&& forall|j: Col|
                j < lp.cols.len() && (#[trigger] lp.cols[j as int]).integral
                    ==> solution.value_of(j) * den == x[j as int] * ONE
            &&& solution.objective == saturate(objective_at(lp, x) / (den * ONE))
        }
}

/// The solver is right whenever it calls a solution of a model to be minimised
/// optimal, and so is the objective that it reports with it.
pub open spec fn is_faithful<M: MilpModel>() -> bool {
    forall|staged: Staged, solution: MilpSolution|
        staged.wf() && staged.lp().sense == MilpSense::Minimize && #[trigger] may_solve::<M>(
            staged,
            solution,
        ) && solution.status_of() == MilpStatus::Optimal ==> is_exact_answer(staged.lp(), solution)
}

/// What the solver was handed for an outcome, and what it returned.
pub struct Handed {
    pub staged: Staged,
    pub vars: IlpVars,
    pub solution: MilpSolution,
    pub read: Result<(CompleteExtraction, bool), FallbackReason>,
}

/// The solver was handed the model of the request, and the outcome is what its
/// solution reads as wherever that is proven optimal.
proof fn lemma_handed<M: MilpModel>(
    g: EGraph,
    roots: Seq<ClassId>,
    objective: IlpObjective,
    options: IlpOptions,
    initial: Option<CompleteExtraction>,
    initial_wall_secs: Option<Cost>,
    sel: Map<ClassId, NodeId>,
    report: SolveReport,
) -> (h: Handed)
    requires
        g.wf(),
        objective.resolved(),
        is_outcome::<M>(
            g,
            roots,
            objective,
            options,
            initial,
            initial_wall_secs,
            sel,
            report,
        ),
    ensures
        roots.len() > 0,
        amounts_valid(g, objective),
        h.staged.wf(),
        is_model(g, roots, objective, h.vars, h.staged.lp()),
        may_solve::<M>(h.staged, h.solution),
        is_reading(g, roots, h.vars, h.solution, h.read),
        valid(g, sel, roots),
        report.status == Some(h.solution.status_of()),
        report.objective == (if h.solution.feasible {
            Some(h.solution.objective)
        } else {
            None
        }),
        report.outcome is Optimal ==> (h.read matches Ok((e, optimal)) && optimal && e@ == sel),
        h.read matches Ok((e, optimal)) ==> (optimal ==> report.outcome is Optimal),
{
    let (p, first, asked, solved) = choose|
        p: Prepared,
        first: M,
        asked: SolveReport,
        solved: Result<(CompleteExtraction, bool), FallbackReason>,
    | #[trigger]
        is_outcome_of(
            g,
            roots,
            objective,
            options,
            initial,
            initial_wall_secs,
            sel,
            report,
            p,
            first,
            asked,
            solved,
        );
    assert(p.objective == objective);
    let (ready, staged, vars, solution, done) = choose|
        ready: M,
        staged: Staged,
        vars: IlpVars,
        solution: MilpSolution,
        done: M,
    | #[trigger]
        is_run_of(
            g,
            roots,
            objective,
            options,
            p.start_from(),
            first,
            p.report,
            asked,
            solved,
            ready,
            staged,
            vars,
            solution,
            done,
        );
    lemma_may_solve(ready, staged, solution, done);
    Handed { staged, vars, solution, read: solved }
}

/// A solution whose integral columns are those of a point rounds to it.
proof fn lemma_rounds(lp: Lp, solution: MilpSolution, x: Seq<int>, den: int)
    requires
        den > 0,
        forall|j: Col|
            j < lp.cols.len() && (#[trigger] lp.cols[j as int]).integral ==> solution.value_of(j)
                * den == x[j as int] * ONE,
    ensures
        rounds_to(lp, solution, x, den),
{
}

/// A solver that proves optimality leads to an outcome called optimal: with a solver
/// that is right whenever it calls a solution optimal, there is no fallback then.
pub proof fn proven_outcome_is_optimal<M: MilpModel>(
    g: EGraph,
    roots: Seq<ClassId>,
    objective: IlpObjective,
    options: IlpOptions,
    initial: Option<CompleteExtraction>,
    initial_wall_secs: Option<Cost>,
    sel: Map<ClassId, NodeId>,
    report: SolveReport,
)
    requires
        g.wf(),
        objective.resolved(),
        is_outcome::<M>(
            g,
            roots,
            objective,
            options,
            initial,
            initial_wall_secs,
            sel,
            report,
        ),
        report.status == Some(MilpStatus::Optimal),
        report.objective is Some,
        is_honest::<M>(),
    ensures
        report.outcome is Optimal,
{
    let h = lemma_handed::<M>(
        g,
        roots,
        objective,
        options,
        initial,
        initial_wall_secs,
        sel,
        report,
    );
    let lp = h.staged.lp();
    assert(is_optimum(lp, h.solution));
    let (x, den) = choose|x: Seq<int>, den: int| #[trigger]
        is_optimal_point(lp, x, den) && forall|j: Col|
            j < lp.cols.len() && (#[trigger] lp.cols[j as int]).integral ==> h.solution.value_of(j)
                * den == x[j as int] * ONE;
    lemma_rounds(lp, h.solution, x, den);
    let read = choose|read: Map<ClassId, NodeId>|
        {
            &&& #[trigger] is_decoding(g, h.vars.classes@, h.solution, read)
            &&& h.read is Ok <==> roots.len() > 0 && valid(g, read, roots)
            &&& h.read matches Ok((extraction, optimal)) ==> extraction@ == read && optimal == (
            h.solution.completed && !h.solution.infeasible)
        };
    lemma_roots_of_valid(g, sel, roots);
    feasible_is_valid(g, roots, objective, h.vars, lp, x, den, h.solution, read);
}

/// With a solver whose objective is right too, the objective reported with an outcome
/// called optimal is what the extraction is worth, but for a millionth of rounding.
/// Sizes and depths that do not fit an amount are left out.
pub proof fn proven_objective_is_the_value<M: MilpModel>(
    g: EGraph,
    roots: Seq<ClassId>,
    objective: IlpObjective,
    options: IlpOptions,
    initial: Option<CompleteExtraction>,
    initial_wall_secs: Option<Cost>,
    sel: Map<ClassId, NodeId>,
    report: SolveReport,
)
    requires
        g.wf(),
        figures_fit(g),
        objective.resolved(),
        is_outcome::<M>(
            g,
            roots,
            objective,
            options,
            initial,
            initial_wall_secs,
            sel,
            report,
        ),
        report.outcome is Optimal,
        dag_size(g, sel, roots) < INFINITY,
        is_faithful::<M>(),
    ensures
        report.objective matches Some(v) && objective.value_of(g, sel, roots) <= v
            <= objective.value_of(g, sel, roots) + 1,
{
    let h = lemma_handed::<M>(
        g,
        roots,
        objective,
        options,
        initial,
        initial_wall_secs,
        sel,
        report,
    );
    let lp = h.staged.lp();
    assert(is_exact_answer(lp, h.solution));
    let (x, den) = choose|x: Seq<int>, den: int|
        {
            &&& #[trigger] is_optimal_point(lp, x, den)
            &&& forall|j: Col|
                j < lp.cols.len() && (#[trigger] lp.cols[j as int]).integral
                    ==> h.solution.value_of(j) * den == x[j as int] * ONE
            &&& h.solution.objective == saturate(objective_at(lp, x) / (den * ONE))
        };
    lemma_rounds(lp, h.solution, x, den);
    assert(is_decoding(g, h.vars.classes@, h.solution, sel));
    lemma_roots_of_valid(g, sel, roots);
    optimal_objective_is_value(g, roots, objective, h.vars, lp, x, den, h.solution, sel);
}

/// With a solver that is right whenever it calls a solution optimal, an outcome
/// that is called optimal meets its budget, and what the model minimises is no more
/// for it than for any other extraction that does. So it is worth no more than
/// another of finite size, but for a millionth by which the two may be rounded
/// differently; of a size objective none is smaller, of the depth objective none is
/// less deep. Depths whose double does not fit an amount are left out.
pub proof fn optimal_outcome_is_optimal<M: MilpModel>(
    g: EGraph,
    roots: Seq<ClassId>,
    objective: IlpObjective,
    options: IlpOptions,
    initial: Option<CompleteExtraction>,
    initial_wall_secs: Option<Cost>,
    sel: Map<ClassId, NodeId>,
    report: SolveReport,
    other: Map<ClassId, NodeId>,
)
    requires
        g.wf(),
        figures_fit(g),
        objective.resolved(),
        is_outcome::<M>(
            g,
            roots,
            objective,
            options,
            initial,
            initial_wall_secs,
            sel,
            report,
        ),
        report.outcome is Optimal,
        is_honest::<M>(),
        valid(g, other, roots),
        meets_budget(g, objective, other, roots),
    ensures
        valid(g, sel, roots),
        meets_budget(g, objective, sel, roots),
        model_value(g, objective, sel, roots) <= model_value(g, objective, other, roots),
        dag_size(g, other, roots) < INFINITY ==> objective.value_of(g, sel, roots)
            <= objective.value_of(g, other, roots) + 1,
        dag_size(g, other, roots) < INFINITY ==> (objective matches IlpObjective::WeightedSizeDepth {
            size_weight,
            depth_weight,
        } ==> size_weight * dag_size(g, sel, roots) + depth_weight * dag_depth_of(g, sel, roots)
            <= size_weight * dag_size(g, other, roots) + depth_weight * dag_depth_of(
            g,
            other,
            roots,
        )),
        objective == IlpObjective::Size || objective is SizeConstrainedDepth ==> dag_size(
            g,
            sel,
            roots,
        ) <= dag_size(g, other, roots),
        objective == IlpObjective::Depth ==> dag_depth_of(g, sel, roots) <= dag_depth_of(
            g,
            other,
            roots,
        ),
{
    let h = lemma_handed::<M>(
        g,
        roots,
        objective,
        options,
        initial,
        initial_wall_secs,
        sel,
        report,
    );
    let (vars, solution, lp) = (h.vars, h.solution, h.staged.lp());
    assert(is_decoding(g, vars.classes@, solution, sel));
    assert(is_optimum(lp, solution));
    let (x, den) = choose|x: Seq<int>, den: int| #[trigger]
        is_optimal_point(lp, x, den) && forall|j: Col|
            j < lp.cols.len() && (#[trigger] lp.cols[j as int]).integral ==> solution.value_of(j)
                * den == x[j as int] * ONE;
    lemma_rounds(lp, solution, x, den);
    lemma_roots_of_valid(g, sel, roots);
    optimal_point_is_optimal(g, roots, objective, vars, lp, x, den, solution, sel, other);
    if dag_size(g, other, roots) < INFINITY {
        optimal_value_is_least(g, roots, objective, vars, lp, x, den, solution, sel, other);
    }
    if let Some(budget) = objective.limit() {
        budget_is_met(g, roots, objective, budget, vars, lp, x, den, solution, sel);
    }
    if objective == IlpObjective::Size || objective is SizeConstrainedDepth {
        optimal_size_is_smallest(g, roots, objective, vars, lp, x, den, solution, sel, other);
    }
    if objective == IlpObjective::Depth {
        optimal_depth_is_shallowest(g, roots, vars, lp, x, den, solution, sel, other);
    }
}

} // verus!
