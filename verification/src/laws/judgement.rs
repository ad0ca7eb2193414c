//! What the simplifying extractor makes of a solution, and what it returns.
use crate::cost::{Cost, INFINITY};
use crate::egraph::{ClassId, EGraph, NodeId};
use crate::extract::faster_ilp_cbc::converge::lemma_one_reading;
use crate::extract::faster_ilp_cbc::cycles::{holds_part, is_cycle, is_part, lemma_no_cycle};
use crate::extract::faster_ilp_cbc::encoding::{only_on, reads};
use crate::extract::faster_ilp_cbc::optimum::Course;
use crate::extract::faster_ilp_cbc::problem::{
    choice_of, lemma_offered, lemma_place, place, solves, solves_with, sound_class, Vars,
};
use crate::extract::faster_ilp_cbc::read::{
    all_readable, chosen_cost, on_in, readable, sole_on,
};
use crate::extract::faster_ilp_cbc::simplify::completed;
use crate::extract::faster_ilp_cbc::{
    extraction_holds, follows, is_answer, is_found_by, is_verdict, judge, remaining_seconds, verdict_on, Config,
    Verdict, WarmConfig,
};
use crate::extract::ilp::fallback::has_extraction;
use crate::extract::ilp::objective::CandidateName;
use crate::extract::ilp::report::{FallbackReason, SolveOutcome, SolveReport};
use crate::extract::ilp::solve::Clock;
use crate::extract::selection::{dag_size, valid};
use crate::milp::{MilpModel, MilpSolution, MilpStatus};
use vstd::prelude::*;

verus! {

/// Below the roots of the problem, `sel` chooses for every class that is needed, and
/// has no cycle: `rank` falls from each class of `part` to what it needs.
pub open spec fn holds_together(
    vars: Vars,
    sel: Map<ClassId, NodeId>,
    part: Map<ClassId, NodeId>,
    rank: Map<ClassId, nat>,
) -> bool {
    &&& forall|c: ClassId| #[trigger]
        part.contains_key(c) ==> sel.contains_key(c) && sel[c] == part[c]
    &&& forall|r: ClassId| #[trigger] vars@.roots.contains(r) ==> part.contains_key(r)
    &&& forall|c: ClassId, d: ClassId|
        part.contains_key(c) && #[trigger] choice_of(vars@, c, part[c]).kids.contains(d)
            ==> part.contains_key(d) && rank[d] < rank[c]
}

/// `sel` chooses for the roots of the problem, and with a class for all it needs.
pub open spec fn leaves_nothing_open(vars: Vars, sel: Map<ClassId, NodeId>) -> bool {
    &&& forall|r: ClassId| #[trigger] vars@.roots.contains(r) ==> sel.contains_key(r)
    &&& forall|c: ClassId, d: ClassId|
        sel.contains_key(c) && #[trigger] choice_of(vars@, c, sel[c]).kids.contains(d)
            ==> sel.contains_key(d)
}

/// What reads as some choices can be read.
proof fn lemma_can_be_read(vars: Vars, solution: MilpSolution, sel: Map<ClassId, NodeId>)
    requires
        vars.wf(),
        reads(vars@, vars.actives(), on_in(solution), sel),
    ensures
        all_readable(vars@, vars.actives(), on_in(solution)),
{
    let q = vars@;
    let on = on_in(solution);
    assert forall|c: ClassId| #[trigger]
        q.classes.contains_key(c) && on(vars.actives()[c as int]) implies readable(
        q.classes[c],
        on,
    ) by {
        let list = q.classes[c];
        assert(sel.contains_key(c));
        if list.len() != 1 {
            assert(only_on(list, on, sel[c]));
            assert(sound_class(q, list));
            lemma_offered(list, sel[c]);
            let i = place(list, sel[c]);
            assert forall|m: int| 0 <= m < list.len() implies on((#[trigger] list[m]).variable) == (
            m == i) by {
                lemma_place(list, m);
            }
            assert(sole_on(list, on, list.len() as int, i));
        }
    }
}

proof fn lemma_holds_part(
    vars: Vars,
    solution: MilpSolution,
    sel: Map<ClassId, NodeId>,
    part: Map<ClassId, NodeId>,
    rank: Map<ClassId, nat>,
)
    requires
        reads(vars@, vars.actives(), on_in(solution), sel),
        holds_together(vars, sel, part, rank),
    ensures
        holds_part(vars@, sel),
{
    assert(solves_with(vars@, part, rank));
    assert(is_part(part, sel));
    assert(solves(vars@, part));
}

/// A solution that says the model is infeasible is taken at its word, whatever its
/// columns; one that was cut off is not read at all if improvements are not wanted, or
/// if it is worth more than the greedy extraction.
pub proof fn unwanted_solutions_are_not_read(
    g: EGraph,
    roots: &[ClassId],
    vars: Vars,
    config: Config,
    bound: Cost,
    solution: MilpSolution,
    v: Verdict,
)
    requires
        call_ensures(judge, (&g, roots, &vars, &config, bound, &solution), v),
    ensures
        solution.infeasible ==> v is Infeasible,
        v is Infeasible ==> solution.infeasible,
        !solution.infeasible && !solution.completed && !config.return_improved_on_timeout ==> v
            == Verdict::Fallback(FallbackReason::Unfinished { objective: solution.objective }),
        !solution.infeasible && !solution.completed && solution.objective > bound ==> v
            == Verdict::Fallback(FallbackReason::Unfinished { objective: solution.objective }),
        (v matches Verdict::Fallback(FallbackReason::Unfinished { objective }) ==> objective
            == solution.objective && !solution.completed && (!config.return_improved_on_timeout
            || solution.objective > bound)),
{
}

/// An improvement is returned though the solver was cut off: if improvements are
/// wanted, and the solution is worth no more than the greedy extraction and reads as
/// choices that hold together, then these are returned as an incumbent if they are
/// smaller than the greedy extraction, and it is returned otherwise.
pub proof fn improvements_are_returned_though_cut_off(
    g: EGraph,
    roots: &[ClassId],
    vars: Vars,
    config: Config,
    bound: Cost,
    solution: MilpSolution,
    v: Verdict,
    sel: Map<ClassId, NodeId>,
    part: Map<ClassId, NodeId>,
    rank: Map<ClassId, nat>,
    whole: Map<ClassId, NodeId>,
)
    requires
        vars.wf(),
        call_ensures(judge, (&g, roots, &vars, &config, bound, &solution), v),
        !solution.infeasible,
        !solution.completed,
        config.return_improved_on_timeout,
        solution.objective <= bound,
        reads(vars@, vars.actives(), on_in(solution), sel),
        leaves_nothing_open(vars, sel),
        holds_together(vars, sel, part, rank),
        whole == vars@.decided.union_prefer_right(sel),
    ensures
        dag_size(g, whole, roots@) < bound ==> (v matches Verdict::Found { extraction, optimal }
            && extraction@ == whole && !optimal),
        dag_size(g, whole, roots@) >= bound ==> v == Verdict::Fallback(
            FallbackReason::Worse {
                value: dag_size(g, whole, roots@),
                candidate: CandidateName::GreedySize,
                objective: bound,
            },
        ),
{
    lemma_can_be_read(vars, solution, sel);
    lemma_holds_part(vars, solution, sel, part, rank);
    let read = choose|read: Map<ClassId, NodeId>| #[trigger]
        reads(vars@, vars.actives(), on_in(solution), read) && verdict_on(
            g,
            roots@,
            vars@,
            bound,
            solution,
            read,
            v,
        );
    lemma_one_reading(vars@, vars.size(), vars.actives(), on_in(solution), read, sel);
}

/// A solution that was solved to completion and reads as choices that hold together is
/// returned as optimal, if what the choices cost, the size of the extraction and the
/// objective agree but for the allowance and exceed the greedy extraction by no more;
/// else it is inconsistent.
pub proof fn optimal_solutions_are_returned(
    g: EGraph,
    roots: &[ClassId],
    vars: Vars,
    config: Config,
    bound: Cost,
    solution: MilpSolution,
    v: Verdict,
    sel: Map<ClassId, NodeId>,
    part: Map<ClassId, NodeId>,
    rank: Map<ClassId, nat>,
    whole: Map<ClassId, NodeId>,
    cost: int,
    size: int,
)
    requires
        vars.wf(),
        call_ensures(judge, (&g, roots, &vars, &config, bound, &solution), v),
        !solution.infeasible,
        solution.completed,
        reads(vars@, vars.actives(), on_in(solution), sel),
        leaves_nothing_open(vars, sel),
        holds_together(vars, sel, part, rank),
        whole == vars@.decided.union_prefer_right(sel),
        cost == chosen_cost(vars@, sel, g.classes@.len()),
        size == dag_size(g, whole, roots@),
        bound < INFINITY - 10,
    ensures
        (cost <= bound + 10 && -10 < size - cost < 10 && -10 < cost - solution.objective < 10)
            ==> (v matches Verdict::Found { extraction, optimal } && extraction@ == whole && optimal),
        !(cost <= bound + 10 && -10 < size - cost < 10 && -10 < cost - solution.objective < 10)
            ==> v == Verdict::Fallback(FallbackReason::Inconsistent),
{
    lemma_can_be_read(vars, solution, sel);
    lemma_holds_part(vars, solution, sel, part, rank);
    let read = choose|read: Map<ClassId, NodeId>| #[trigger]
        reads(vars@, vars.actives(), on_in(solution), read) && verdict_on(
            g,
            roots@,
            vars@,
            bound,
            solution,
            read,
            v,
        );
    lemma_one_reading(vars@, vars.size(), vars.actives(), on_in(solution), read, sel);
}

/// What is to be refined has cycles, which are listed; what was cut off with a cycle is
/// not returned.
pub proof fn cycles_are_refined_unless_cut_off(
    g: EGraph,
    roots: &[ClassId],
    vars: Vars,
    config: Config,
    bound: Cost,
    solution: MilpSolution,
    v: Verdict,
    sel: Map<ClassId, NodeId>,
    cycle: Seq<ClassId>,
)
    requires
        vars.wf(),
        call_ensures(judge, (&g, roots, &vars, &config, bound, &solution), v),
        !solution.infeasible,
        solution.completed || (config.return_improved_on_timeout && solution.objective <= bound),
        reads(vars@, vars.actives(), on_in(solution), sel),
        leaves_nothing_open(vars, sel),
        is_cycle(vars@, sel, cycle),
    ensures
        solution.completed ==> (v matches Verdict::Refine(cycles) && cycles@.len() > 0 && forall|
            i: int,
        |
            0 <= i < cycles@.len() ==> is_cycle(vars@, sel, (#[trigger] cycles@[i])@)),
        !solution.completed ==> v == Verdict::Fallback(FallbackReason::Cyclic),
{
    lemma_can_be_read(vars, solution, sel);
    if holds_part(vars@, sel) {
        let part = choose|part: Map<ClassId, NodeId>|
            is_part(part, sel) && #[trigger] solves(vars@, part);
        lemma_no_cycle(vars@, sel, part, cycle);
    }
    let read = choose|read: Map<ClassId, NodeId>| #[trigger]
        reads(vars@, vars.actives(), on_in(solution), read) && verdict_on(
            g,
            roots@,
            vars@,
            bound,
            solution,
            read,
            v,
        );
    lemma_one_reading(vars@, vars.size(), vars.actives(), on_in(solution), read, sel);
}

/// Choices that need a class without a choice are inconsistent, and so are columns that
/// cannot be read.
pub proof fn gaps_are_inconsistent(
    g: EGraph,
    roots: &[ClassId],
    vars: Vars,
    config: Config,
    bound: Cost,
    solution: MilpSolution,
    v: Verdict,
)
    requires
        vars.wf(),
        call_ensures(judge, (&g, roots, &vars, &config, bound, &solution), v),
        !solution.infeasible,
        solution.completed || (config.return_improved_on_timeout && solution.objective <= bound),
    ensures
        forall|sel: Map<ClassId, NodeId>| #[trigger]
            reads(vars@, vars.actives(), on_in(solution), sel) && !leaves_nothing_open(vars, sel)
                ==> v == Verdict::Fallback(FallbackReason::Inconsistent),
        (forall|sel: Map<ClassId, NodeId>|
            !#[trigger] reads(vars@, vars.actives(), on_in(solution), sel)) ==> v
            == Verdict::Fallback(FallbackReason::Inconsistent),
{
    assert forall|sel: Map<ClassId, NodeId>| #[trigger]
        reads(vars@, vars.actives(), on_in(solution), sel) && !leaves_nothing_open(
            vars,
            sel,
        ) implies v == Verdict::Fallback(FallbackReason::Inconsistent) by {
        lemma_can_be_read(vars, solution, sel);
        let read = choose|read: Map<ClassId, NodeId>| #[trigger]
            reads(vars@, vars.actives(), on_in(solution), read) && verdict_on(
                g,
                roots@,
                vars@,
                bound,
                solution,
                read,
                v,
            );
        lemma_one_reading(vars@, vars.size(), vars.actives(), on_in(solution), read, sel);
    }
}

/// What an extraction returns on a timeout: if the last solution of its search was cut
/// off, is worth no more than the greedy extraction and reads as choices that hold
/// together, the smaller of the two, called an incumbent if it is not the greedy one.
pub proof fn timed_out_search_returns_the_smaller<M: MilpModel, C: Clock>(
    g: EGraph,
    roots: Seq<ClassId>,
    config: Config,
    timeout: u32,
    warm: WarmConfig,
    clock: C,
    out: Map<ClassId, NodeId>,
    report: SolveReport,
    c: Course<M>,
    sel: Map<ClassId, NodeId>,
    part: Map<ClassId, NodeId>,
    rank: Map<ClassId, nat>,
    whole: Map<ClassId, NodeId>,
)
    requires
        is_found_by(
            g,
            roots,
            config,
            timeout,
            warm,
            clock,
            c.greedy,
            c.vars,
            c.ready,
            out,
            report,
            c.first,
            c.start,
            c.rounds,
        ),
        c.vars.wf(),
        config.return_improved_on_timeout,
        !c.rounds.last().solution.infeasible,
        !c.rounds.last().solution.completed,
        c.rounds.last().solution.objective <= dag_size(g, c.greedy, roots),
        reads(c.vars@, c.vars.actives(), on_in(c.rounds.last().solution), sel),
        leaves_nothing_open(c.vars, sel),
        holds_together(c.vars, sel, part, rank),
        whole == c.vars@.decided.union_prefer_right(sel),
    ensures
        dag_size(g, whole, roots) < dag_size(g, c.greedy, roots) ==> out == whole
            && report.outcome == SolveOutcome::Incumbent,
        dag_size(g, whole, roots) >= dag_size(g, c.greedy, roots) ==> out == c.greedy
            && report.outcome is Fallback,
        dag_size(g, out, roots) == (if dag_size(g, whole, roots) < dag_size(g, c.greedy, roots) {
            dag_size(g, whole, roots)
        } else {
            dag_size(g, c.greedy, roots)
        }),
{
    let solution = c.rounds.last().solution;
    let vars = c.vars;
    let bound = dag_size(g, c.greedy, roots);
    lemma_can_be_read(vars, solution, sel);
    lemma_holds_part(vars, solution, sel, part, rank);
    let v = choose|v: Verdict| #[trigger]
        is_verdict(g, roots, vars, config, bound, solution, v) && if v is Refine {
            &&& c.rounds.len() == usize::MAX
            &&& crate::extract::faster_ilp_cbc::follows(
                Verdict::Fallback(FallbackReason::Cyclic),
                c.greedy,
                out,
                report.outcome,
            )
        } else {
            crate::extract::faster_ilp_cbc::follows(v, c.greedy, out, report.outcome)
        };
    let read = choose|read: Map<ClassId, NodeId>| #[trigger]
        reads(vars@, vars.actives(), on_in(solution), read) && verdict_on(
            g,
            roots,
            vars@,
            bound,
            solution,
            read,
            v,
        );
    lemma_one_reading(vars@, vars.size(), vars.actives(), on_in(solution), read, sel);
}

/// Whatever the solver does, what is extracted is valid and no larger than the greedy
/// extraction, but for the allowance twice where it is called optimal, unless the
/// solver says that there is none. Only what the solver proved is called optimal, and
/// only what it did not prove an incumbent; without an extraction there is none.
pub proof fn extractions_are_no_worse_than_greedy<M: MilpModel, C: Clock>(
    g: EGraph,
    roots: Seq<ClassId>,
    config: Config,
    timeout: u32,
    threads: u32,
    warm: WarmConfig,
    clock: C,
    sel: Map<ClassId, NodeId>,
    report: SolveReport,
)
    requires
        extraction_holds::<M, C>(g, roots, config, timeout, threads, warm, clock, sel, report),
    ensures
        roots.len() == 0 || (forall|other: Map<ClassId, NodeId>| !#[trigger] valid(g, other, roots))
            ==> sel == Map::<ClassId, NodeId>::empty() && report.outcome is Fallback
            && report.num_solves == 0,
        roots.len() > 0 && (exists|other: Map<ClassId, NodeId>| #[trigger] valid(g, other, roots))
            ==> {
            &&& report.fallback_objective is Some
            &&& report.outcome is Optimal ==> valid(g, sel, roots) && dag_size(g, sel, roots)
                < report.fallback_objective->0 + 20 && report.status == Some(MilpStatus::Optimal)
            &&& report.outcome is Incumbent ==> valid(g, sel, roots) && dag_size(g, sel, roots)
                < report.fallback_objective->0 && config.return_improved_on_timeout
                && report.status != Some(MilpStatus::Optimal)
            &&& report.outcome matches SolveOutcome::Fallback { reason } ==> {
                &&& !(reason is NoSolution) ==> valid(g, sel, roots) && dag_size(g, sel, roots)
                    == report.fallback_objective->0
                &&& reason is NoSolution ==> report.status == Some(MilpStatus::Infeasible)
            }
        },
{
    assert(has_extraction(g, roots) <==> exists|other: Map<ClassId, NodeId>| #[trigger]
        valid(g, other, roots));
}

/// The time left for a solve is the time limit less the whole seconds that have gone by,
/// and none once these reach it.
pub proof fn time_runs_out(timeout: u32, elapsed: Cost, left: u32)
    requires
        call_ensures(remaining_seconds, (timeout, elapsed), left),
    ensures
        0 <= elapsed < timeout * 1_000_000 ==> left > 0 && (timeout - left) * 1_000_000 <= elapsed
            < (timeout - left + 1) * 1_000_000,
        elapsed >= timeout * 1_000_000 ==> left == 0,
        left <= timeout,
{
}

/// Every simplification is made by default but moving least costs to classes, and
/// improvements are returned on a timeout.
pub proof fn defaults_simplify(config: Config)
    requires
        call_ensures(Config::default, (), config),
    ensures
        config.pull_up_costs && config.remove_self_loops && config.remove_high_cost_nodes
            && config.remove_more_expensive_subsumed_nodes && config.remove_unreachable_classes
            && config.pull_up_single_parent && config.take_intersection_of_children_in_class
            && config.find_extra_roots && config.remove_empty_classes
            && config.return_improved_on_timeout && config.remove_single_zero_cost,
        !config.move_min_cost_of_members_to_class,
{
}

/// A search reports what its last solution came to, and how many there were. What it is
/// answered is empty exactly if the solver says that there is no solution; with a solution
/// that is not to be read, or not consistent, it is the greedy extraction.
pub proof fn searches_report_their_last_solution(
    g: EGraph,
    roots: Seq<ClassId>,
    config: Config,
    bound: Cost,
    greedy: Map<ClassId, NodeId>,
    vars: Vars,
    solves: nat,
    solution: MilpSolution,
    sel: Map<ClassId, NodeId>,
    report: SolveReport,
)
    requires
        is_answer(g, roots, config, bound, greedy, vars, solves, solution, sel, report),
    ensures
        report.num_solves == solves,
        report.status == Some(
            if solution.infeasible {
                MilpStatus::Infeasible
            } else if solution.completed {
                MilpStatus::Optimal
            } else if solution.feasible {
                MilpStatus::TimeoutWithSolution
            } else {
                MilpStatus::TimeoutNoSolution
            },
        ),
        report.status_detail is Some && report.status_detail->0@ == solution.detail@,
        solution.feasible ==> report.objective == Some(solution.objective),
        !solution.feasible ==> report.objective is None,
        report.best_bound == solution.bound,
        report.gap == solution.gap_of(),
        solution.infeasible ==> sel == Map::<ClassId, NodeId>::empty() && (
        report.outcome matches SolveOutcome::Fallback {
            reason: FallbackReason::NoSolution { detail },
        } && detail@ == solution.detail@),
        !solution.infeasible && !solution.completed && !config.return_improved_on_timeout ==> sel
            == greedy && report.outcome == (SolveOutcome::Fallback {
            reason: FallbackReason::Unfinished { objective: solution.objective },
        }),
        !solution.infeasible && report.outcome is Fallback ==> sel == greedy,
        report.outcome is Optimal ==> solution.completed && !solution.infeasible,
        report.outcome is Incumbent ==> !solution.completed && !solution.infeasible,
{
    let v = choose|v: Verdict| #[trigger]
        is_verdict(g, roots, vars, config, bound, solution, v) && if v is Refine {
            &&& solves == usize::MAX
            &&& follows(
                Verdict::Fallback(FallbackReason::Cyclic),
                greedy,
                sel,
                report.outcome,
            )
        } else {
            follows(v, greedy, sel, report.outcome)
        };
}

} // verus!
