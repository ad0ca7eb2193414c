//! What a solver's report is taken for, and what a solver is told.
use crate::cost::{Cost, INFINITY, NEG_INFINITY};
use crate::milp::cbc;
use crate::milp::cbc::CbcReport;
use crate::milp::gurobi;
use crate::milp::gurobi::{GurobiReport, GurobiStatus, ParamKind, RowCat, RowKind, RowSense};
use crate::milp::highs;
use crate::milp::highs::{HighsReport, HighsStatus, PrimalStatus};
use crate::milp::stage::{snapped, Col, Staged};
use crate::milp::{MilpSolution, MilpStatus};
use vstd::prelude::*;

verus! {

/// A solution is infeasible if it says so, else optimal if the solver ran to
/// completion, else a timeout, with or without a solution.
pub proof fn status_of_a_solution(s: MilpSolution, status: MilpStatus)
    requires
        call_ensures(MilpSolution::status, (&s,), status),
    ensures
        status == MilpStatus::Infeasible <==> s.infeasible,
        status == MilpStatus::Optimal <==> !s.infeasible && s.completed,
        status == MilpStatus::TimeoutWithSolution <==> !s.infeasible && !s.completed && s.feasible,
        status == MilpStatus::TimeoutNoSolution <==> !s.infeasible && !s.completed && !s.feasible,
{
}

/// The predicates and figures of a solution are those it was made with, and a column
/// that it does not have is zero.
pub proof fn readings_of_a_solution(
    s: MilpSolution,
    infeasible: bool,
    completed: bool,
    feasible: bool,
    objective: Cost,
    bound: Option<Cost>,
    j: Col,
    value: Cost,
)
    requires
        call_ensures(MilpSolution::is_infeasible, (&s,), infeasible),
        call_ensures(MilpSolution::ran_to_completion, (&s,), completed),
        call_ensures(MilpSolution::has_solution, (&s,), feasible),
        call_ensures(MilpSolution::obj_value, (&s,), objective),
        call_ensures(MilpSolution::best_bound, (&s,), bound),
        call_ensures(MilpSolution::col, (&s, j), value),
    ensures
        infeasible == s.infeasible,
        completed == s.completed,
        feasible == s.feasible,
        objective == s.objective,
        bound == s.bound,
        j < s.values@.len() ==> value == s.values@[j as int],
        j >= s.values@.len() ==> value == 0,
{
}

/// A report of Gurobi that is optimal is an optimal solution, one that is infeasible,
/// or infeasible or unbounded, an infeasible one; what a limit cut off is a timeout,
/// with a solution exactly if one is reported.
pub proof fn gurobi_reports_are_taken_at_their_word(
    staged: Staged,
    report: GurobiReport,
    s: MilpSolution,
    status: MilpStatus,
)
    requires
        call_ensures(gurobi::solution_of, (&staged, report), s),
        call_ensures(MilpSolution::status, (&s,), status),
    ensures
        report.status == GurobiStatus::Optimal || report.status == GurobiStatus::Unbounded
            || report.status == GurobiStatus::CutOff ==> status == MilpStatus::Optimal
            && s.completed,
        report.status == GurobiStatus::Infeasible || report.status == GurobiStatus::InfOrUnbd
            ==> status == MilpStatus::Infeasible && s.completed,
        report.status == GurobiStatus::Other && report.solutions > 0 ==> status
            == MilpStatus::TimeoutWithSolution && !s.completed,
        report.status == GurobiStatus::Other && report.solutions <= 0 ==> status
            == MilpStatus::TimeoutNoSolution && !s.completed,
        s.feasible <==> report.solutions > 0,
        s.bound == report.bound,
        s.detail == report.detail,
        report.solutions > 0 && report.objective is Some ==> Some(s.objective) == report.objective,
        report.solutions <= 0 || report.objective is None ==> s.objective == INFINITY,
        s.values@.len() == staged.lp().cols.len(),
        forall|j: int|
            #![trigger s.values@[j]]
            0 <= j < s.values@.len() ==> {
                let there = report.solutions > 0 && report.values is Some && j
                    < report.values->0@.len();
                let value = if there {
                    report.values->0@[j]
                } else {
                    0
                };
                &&& !staged.lp().cols[j].integral ==> s.values@[j] == value
                &&& staged.lp().cols[j].integral ==> is_nearest_whole(value, s.values@[j])
            },
{
    assert forall|j: int|
        #![trigger s.values@[j]]
        0 <= j < s.values@.len() && staged.lp().cols[j].integral implies is_nearest_whole(
        gurobi::reported(report, j),
        s.values@[j],
    ) by {
        snapping_goes_to_the_nearest(gurobi::reported(report, j));
    }
}

/// A report of HiGHS that is optimal is an optimal solution, one that is infeasible an
/// infeasible one; what a limit, an interrupt or an error cut off is a timeout, with a
/// solution exactly if a feasible point is reported.
pub proof fn highs_reports_are_taken_at_their_word(
    staged: Staged,
    report: HighsReport,
    s: MilpSolution,
    status: MilpStatus,
)
    requires
        call_ensures(highs::solution_of, (&staged, report), s),
        call_ensures(MilpSolution::status, (&s,), status),
    ensures
        report.status == HighsStatus::Optimal || report.status == HighsStatus::Unbounded
            || report.status == HighsStatus::UnboundedOrInfeasible || report.status
            == HighsStatus::ModelEmpty ==> status == MilpStatus::Optimal && s.completed,
        report.status == HighsStatus::Infeasible ==> status == MilpStatus::Infeasible
            && s.completed,
        report.status == HighsStatus::TimeLimit || report.status == HighsStatus::IterationLimit
            || report.status == HighsStatus::SolutionLimit || report.status
            == HighsStatus::MemoryLimit || report.status == HighsStatus::Interrupt || report.status
            == HighsStatus::Unknown || report.status == HighsStatus::ObjectiveBound
            || report.status == HighsStatus::ObjectiveTarget || report.status == HighsStatus::NotSet
            || report.status == HighsStatus::LoadError || report.status == HighsStatus::ModelError
            || report.status == HighsStatus::PresolveError || report.status
            == HighsStatus::SolveError || report.status == HighsStatus::PostsolveError
            || report.status == HighsStatus::Unrecognised ==> !s.completed && status == (
        if report.primal == PrimalStatus::Feasible {
            MilpStatus::TimeoutWithSolution
        } else {
            MilpStatus::TimeoutNoSolution
        }),
        s.feasible <==> report.primal == PrimalStatus::Feasible,
        s.bound == report.bound,
        s.detail == report.detail,
        report.primal == PrimalStatus::Feasible ==> s.objective == report.objective,
        report.primal != PrimalStatus::Feasible ==> s.objective == INFINITY,
        s.values@.len() == staged.lp().cols.len(),
        forall|j: int|
            #![trigger s.values@[j]]
            0 <= j < s.values@.len() ==> {
                let there = report.primal == PrimalStatus::Feasible && j < report.values@.len();
                &&& !there ==> s.values@[j] == 0
                &&& there && !staged.lp().cols[j].integral ==> s.values@[j] == report.values@[j]
                &&& there && staged.lp().cols[j].integral ==> is_nearest_whole(
                    report.values@[j],
                    s.values@[j],
                )
            },
{
    assert forall|j: int|
        #![trigger s.values@[j]]
        0 <= j < s.values@.len() && report.primal == PrimalStatus::Feasible && j
            < report.values@.len() && staged.lp().cols[j].integral implies is_nearest_whole(
        report.values@[j],
        s.values@[j],
    ) by {
        snapping_goes_to_the_nearest(report.values@[j]);
    }
}

/// A report of CBC that is finished and feasible is an optimal solution, one that is
/// infeasible an infeasible one, and what was cut off a timeout; there is a solution
/// exactly if there is an objective.
pub proof fn cbc_reports_are_taken_at_their_word(
    staged: Staged,
    report: CbcReport,
    s: MilpSolution,
    status: MilpStatus,
)
    requires
        call_ensures(cbc::solution_of, (&staged, report), s),
        call_ensures(MilpSolution::status, (&s,), status),
    ensures
        status == (if report.infeasible {
            MilpStatus::Infeasible
        } else if report.finished {
            MilpStatus::Optimal
        } else if report.objective is Some {
            MilpStatus::TimeoutWithSolution
        } else {
            MilpStatus::TimeoutNoSolution
        }),
        s.completed == report.finished,
        s.feasible <==> report.objective is Some,
        report.objective is Some ==> Some(s.objective) == report.objective,
        report.objective is None ==> s.objective == INFINITY,
        s.bound == report.bound,
        s.detail == report.detail,
        s.values@.len() == staged.lp().cols.len(),
        forall|j: int|
            #![trigger s.values@[j]]
            0 <= j < s.values@.len() ==> s.values@[j] == (if j < report.values@.len() {
                report.values@[j]
            } else {
                0
            }),
{
}

/// `w` is a whole number of units that `v` is half a unit from, at most.
pub open spec fn is_nearest_whole(v: Cost, w: Cost) -> bool {
    -9_000_000_000_000_000_000 < v < 9_000_000_000_000_000_000 ==> {
        &&& exists|k: int| w == #[trigger] (k * 1_000_000)
        &&& -500_000 <= v - w <= 500_000
    }
}

/// Snapping goes to the nearest whole number.
pub proof fn snapping_goes_to_the_nearest(v: Cost)
    ensures
        is_nearest_whole(v, snapped(v)),
{
    if -9_000_000_000_000_000_000 < v < 9_000_000_000_000_000_000 {
        if v >= 0 {
            let k = (v + 500_000) / 1_000_000;
            assert(snapped(v) == k * 1_000_000);
        } else {
            let k = -((500_000 - v) / 1_000_000);
            assert(snapped(v) == k * 1_000_000);
        }
    }
}

/// The gap is the distance of the bound from the objective, as a part of the
/// objective, in millionths, rounded down; there is none without an incumbent or a
/// bound.
pub proof fn gap_is_the_relative_distance(s: MilpSolution, gap: Option<Cost>, obj: int, bound: int)
    requires
        call_ensures(MilpSolution::gap, (&s,), gap),
        obj == s.objective,
        s.bound matches Some(b) ==> bound == b,
    ensures
        !s.feasible || s.bound is None ==> gap is None,
        s.bound is Some && (obj == INFINITY || obj == NEG_INFINITY || bound == INFINITY || bound
            == NEG_INFINITY) ==> gap is None,
        s.feasible && s.bound is Some && NEG_INFINITY < obj < INFINITY && NEG_INFINITY < bound
            < INFINITY ==> gap is Some,
        gap matches Some(v) ==> {
            &&& v >= 0 && (v == 0 || bound != obj)
            &&& obj == 0 ==> (v == 0 <==> bound == 0)
            &&& v < INFINITY && obj > 0 && bound <= obj ==> v * obj <= (obj - bound) * 1_000_000 < (
            v + 1) * obj
            &&& v < INFINITY && obj > 0 && bound > obj ==> v * obj <= (bound - obj) * 1_000_000 < (v
                + 1) * obj
            &&& v < INFINITY && obj < 0 && bound <= obj ==> v * -obj <= (obj - bound) * 1_000_000 < (
            v + 1) * -obj
            &&& v < INFINITY && obj < 0 && bound > obj ==> v * -obj <= (bound - obj) * 1_000_000 < (v
                + 1) * -obj
        },
{
    if s.feasible && s.bound is Some && gap is Some {
        let size = if obj < 0 {
            -obj
        } else {
            obj
        };
        let distance = if obj < bound {
            bound - obj
        } else {
            obj - bound
        };
        if obj != 0 {
            vstd::arithmetic::div_mod::lemma_fundamental_div_mod(distance * 1_000_000, size);
            vstd::arithmetic::div_mod::lemma_mod_bound(distance * 1_000_000, size);
            vstd::arithmetic::div_mod::lemma_div_pos_is_pos(distance * 1_000_000, size);
            let q = (distance * 1_000_000) / size;
            assert(q * size == size * q && (q + 1) * size == size * q + size)
                by (nonlinear_arith);
            if distance == 0 {
                assert(q == 0) by (nonlinear_arith)
                    requires
                        q * size <= 0,
                        q >= 0,
                        size > 0,
                ;
            }
        }
    }
}

/// A row's pattern admits exactly what its bounds do, a bound that is infinite being
/// none, and is a range exactly if two different bounds are there.
pub proof fn pattern_admits_what_the_bounds_do(lower: Cost, upper: Cost, cat: RowCat, x: int)
    requires
        call_ensures(gurobi::categorize, (lower, upper), cat),
    ensures
        (match cat {
            RowCat::Eq(v) => x == v,
            RowCat::Ge(v) => v <= x,
            RowCat::Le(v) => x <= v,
            RowCat::Range(a, b) => a <= x <= b,
            RowCat::Free => true,
        }) <==> (NEG_INFINITY < lower < INFINITY ==> lower <= x) && (NEG_INFINITY < upper < INFINITY
            ==> x <= upper),
        cat is Range <==> NEG_INFINITY < lower < INFINITY && NEG_INFINITY < upper < INFINITY
            && lower != upper,
{
}

/// A pattern that is not a range says the same as its relation; a range needs a
/// variable of its own.
pub proof fn relation_says_what_the_pattern_does(
    cat: RowCat,
    kind: RowKind,
    relation: (RowSense, Option<Cost>),
    x: int,
)
    requires
        call_ensures(RowCat::kind, (cat,), kind),
        call_ensures(RowCat::as_relation, (cat,), relation),
    ensures
        kind == RowKind::Ranged <==> cat is Range,
        !(cat is Range) ==> ((match relation {
            (RowSense::Equal, Some(v)) => x == v,
            (RowSense::Greater, Some(v)) => v <= x,
            (RowSense::Less, Some(v)) => x <= v,
            (_, None) => true,
        }) <==> (match cat {
            RowCat::Eq(v) => x == v,
            RowCat::Ge(v) => v <= x,
            RowCat::Le(v) => x <= v,
            _ => true,
        })),
{
}

/// As many threads as asked for, and at least one.
pub proof fn threads_are_those_asked_for(threads: u32, gurobi_threads: i32, highs_threads: u32)
    requires
        call_ensures(gurobi::thread_count, (threads,), gurobi_threads),
        call_ensures(highs::thread_count, (threads,), highs_threads),
    ensures
        gurobi_threads >= 1 && highs_threads >= 1,
        threads > 0 ==> highs_threads == threads,
        0 < threads <= i32::MAX ==> gurobi_threads == threads,
        threads <= 1 ==> gurobi_threads == 1 && highs_threads == 1,
        threads > i32::MAX ==> gurobi_threads == i32::MAX,
{
}

/// A parameter is of the first type, of integer, number and text, that it can be read
/// as.
pub proof fn parameters_are_of_the_first_type_that_reads(
    as_int: bool,
    as_double: bool,
    as_text: bool,
    kind: ParamKind,
)
    requires
        call_ensures(gurobi::param_kind, (as_int, as_double, as_text), kind),
    ensures
        kind == ParamKind::Int <==> as_int,
        kind == ParamKind::Double <==> !as_int && as_double,
        kind == ParamKind::Text <==> !as_int && !as_double && as_text,
        kind == ParamKind::Unknown <==> !as_int && !as_double && !as_text,
{
}

} // verus!
