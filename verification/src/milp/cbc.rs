//! What the CBC backend makes of its solver's answer.
//!
//! The solver is handed the whole model on every solve. Its MIP start is not
//! used: it reads a start as long as an earlier model, and takes columns that
//! were not started for zero.
use crate::cost::{Cost, INFINITY};
use crate::milp::stage::Staged;
use crate::milp::MilpSolution;
use vstd::prelude::*;

verus! {

/// What the solver reports of a solve.
pub struct CbcReport {
    /// The solver finished, be it that it proved the model infeasible.
    pub finished: bool,
    pub infeasible: bool,
    /// The value of each column.
    pub values: Vec<Cost>,
    /// The objective, but for the huge number that stands for none.
    pub objective: Option<Cost>,
    /// The best possible objective, but for the huge number that stands for
    /// none.
    pub bound: Option<Cost>,
    pub detail: String,
}

/// The solution a report amounts to. There is one if there is an objective.
pub fn solution_of(staged: &Staged, report: CbcReport) -> (r: MilpSolution)
    ensures
        r.infeasible == report.infeasible,
        r.completed == report.finished,
        r.feasible == (report.objective is Some),
        r.objective == (match report.objective {
            Some(v) => v,
            None => INFINITY,
        }),
        r.bound == report.bound,
        r.detail == report.detail,
        r.values@.len() == staged.lp().cols.len(),
        forall|j: int|
            0 <= j < r.values@.len() ==> (#[trigger] r.values@[j]) == (if j
                < report.values@.len() {
                report.values@[j]
            } else {
                0
            }),
{
    let n: usize = staged.num_cols();
    let mut values: Vec<Cost> = Vec::new();
    while values.len() < n
        invariant
            values@.len() <= n,
            forall|j: int|
                0 <= j < values@.len() ==> (#[trigger] values@[j]) == (if j
                    < report.values@.len() {
                    report.values@[j]
                } else {
                    0
                }),
        decreases n - values@.len(),
    {
        let j: usize = values.len();
        let v: Cost = if j < report.values.len() {
            report.values[j]
        } else {
            0
        };
        values.push(v);
    }
    let (feasible, objective): (bool, Cost) = match report.objective {
        Some(v) => (true, v),
        None => (false, INFINITY),
    };
    MilpSolution {
        values,
        objective,
        infeasible: report.infeasible,
        completed: report.finished,
        feasible,
        bound: report.bound,
        detail: report.detail,
    }
}

} // verus!
