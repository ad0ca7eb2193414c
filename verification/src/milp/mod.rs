//! A solver-agnostic interface to mixed-integer linear programming.
//!
//! A model is described in a [`Staged`], which any [`MilpModel`] can solve.
//! Solutions are plain values: they borrow nothing from the solver, so a
//! description can be extended while an earlier solution of it is at hand.
use crate::cost::{saturate_wide, Cost, INFINITY, NEG_INFINITY};
use vstd::prelude::*;

pub mod cbc;
pub mod gurobi;
pub mod highs;
pub mod point;
pub mod stage;
pub mod steps;
pub mod trajectory;

pub use stage::{Col, Row, Staged};

verus! {

/// Direction of the objective.
#[derive(Debug, Clone, Copy, PartialEq, Eq, Structural)]
pub enum MilpSense {
    Minimize,
    Maximize,
}

/// Solver-neutral summary of a solve.
///
/// `Infeasible` and "the solver finished" do not exclude each other: a model
/// proven infeasible was solved to completion. Where the difference matters,
/// use the predicates of [`MilpSolution`].
#[derive(Debug, Clone, Copy, PartialEq, Eq, Structural)]
pub enum MilpStatus {
    /// The solver ran to completion with a proven-optimal incumbent.
    Optimal,
    /// The model was proven infeasible.
    Infeasible,
    /// The solver stopped early but has a feasible incumbent.
    TimeoutWithSolution,
    /// The solver stopped early with no feasible solution found. Reading
    /// column values in this state is meaningless.
    TimeoutNoSolution,
}

/// A solved assignment.
#[derive(Debug, Clone)]
pub struct MilpSolution {
    /// The value of each column.
    pub values: Vec<Cost>,
    /// Objective value of the incumbent, [`INFINITY`] without one, so that no
    /// solution compares worse than any.
    pub objective: Cost,
    /// The model was proven to have no feasible solution.
    pub infeasible: bool,
    /// The solver terminated of its own accord rather than being cut off by a
    /// limit. A model proven infeasible ran to completion too.
    pub completed: bool,
    /// A feasible incumbent is available.
    pub feasible: bool,
    /// Best proven bound on the objective when the solve stopped.
    pub bound: Option<Cost>,
    /// Backend-specific status text, for logging only.
    pub detail: String,
}

/// The value is a number, not an infinity.
pub open spec fn is_finite(v: Cost) -> bool {
    NEG_INFINITY < v < INFINITY
}

/// The absolute value.
pub open spec fn magnitude(v: int) -> int {
    if v < 0 {
        -v
    } else {
        v
    }
}

/// `|objective - bound| / max(|objective|, 1e-10)`, rounded down to a
/// millionth. An objective other than zero is a millionth at least.
pub open spec fn relative_gap(objective: Cost, bound: Cost) -> int {
    if objective == 0 {
        magnitude(bound as int) * 10_000_000_000
    } else {
        (magnitude(objective - bound) * 1_000_000) / magnitude(objective as int)
    }
}

impl MilpSolution {
    /// Value of `col`; a column added after this solution was taken is zero.
    pub fn col(&self, col: Col) -> (r: Cost)
        ensures
            r == self.value_of(col),
    {
        if col < self.values.len() {
            self.values[col]
        } else {
            0
        }
    }

    pub open spec fn value_of(&self, col: Col) -> Cost {
        if col < self.values@.len() {
            self.values@[col as int]
        } else {
            0
        }
    }

    pub fn obj_value(&self) -> (r: Cost)
        ensures
            r == self.objective,
    {
        self.objective
    }

    pub fn is_infeasible(&self) -> (r: bool)
        ensures
            r == self.infeasible,
    {
        self.infeasible
    }

    pub fn ran_to_completion(&self) -> (r: bool)
        ensures
            r == self.completed,
    {
        self.completed
    }

    pub fn has_solution(&self) -> (r: bool)
        ensures
            r == self.feasible,
    {
        self.feasible
    }

    pub fn best_bound(&self) -> (r: Option<Cost>)
        ensures
            r == self.bound,
    {
        self.bound
    }

    /// Relative MIP gap, `None` without an incumbent or a bound.
    pub open spec fn gap_of(&self) -> Option<Cost> {
        match self.bound {
            Some(bound) => if self.feasible && is_finite(self.objective) && is_finite(bound) {
                Some(crate::cost::saturate(relative_gap(self.objective, bound)))
            } else {
                None
            },
            None => None,
        }
    }

    /// [`Self::gap_of`]: derived from the objective and the bound, so that it
    /// means the same for every backend.
    pub fn gap(&self) -> (r: Option<Cost>)
        ensures
            r == self.gap_of(),
    {
        if !self.feasible {
            return None;
        }
        let bound: Cost = match self.bound {
            Some(bound) => bound,
            None => {
                return None;
            },
        };
        let obj: Cost = self.objective;
        if obj == INFINITY || obj == NEG_INFINITY || bound == INFINITY || bound == NEG_INFINITY {
            return None;
        }
        if obj == 0 {
            let distance: i128 = if bound < 0 {
                -(bound as i128)
            } else {
                bound as i128
            };
            return Some(saturate_wide(distance * 10_000_000_000));
        }
        let difference: i128 = obj as i128 - bound as i128;
        let distance: i128 = if difference < 0 {
            -difference
        } else {
            difference
        };
        let size: i128 = if obj < 0 {
            -(obj as i128)
        } else {
            obj as i128
        };
        let gap: i128 = (distance * 1_000_000) / size;
        Some(saturate_wide(gap))
    }

    /// Solver-neutral status, derived from the three predicates.
    pub open spec fn status_of(&self) -> MilpStatus {
        if self.infeasible {
            MilpStatus::Infeasible
        } else if self.completed {
            MilpStatus::Optimal
        } else if self.feasible {
            MilpStatus::TimeoutWithSolution
        } else {
            MilpStatus::TimeoutNoSolution
        }
    }

    /// [`Self::status_of`].
    pub fn status(&self) -> (r: MilpStatus)
        ensures
            r == self.status_of(),
    {
        if self.infeasible {
            MilpStatus::Infeasible
        } else if self.completed {
            MilpStatus::Optimal
        } else if self.feasible {
            MilpStatus::TimeoutWithSolution
        } else {
            MilpStatus::TimeoutNoSolution
        }
    }
}

/// A live solver. Nothing is promised of what it does: whatever it hands back
/// is checked before it is used.
pub trait MilpModel: Sized {
    /// A solver with an empty model, quiet and on one thread.
    fn new() -> Self;

    /// Short human-readable name, as in log messages.
    fn backend_name(&self) -> String;

    /// Wall-clock limit for each solve. `u32::MAX` is effectively unbounded,
    /// zero stops immediately.
    fn set_time_limit_seconds(&mut self, seconds: u32);

    /// Verbosity of the solver's log; zero silences it.
    fn set_log_level(&mut self, level: u32);

    /// Redirects the solver's log to `path` and turns it on.
    fn set_log_file(&mut self, path: &str);

    /// The log at `path`, if it was written and can be read.
    fn read_log(&self, path: &str) -> Option<String>;

    /// Number of threads one solve may use.
    fn set_threads(&mut self, threads: u32);

    /// Passes a backend-specific parameter on; unknown keys are ignored.
    fn set_raw_parameter(&mut self, key: &str, value: &str);

    /// Whether the MIP start of this backend can be trusted. A caller runs
    /// without one otherwise, and says so.
    fn supports_warm_start(&self) -> bool;

    /// Solves the model as `staged` describes it, of which it may already hold
    /// everything but the delta. Afterwards it holds all of it, and a caller
    /// that goes on with `staged` is to mark it as flushed.
    fn solve(&mut self, staged: &Staged) -> MilpSolution
        requires
            staged.wf(),
    ;
}

} // verus!
