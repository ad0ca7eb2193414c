//! What a run of an ILP extractor reports of itself.
use crate::cost::Cost;
use crate::extract::faster_ilp_cbc::seed::SeedFailure;
use crate::extract::ilp::objective::CandidateName;
use crate::extract::ilp::options::{TimeLimit, WarmStart};
use crate::extract::ilp::warm::TimingError;
use crate::extract::ExtractionError;
use crate::milp::trajectory::{
    dialect_named, parse_log_for_backend, time_to_first_incumbent, trajectory_of, Incumbent,
};
use crate::milp::{MilpSolution, MilpStatus};
use vstd::prelude::*;

verus! {

/// Why a request was not solved.
#[derive(Debug, Clone, Copy, PartialEq, Eq, Structural)]
pub enum Rejection {
    NoRoots,
    InvalidInput,
    MissingInitial,
    NoValidExtraction,
    NoSolution,
}

/// Why the fallback extraction was returned.
#[derive(Debug)]
pub enum FallbackReason {
    /// The solver has not been run.
    NotSolved,
    /// The solver returned no solution; `detail` is its own status text.
    NoSolution { detail: String },
    /// The solver's solution is not a valid extraction.
    Invalid { why: ExtractionError },
    /// The solver's incumbent is worth more than a candidate.
    Worse { value: Cost, candidate: CandidateName, objective: Cost },
    /// The solver panicked.
    Panicked { message: String },
    /// The request itself was refused.
    Rejected { why: Rejection },
    /// The solver stopped early, at something not worth returning.
    Unfinished { objective: Cost },
    /// The solver stopped early, at something with a cycle.
    Cyclic,
    /// The solver's solution contradicts the model.
    Inconsistent,
}

impl Clone for FallbackReason {
    fn clone(&self) -> (r: Self)
        ensures
            r == *self,
    {
        match self {
            FallbackReason::NotSolved => FallbackReason::NotSolved,
            FallbackReason::NoSolution { detail } => FallbackReason::NoSolution {
                detail: detail.clone(),
            },
            FallbackReason::Invalid { why } => FallbackReason::Invalid { why: *why },
            FallbackReason::Worse { value, candidate, objective } => FallbackReason::Worse {
                value: *value,
                candidate: *candidate,
                objective: *objective,
            },
            FallbackReason::Panicked { message } => FallbackReason::Panicked {
                message: message.clone(),
            },
            FallbackReason::Rejected { why } => FallbackReason::Rejected { why: *why },
            FallbackReason::Unfinished { objective } => FallbackReason::Unfinished {
                objective: *objective,
            },
            FallbackReason::Cyclic => FallbackReason::Cyclic,
            FallbackReason::Inconsistent => FallbackReason::Inconsistent,
        }
    }
}

/// Where an ILP extractor's returned extraction came from.
#[derive(Debug, Clone)]
pub enum SolveOutcome {
    /// The solver proved it optimal.
    Optimal,
    /// The solver stopped early and this is its best feasible solution, which
    /// was no worse than the fallback.
    Incumbent,
    /// The solver produced nothing usable (or something worse than the
    /// fallback), so the fallback extraction was returned.
    Fallback { reason: FallbackReason },
}

/// What became of the warm start.
#[derive(Debug, Clone, Copy, PartialEq, Eq)]
pub enum WarmNote {
    /// The backend has no MIP start that can be trusted.
    Unsupported,
    /// The seed could not be timed.
    Untimed { why: TimingError },
    /// The seed violates the depth budget.
    OverBudget { candidate: CandidateName, depth: Cost, budget: Cost },
    /// The seed could not be completed on the simplified problem.
    Unseeded { why: SeedFailure },
    /// The seed was staged on the simplified problem, where `repaired` classes
    /// were not served by it; `degraded` if none was supplied and the greedy
    /// extraction took its place.
    Simplified { repaired: usize, degraded: bool },
    /// The seed was staged; with a budget, `slack` is how far it is under it.
    Seeded { candidate: CandidateName, slack: Option<Cost> },
}

/// The two are one path, or none.
pub open spec fn same_path(a: Option<String>, b: Option<String>) -> bool {
    match (a, b) {
        (Some(p), Some(q)) => p@ == q@,
        (None, None) => true,
        _ => false,
    }
}

/// Everything a caller needs to tell one ILP extraction run apart from
/// another, plus enough solver state to say whether a *timed out* run got
/// closer than its neighbour.
#[derive(Debug, Clone)]
pub struct SolveReport {
    /// Name of the backend.
    pub backend: String,
    /// Which objective this report describes.
    pub model: &'static str,
    /// Threads requested of the solver.
    pub threads: u32,
    /// Wall-clock limit handed to the solver (`None` = unbounded).
    pub time_limit: Option<TimeLimit>,
    /// The mode the caller asked for.
    pub warm_start_requested: WarmStart,
    /// The mode that was actually applied. Differs from the request when the
    /// seed was refused or the backend does not support MIP starts.
    pub warm_start_applied: WarmStart,
    pub warm_start_note: Option<WarmNote>,
    /// Objective value of the seed that was actually applied.
    pub warm_start_objective: Option<Cost>,
    /// Objective value of the fallback extraction.
    pub fallback_objective: Option<Cost>,
    /// Solver-neutral outcome of the final solve.
    pub status: Option<MilpStatus>,
    /// Backend's own status text, for debugging.
    pub status_detail: Option<String>,
    /// Objective value of the final incumbent, if there was one.
    pub objective: Option<Cost>,
    /// Best proven bound at the moment the solve stopped.
    pub best_bound: Option<Cost>,
    /// `|obj - bound| / max(|obj|, 1e-10)`.
    pub gap: Option<Cost>,
    /// Wall-clock time to extract and validate the initial expression.
    pub initial_wall_secs: Option<Cost>,
    /// Wall-clock time to compute the greedy extraction.
    pub greedy_wall_secs: Option<Cost>,
    /// Wall-clock time to build the model and stage the warm start.
    pub build_wall_secs: Cost,
    /// Wall-clock time spent solving (excludes model building).
    pub solve_wall_secs: Cost,
    /// How many times the model was solved.
    pub num_solves: usize,
    /// Where the returned extraction came from. On `Fallback` the solver
    /// fields above describe the *solver's* attempt, not the returned
    /// extraction.
    pub outcome: SolveOutcome,
    /// The depth budget enforced, with `DepthBudget::Initial` resolved.
    pub depth_budget: Option<Cost>,
    /// True when the returned extraction exceeds the depth budget. Only
    /// possible on `Fallback`, when no candidate met the budget.
    pub depth_budget_violated: bool,
    /// Path the solver log was written to, if one was requested.
    pub solver_log: Option<String>,
    /// Incumbent-vs-time points recovered from that log.
    pub trajectory: Vec<Incumbent>,
    /// Seconds to the first feasible incumbent, from the trajectory.
    pub time_to_first_incumbent_secs: Option<Cost>,
}

impl SolveReport {
    /// A report of a run that has not been started.
    pub fn new(
        backend: String,
        model: &'static str,
        threads: u32,
        time_limit: Option<TimeLimit>,
        requested: WarmStart,
    ) -> (r: Self)
        ensures
            r.backend == backend,
            r.model == model,
            r.threads == threads,
            r.time_limit == time_limit,
            r.warm_start_requested == requested,
            r.warm_start_applied == WarmStart::Off,
            r.warm_start_note is None,
            r.warm_start_objective is None,
            r.fallback_objective is None,
            r.status is None,
            r.status_detail is None,
            r.objective is None,
            r.best_bound is None,
            r.gap is None,
            r.initial_wall_secs is None,
            r.greedy_wall_secs is None,
            r.build_wall_secs == 0,
            r.solve_wall_secs == 0,
            r.num_solves == 0,
            r.outcome == (SolveOutcome::Fallback { reason: FallbackReason::NotSolved }),
            r.depth_budget is None,
            !r.depth_budget_violated,
            r.solver_log is None,
            r.trajectory@.len() == 0,
            r.time_to_first_incumbent_secs is None,
    {
        SolveReport {
            backend,
            model,
            threads,
            time_limit,
            warm_start_requested: requested,
            warm_start_applied: WarmStart::Off,
            warm_start_note: None,
            warm_start_objective: None,
            fallback_objective: None,
            status: None,
            status_detail: None,
            objective: None,
            best_bound: None,
            gap: None,
            initial_wall_secs: None,
            greedy_wall_secs: None,
            build_wall_secs: 0,
            solve_wall_secs: 0,
            num_solves: 0,
            outcome: SolveOutcome::Fallback { reason: FallbackReason::NotSolved },
            depth_budget: None,
            depth_budget_violated: false,
            solver_log: None,
            trajectory: Vec::new(),
            time_to_first_incumbent_secs: None,
        }
    }

    /// What was asked for, and what there is to fall back on, is the same.
    pub open spec fn same_request(self, other: SolveReport) -> bool {
        &&& self.backend == other.backend
        &&& self.model == other.model
        &&& self.threads == other.threads
        &&& self.time_limit == other.time_limit
        &&& self.warm_start_requested == other.warm_start_requested
        &&& self.fallback_objective == other.fallback_objective
        &&& self.depth_budget == other.depth_budget
        &&& self.depth_budget_violated == other.depth_budget_violated
        &&& self.initial_wall_secs == other.initial_wall_secs
        &&& self.greedy_wall_secs == other.greedy_wall_secs
    }

    /// Records that the warm start was refused, and why.
    pub fn refuse_warm_start(&mut self, why: WarmNote)
        ensures
            *final(self) == (SolveReport {
                warm_start_applied: WarmStart::Off,
                warm_start_note: Some(why),
                ..*old(self)
            }),
    {
        self.warm_start_applied = WarmStart::Off;
        self.warm_start_note = Some(why);
    }

    /// Records that the warm start was applied.
    pub fn accept_warm_start(&mut self, applied: WarmStart, note: Option<WarmNote>)
        ensures
            *final(self) == (SolveReport {
                warm_start_applied: applied,
                warm_start_note: note,
                ..*old(self)
            }),
    {
        self.warm_start_applied = applied;
        self.warm_start_note = note;
    }

    /// What a solution adds to a report.
    pub open spec fn recorded(self, after: SolveReport, sol: MilpSolution) -> bool {
        &&& after == (SolveReport {
            status: after.status,
            status_detail: after.status_detail,
            objective: after.objective,
            best_bound: after.best_bound,
            gap: after.gap,
            ..self
        })
        &&& after.status == Some(sol.status_of())
        &&& after.status_detail is Some
        &&& after.status_detail->0@ == sol.detail@
        &&& after.objective == (if sol.feasible {
            Some(sol.objective)
        } else {
            None
        })
        &&& after.best_bound == sol.bound
        &&& after.gap == sol.gap_of()
    }

    /// Fills in the solver-state fields from the final solution.
    pub fn record_solution(&mut self, sol: &MilpSolution)
        ensures
            old(self).recorded(*final(self), *sol),
    {
        self.status = Some(sol.status());
        self.status_detail = Some(sol.detail.clone());
        self.objective = if sol.has_solution() {
            Some(sol.obj_value())
        } else {
            None
        };
        self.best_bound = sol.best_bound();
        self.gap = sol.gap();
    }

    /// The trajectory is the one that the log `text`, if there is one, comes to in
    /// the dialect of the backend, and the time to the first incumbent is that of
    /// its first point.
    pub open spec fn traces(self, text: Option<String>) -> bool {
        let points = match text {
            Some(log) => match dialect_named(self.backend@) {
                Some(dialect) => trajectory_of(log@, dialect),
                None => Seq::empty(),
            },
            None => Seq::empty(),
        };
        &&& self.trajectory@ == points
        &&& self.time_to_first_incumbent_secs == (if points.len() > 0 {
            Some(points[0].secs)
        } else {
            None
        })
    }

    /// `after` is the report with the trajectory that the log `text`, if there
    /// is one, comes to in the dialect of the backend, and with the time to the
    /// first incumbent of it. Without a log asked for it is the report itself.
    pub open spec fn loads(self, text: Option<String>, after: SolveReport) -> bool {
        if self.solver_log is None {
            after == self
        } else {
            &&& after.traces(text)
            &&& after == (SolveReport {
                trajectory: after.trajectory,
                time_to_first_incumbent_secs: after.time_to_first_incumbent_secs,
                ..self
            })
        }
    }

    /// Parses the solver log, if it was requested and could be read, into a
    /// trajectory and derives the time to the first incumbent from it.
    pub fn load_trajectory(&mut self, text: &Option<String>)
        ensures
            old(self).loads(*text, *final(self)),
    {
        if self.solver_log.is_none() {
            return ;
        }
        let points: Vec<Incumbent> = match text {
            Some(log) => parse_log_for_backend(log.as_str(), self.backend.as_str()),
            None => Vec::new(),
        };
        self.time_to_first_incumbent_secs = time_to_first_incumbent(points.as_slice());
        self.trajectory = points;
    }
}

} // verus!
