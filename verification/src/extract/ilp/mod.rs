//! Optimal extraction as a mixed-integer program, with a time limit, a warm
//! start, and a complete result for every valid request.
//!
//! Every extractor is one [`IlpObjective`] over the single model in [`model`]:
//!
//! ```text
//! SizeExtractor                   min size
//! DepthExtractor                  min depth
//! SizeConstrainedDepthExtractor   min size such that depth <= budget
//! WeightedSizeDepthExtractor      min size_weight * size + depth_weight * depth
//! ```
//!
//! Two candidates are extracted before every solve: the initial expression, if
//! the e-graph flags one, and a greedy extraction that suits the objective. The
//! better of the two is the fallback, returned where the solver has nothing
//! better to offer in time.
//!
//! Cycles are ruled out by a level for each class, so that every feasible point
//! of the model is a valid extraction ([`soundness`]), and an optimal point an
//! optimal one ([`optimality`]).
use crate::cost::Cost;
use crate::egraph::{ClassId, EGraph};
use crate::milp::MilpModel;
use vstd::prelude::*;

pub mod decode;
pub mod fallback;
pub mod model;
pub mod objective;
pub mod optimality;
pub mod options;
pub mod outcome;
pub mod report;
pub mod seeding;
pub mod solve;
pub mod soundness;
pub mod warm;

pub use objective::{DepthBudget, IlpObjective};
pub use options::{IlpOptions, WarmStart};
pub use report::{SolveOutcome, SolveReport};
pub use solve::{Clock, IlpError, IlpOutcome};

verus! {

/// Minimises size.
#[derive(Debug, Clone)]
pub struct SizeExtractor {
    pub options: IlpOptions,
}

/// Minimises depth. `GreedyDepthExtractor` does so exactly and far faster.
#[derive(Debug, Clone)]
pub struct DepthExtractor {
    pub options: IlpOptions,
}

/// Minimises size at a depth of at most `depth_budget`.
#[derive(Debug, Clone)]
pub struct SizeConstrainedDepthExtractor {
    pub depth_budget: DepthBudget,
    pub options: IlpOptions,
}

/// Minimises `size_weight * size + depth_weight * depth`.
#[derive(Debug, Clone)]
pub struct WeightedSizeDepthExtractor {
    pub size_weight: Cost,
    pub depth_weight: Cost,
    pub options: IlpOptions,
}

impl SizeExtractor {
    /// Solves the request with the given solver.
    pub fn solve_with<M: MilpModel, C: Clock>(
        &self,
        egraph: &EGraph,
        roots: &[ClassId],
        clock: &C,
    ) -> (r: Result<IlpOutcome, IlpError>)
        requires
            egraph.wf(),
        ensures
            solve::answers::<M>(*egraph, roots@, IlpObjective::Size, self.options, r),
    {
        solve::solve::<M, C>(egraph, roots, IlpObjective::Size, &self.options, clock)
    }
}

impl DepthExtractor {
    /// Solves the request with the given solver.
    pub fn solve_with<M: MilpModel, C: Clock>(
        &self,
        egraph: &EGraph,
        roots: &[ClassId],
        clock: &C,
    ) -> (r: Result<IlpOutcome, IlpError>)
        requires
            egraph.wf(),
        ensures
            solve::answers::<M>(*egraph, roots@, IlpObjective::Depth, self.options, r),
    {
        solve::solve::<M, C>(egraph, roots, IlpObjective::Depth, &self.options, clock)
    }
}

impl SizeConstrainedDepthExtractor {
    /// What is minimised.
    pub open spec fn objective(&self) -> IlpObjective {
        IlpObjective::SizeConstrainedDepth { depth_budget: self.depth_budget }
    }

    /// Solves the request with the given solver.
    pub fn solve_with<M: MilpModel, C: Clock>(
        &self,
        egraph: &EGraph,
        roots: &[ClassId],
        clock: &C,
    ) -> (r: Result<IlpOutcome, IlpError>)
        requires
            egraph.wf(),
        ensures
            solve::answers::<M>(*egraph, roots@, self.objective(), self.options, r),
    {
        let objective: IlpObjective = IlpObjective::SizeConstrainedDepth {
            depth_budget: self.depth_budget,
        };
        solve::solve::<M, C>(egraph, roots, objective, &self.options, clock)
    }
}

impl WeightedSizeDepthExtractor {
    /// What is minimised.
    pub open spec fn objective(&self) -> IlpObjective {
        IlpObjective::WeightedSizeDepth {
            size_weight: self.size_weight,
            depth_weight: self.depth_weight,
        }
    }

    /// Solves the request with the given solver.
    pub fn solve_with<M: MilpModel, C: Clock>(
        &self,
        egraph: &EGraph,
        roots: &[ClassId],
        clock: &C,
    ) -> (r: Result<IlpOutcome, IlpError>)
        requires
            egraph.wf(),
        ensures
            solve::answers::<M>(*egraph, roots@, self.objective(), self.options, r),
    {
        let objective: IlpObjective = IlpObjective::WeightedSizeDepth {
            size_weight: self.size_weight,
            depth_weight: self.depth_weight,
        };
        solve::solve::<M, C>(egraph, roots, objective, &self.options, clock)
    }
}

} // verus!
