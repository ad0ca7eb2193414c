//! Former paths of the warm start, the solver report and the seed helpers.
pub use crate::extract::ilp::report::{SolveOutcome, SolveReport};
pub use crate::extract::ilp::warm::{arrival_times, topological_levels};
pub use crate::extract::ilp_cbc::{build_seed, Seed};
use crate::extract::ilp::options::WarmStart;
use vstd::prelude::*;

verus! {

/// [`WarmStart`], under its former name.
pub type WarmStartMode = WarmStart;

} // verus!
