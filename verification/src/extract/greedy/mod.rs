//! Solver-free extractors used as warm starts and fallbacks.
//!
//! | Extractor | Minimises | Optimal? |
//! |---|---|---|
//! | [`GreedySizeExtractor`] | tree cost (`cost` of a shared node counted every time) | **yes**; a heuristic for size |
//! | [`GreedyDepthExtractor`] | depth (max over paths of summed `delay`) | **yes** |
//! | [`InitialExtractor`] | nothing: rebuilds the initial expression | n/a |
//!
//! Each returns a complete, acyclic extraction whenever one exists.
pub mod depth;
pub mod fixpoint;
pub mod heap;
pub mod initial;
pub mod size;

pub use depth::GreedyDepthExtractor;
pub use initial::InitialExtractor;
pub use size::GreedySizeExtractor;
