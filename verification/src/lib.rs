//! Extraction from e-graphs: given an e-graph and its roots, choose one node
//! for each class that is needed.
//!
//! An e-graph is built with [`EGraph::new`]; every node has a size
//! (`cost`), a depth (`delay`) and says whether it belongs to the initial
//! expression. An [`ExtractionResult`] maps classes to chosen nodes; a
//! [`CompleteExtraction`] is one that is known to be valid for its roots.
//!
//! ```text
//! greedy           fast, without a solver
//! ilp              optimal, with a solver
//! ilp_cbc          the same, under former names
//! faster_ilp_cbc   optimal for size, on a simplified problem
//! milp             what a solver is told, and what it answers
//! ```
use vstd::prelude::*;

mod collections;
pub mod cost;
pub mod egraph;
pub mod extract;
pub mod laws;
pub mod milp;
pub mod sums;
pub mod text;

pub use cost::{Cost, EPSILON_ALLOWANCE, INFINITY};
pub use egraph::{Class, ClassId, EGraph, EGraphError, Node, NodeId};
pub use extract::{
    CompleteExtraction, ExtractionError, ExtractionResult, Extractor, MapGet,
};

use cost::ONE;
use extract::faster_ilp_cbc;
use extract::faster_ilp_cbc::start::costs_valid;
use extract::faster_ilp_cbc::{
    unwarmed, FasterIlpExtractor, FasterIlpExtractorWithTimeout, WarmConfig,
};
use extract::greedy::size::TreeRule;
use extract::greedy::GreedySizeExtractor;
use extract::ilp::fallback::has_extraction;
use extract::ilp::objective::{is_greedy_by, IlpObjective};
use extract::ilp::options::WarmStart;
use extract::ilp::report::SolveReport;
use extract::ilp::solve::Clock;
use extract::ilp_cbc;
use extract::ilp_cbc::{
    DelayBudgetIlpExtractor, DualIlpExtractor, IlpExtractor, IlpExtractorWithTimeout,
};
use extract::selection::{roots_known, tree_cost_of, valid};
use milp::MilpModel;

verus! {

/// What an extractor is optimal for.
#[derive(Debug, Clone, Copy, PartialEq, Eq, Structural)]
pub enum Optimal {
    Tree,
    Dag,
    Neither,
}

/// An extractor that can be asked for by name.
pub enum Registered {
    /// The extractor of least tree cost.
    TreeSize(GreedySizeExtractor),
    TimedIlp(IlpExtractorWithTimeout<10>),
    Ilp(IlpExtractor),
    TimedFasterIlp(FasterIlpExtractorWithTimeout<10>),
    FasterIlp(FasterIlpExtractor),
    DualIlp(DualIlpExtractor),
    DelayBudgetIlp(DelayBudgetIlpExtractor),
}

/// An extractor, and what is known of it.
pub struct ExtractorDetail {
    pub extractor: Registered,
    pub optimal: Optimal,
    pub use_for_bench: bool,
}

/// The bound of the registered [`DelayBudgetIlpExtractor`], for benchmarking
/// only: it may be out of reach or slack, depending on the e-graph.
pub const BENCH_DELAY: Cost = 100_000_000;

impl Registered {
    /// No extraction is supplied to start from.
    pub open spec fn unseeded(&self) -> bool {
        match *self {
            Registered::Ilp(e) => e.warm.seed is None,
            Registered::FasterIlp(e) => e.warm.seed is None,
            Registered::DualIlp(e) => e.warm.seed is None,
            Registered::DelayBudgetIlp(e) => e.warm.seed is None,
            _ => true,
        }
    }

    /// What holds of its extractions.
    pub open spec fn extraction_holds<M: MilpModel, C: Clock>(
        &self,
        g: EGraph,
        roots: Seq<ClassId>,
        clock: C,
        sel: Map<ClassId, NodeId>,
    ) -> bool {
        match *self {
            Registered::TreeSize(_) => {
                &&& is_greedy_by(g, TreeRule, sel)
                &&& has_extraction(g, roots) ==> valid(g, sel, roots)
                &&& forall|other: Map<ClassId, NodeId>| #[trigger]
                    valid(g, other, roots) ==> tree_cost_of(g, sel, roots) <= tree_cost_of(
                        g,
                        other,
                        roots,
                    )
            },
            Registered::TimedIlp(_) => ilp_holds::<M>(
                g,
                roots,
                IlpObjective::Size,
                10,
                1,
                unwarmed(),
                sel,
            ),
            Registered::Ilp(e) => ilp_holds::<M>(
                g,
                roots,
                IlpObjective::Size,
                e.timeout_seconds,
                e.threads,
                e.warm,
                sel,
            ),
            Registered::TimedFasterIlp(_) => faster_holds::<M, C>(
                g,
                roots,
                10,
                1,
                unwarmed(),
                clock,
                sel,
            ),
            Registered::FasterIlp(e) => faster_holds::<M, C>(
                g,
                roots,
                e.timeout_seconds,
                e.threads,
                e.warm,
                clock,
                sel,
            ),
            Registered::DualIlp(e) => ilp_holds::<M>(
                g,
                roots,
                e.objective(),
                e.timeout_seconds,
                e.threads,
                e.warm,
                sel,
            ),
            Registered::DelayBudgetIlp(e) => ilp_holds::<M>(
                g,
                roots,
                e.objective(),
                e.timeout_seconds,
                e.threads,
                e.warm,
                sel,
            ),
        }
    }

    /// Extracts `roots`, with the given solver where one is needed.
    pub fn extract_with<M: MilpModel, C: Clock>(
        &self,
        egraph: &EGraph,
        roots: &[ClassId],
        clock: &C,
    ) -> (r: ExtractionResult)
        requires
            egraph.wf(),
            roots_known(*egraph, roots@),
            costs_valid(*egraph),
            self.unseeded(),
        ensures
            self.extraction_holds::<M, C>(*egraph, roots@, *clock, r@),
    {
        match self {
            Registered::TreeSize(e) => {
                let r: ExtractionResult = e.extract(egraph, roots);
                proof {
                    if has_extraction(*egraph, roots@) {
                        let sel = choose|sel: Map<ClassId, NodeId>| #[trigger]
                            valid(*egraph, sel, roots@);
                        extract::greedy::size::extractable_by_size(*egraph, sel, roots@);
                    }
                }
                r
            },
            Registered::TimedIlp(e) => e.extract_with::<M, C>(egraph, roots, clock),
            Registered::Ilp(e) => e.extract_with::<M, C>(egraph, roots, clock),
            Registered::TimedFasterIlp(e) => e.extract_with::<M, C>(egraph, roots, clock),
            Registered::FasterIlp(e) => e.extract_with::<M, C>(egraph, roots, clock),
            Registered::DualIlp(e) => e.extract_with::<M, C>(egraph, roots, clock),
            Registered::DelayBudgetIlp(e) => e.extract_with::<M, C>(egraph, roots, clock),
        }
    }
}

/// `sel` is what an ILP extractor may return.
pub open spec fn ilp_holds<M: MilpModel>(
    g: EGraph,
    roots: Seq<ClassId>,
    objective: IlpObjective,
    timeout_seconds: u32,
    threads: u32,
    warm: WarmConfig,
    sel: Map<ClassId, NodeId>,
) -> bool {
    exists|report: SolveReport| #[trigger]
        ilp_cbc::extraction_holds::<M>(
            g,
            roots,
            objective,
            timeout_seconds,
            threads,
            warm,
            sel,
            report,
        )
}

/// `sel` is what the simplifying ILP extractor may return.
pub open spec fn faster_holds<M: MilpModel, C: Clock>(
    g: EGraph,
    roots: Seq<ClassId>,
    timeout_seconds: u32,
    threads: u32,
    warm: WarmConfig,
    clock: C,
    sel: Map<ClassId, NodeId>,
) -> bool {
    exists|report: SolveReport| #[trigger]
        faster_ilp_cbc::extraction_holds::<M, C>(
            g,
            roots,
            faster_ilp_cbc::default_config(),
            timeout_seconds,
            threads,
            warm,
            clock,
            sel,
            report,
        )
}

/// The names of the registered extractors, in order.
pub open spec fn registered_names() -> Seq<Seq<char>> {
    seq![
        "bottom-up"@,
        "faster-bottom-up"@,
        "prio-queue"@,
        "faster-greedy-dag"@,
        "ilp-cbc-timeout"@,
        "ilp-cbc"@,
        "faster-ilp-cbc-timeout"@,
        "faster-ilp-cbc"@,
        "dual-ilp-cbc-timeout"@,
        "delay-budget-ilp-cbc-timeout"@,
    ]
}

/// What the registered extractors are optimal for.
pub open spec fn registered_optima() -> Seq<Optimal> {
    seq![
        Optimal::Tree,
        Optimal::Tree,
        Optimal::Tree,
        Optimal::Neither,
        Optimal::Dag,
        Optimal::Dag,
        Optimal::Dag,
        Optimal::Dag,
        Optimal::Neither,
        Optimal::Neither,
    ]
}

/// Which of the registered extractors are benchmarked.
pub open spec fn registered_benches() -> Seq<bool> {
    seq![true, true, true, true, true, false, true, true, false, false]
}

/// What the extractors are set up with.
pub open spec fn set_up(i: int, extractor: Registered) -> bool {
    if i < 4 {
        extractor is TreeSize
    } else if i == 4 {
        extractor is TimedIlp
    } else if i == 5 {
        extractor matches Registered::Ilp(e) && e.timeout_seconds == u32::MAX && e.threads == 1
            && e.warm.mode == WarmStart::Off
    } else if i == 6 {
        extractor is TimedFasterIlp
    } else if i == 7 {
        extractor matches Registered::FasterIlp(e) && e.timeout_seconds == u32::MAX && e.threads
            == 1 && e.warm.mode == WarmStart::Off
    } else if i == 8 {
        extractor matches Registered::DualIlp(e) && e.timeout_seconds == 10 && e.alpha == ONE
            && e.beta == ONE && e.threads == 1 && e.warm.mode == WarmStart::Off
    } else {
        extractor matches Registered::DelayBudgetIlp(e) && e.timeout_seconds == 10 && e.max_delay
            == BENCH_DELAY && e.threads == 1 && e.warm.mode == WarmStart::Off
    }
}

fn tree_size(name: &'static str, optimal: Optimal) -> (r: (&'static str, ExtractorDetail))
    ensures
        r.0 == name,
        r.1.extractor is TreeSize,
        r.1.optimal == optimal,
        r.1.use_for_bench,
{
    (
        name,
        ExtractorDetail {
            extractor: Registered::TreeSize(GreedySizeExtractor),
            optimal,
            use_for_bench: true,
        },
    )
}

/// The extractors that can be asked for by name, in order.
pub fn extractors() -> (r: Vec<(&'static str, ExtractorDetail)>)
    ensures
        r@.len() == registered_names().len(),
        forall|i: int|
            0 <= i < r@.len() ==> {
                &&& (#[trigger] r@[i]).0@ == registered_names()[i]
                &&& r@[i].1.optimal == registered_optima()[i]
                &&& r@[i].1.use_for_bench == registered_benches()[i]
                &&& set_up(i, r@[i].1.extractor)
                &&& r@[i].1.extractor.unseeded()
            },
{
    let mut r: Vec<(&'static str, ExtractorDetail)> = Vec::new();
    r.push(tree_size("bottom-up", Optimal::Tree));
    r.push(tree_size("faster-bottom-up", Optimal::Tree));
    r.push(tree_size("prio-queue", Optimal::Tree));
    r.push(tree_size("faster-greedy-dag", Optimal::Neither));
    r.push(
        (
            "ilp-cbc-timeout",
            ExtractorDetail {
                extractor: Registered::TimedIlp(IlpExtractorWithTimeout::new()),
                optimal: Optimal::Dag,
                use_for_bench: true,
            },
        ),
    );
    r.push(
        (
            "ilp-cbc",
            ExtractorDetail {
                extractor: Registered::Ilp(IlpExtractor::default()),
                optimal: Optimal::Dag,
                // Can take hours.
                use_for_bench: false,
            },
        ),
    );
    r.push(
        (
            "faster-ilp-cbc-timeout",
            ExtractorDetail {
                extractor: Registered::TimedFasterIlp(FasterIlpExtractorWithTimeout::new()),
                optimal: Optimal::Dag,
                use_for_bench: true,
            },
        ),
    );
    r.push(
        (
            "faster-ilp-cbc",
            ExtractorDetail {
                extractor: Registered::FasterIlp(FasterIlpExtractor::default()),
                optimal: Optimal::Dag,
                use_for_bench: true,
            },
        ),
    );
    r.push(
        (
            "dual-ilp-cbc-timeout",
            ExtractorDetail {
                extractor: Registered::DualIlp(
                    DualIlpExtractor {
                        timeout_seconds: 10,
                        alpha: ONE,
                        beta: ONE,
                        threads: 1,
                        warm: WarmConfig::default(),
                    },
                ),
                optimal: Optimal::Neither,
                use_for_bench: false,
            },
        ),
    );
    r.push(
        (
            "delay-budget-ilp-cbc-timeout",
            ExtractorDetail {
                extractor: Registered::DelayBudgetIlp(
                    DelayBudgetIlpExtractor {
                        timeout_seconds: 10,
                        max_delay: BENCH_DELAY,
                        threads: 1,
                        warm: WarmConfig::default(),
                    },
                ),
                optimal: Optimal::Neither,
                use_for_bench: false,
            },
        ),
    );
    r
}

} // verus!
