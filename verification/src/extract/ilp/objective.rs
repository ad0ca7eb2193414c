//! What an ILP extractor minimises.
//!
//! * The **size** of a node is its `cost`. The size of an extraction counts
//!   every shared node once. With area weights it is area.
//! * The **depth** of a node is its `delay`. The depth of an extraction is the
//!   largest sum of depths along any root-to-leaf path. With delay weights it
//!   is the critical-path delay.
use crate::cost::{add_costs, mul_costs, plus, times, Cost, ONE};
use crate::egraph::{ClassId, EGraph, Node, NodeId};
use crate::extract::greedy::depth::DepthRule;
use crate::extract::greedy::fixpoint::{
    allowed_below, extractable, fixpoint_is_valid, greedy_choices, is_fixpoint, CostRule,
};
use crate::extract::greedy::initial::HeightRule;
use crate::extract::greedy::size::TreeRule;
use crate::extract::greedy::{GreedyDepthExtractor, GreedySizeExtractor};
use crate::extract::ilp::fallback::has_extraction;
use crate::extract::measure::lemma_roots_of_valid;
use crate::extract::selection;
use crate::extract::selection::{
    covers, dag_depth_of, dag_size, in_class, nodes_known, valid,
};
use crate::extract::{CompleteExtraction, ExtractionResult, Extractor};
use vstd::prelude::*;

verus! {

/// The depth an [`IlpObjective::SizeConstrainedDepth`] extraction may not
/// exceed.
#[derive(Debug, Clone, Copy, PartialEq, Eq, Structural)]
pub enum DepthBudget {
    /// The depth of the initial expression: minimise size without making the
    /// critical path any longer. The initial expression always meets it.
    Initial,
    Fixed(Cost),
}

/// The quantity an ILP extraction minimises.
#[derive(Debug, Clone, Copy, PartialEq, Eq, Structural)]
pub enum IlpObjective {
    /// Minimise size.
    Size,
    /// Minimise depth.
    ///
    /// Provided for completeness only: minimum depth is found exactly and far
    /// faster by `GreedyDepthExtractor`, and as an ILP it is badly degenerate
    /// (anything off the critical path is free). Prefer the greedy extractor,
    /// or [`Self::WeightedSizeDepth`] with a small `size_weight`.
    Depth,
    /// Minimise size subject to depth `<= depth_budget`.
    SizeConstrainedDepth { depth_budget: DepthBudget },
    /// Minimise `size_weight * size + depth_weight * depth`.
    WeightedSizeDepth { size_weight: Cost, depth_weight: Cost },
}

/// Which extraction a candidate is.
#[derive(Debug, Clone, Copy, PartialEq, Eq, Structural)]
pub enum CandidateName {
    Initial,
    GreedySize,
    GreedyDepth,
}

impl CandidateName {
    pub fn as_str(self) -> (r: &'static str)
        ensures
            r@ == (match self {
                CandidateName::Initial => "initial"@,
                CandidateName::GreedySize => "greedy-size"@,
                CandidateName::GreedyDepth => "greedy-depth"@,
            }),
    {
        match self {
            CandidateName::Initial => "initial",
            CandidateName::GreedySize => "greedy-size",
            CandidateName::GreedyDepth => "greedy-depth",
        }
    }
}

/// `sel` is what the extractor of that name chooses: the fixpoint of its rule.
pub open spec fn is_greedy(g: EGraph, name: CandidateName, sel: Map<ClassId, NodeId>) -> bool {
    match name {
        CandidateName::GreedySize => is_greedy_by(g, TreeRule, sel),
        CandidateName::GreedyDepth => is_greedy_by(g, DepthRule, sel),
        CandidateName::Initial => is_greedy_by(g, HeightRule, sel),
    }
}

/// `sel` is the fixpoint of a rule, ties broken as [`greedy_choices`] says.
pub open spec fn is_greedy_by<R: CostRule>(g: EGraph, rule: R, sel: Map<ClassId, NodeId>) -> bool {
    &&& sel == greedy_choices(g, rule).0
    &&& exists|f: Map<ClassId, Cost>, rank: Map<ClassId, nat>| #[trigger]
        is_fixpoint(g, rule, sel, f, rank)
}

/// A class is only left without a choice if it has no extraction, and nothing
/// else can be wrong with the choices.
pub open spec fn is_thorough(
    g: EGraph,
    sel: Map<ClassId, NodeId>,
    roots: Seq<ClassId>,
) -> bool {
    &&& in_class(g, sel)
    &&& covers(g, sel, roots) ==> valid(g, sel, roots)
    &&& forall|c: ClassId| !#[trigger] sel.contains_key(c) ==> !has_extraction(g, seq![c])
}

proof fn lemma_thorough<R: CostRule>(
    g: EGraph,
    rule: R,
    sel: Map<ClassId, NodeId>,
    roots: Seq<ClassId>,
)
    requires
        exists|f: Map<ClassId, Cost>, rank: Map<ClassId, nat>| #[trigger]
            is_fixpoint(g, rule, sel, f, rank),
        forall|c: ClassId| #[trigger]
            sel.contains_key(c) <==> extractable(g, rule, seq![c]),
        forall|node: Node| #[trigger] rule.allowed(node),
    ensures
        is_thorough(g, sel, roots),
{
    let (f, rank) = choose|f: Map<ClassId, Cost>, rank: Map<ClassId, nat>| #[trigger]
        is_fixpoint(g, rule, sel, f, rank);
    assert forall|c: ClassId| #[trigger] sel.contains_key(c) implies sel[c] < g.nodes@.len()
        && g.nodes@[sel[c] as int].eclass == c by {
        assert(sel.dom().contains(c));
        assert(f.contains_key(c));
    }
    if covers(g, sel, roots) {
        assert forall|i: int| 0 <= i < roots.len() implies f.contains_key(#[trigger] roots[i]) by {
            assert(roots.contains(roots[i]));
            selection::lemma_reaches_root(g, sel, roots, roots[i]);
            assert(sel.dom().contains(roots[i]));
        }
        fixpoint_is_valid(g, rule, sel, f, rank, roots);
    }
    assert forall|c: ClassId| !#[trigger] sel.contains_key(c) implies !has_extraction(
        g,
        seq![c],
    ) by {
        if has_extraction(g, seq![c]) {
            let other = choose|other: Map<ClassId, NodeId>| #[trigger] valid(g, other, seq![c]);
            assert(allowed_below(g, rule, other, seq![c]));
            assert(extractable(g, rule, seq![c]));
        }
    }
}

impl IlpObjective {
    /// The name of an objective, as in reports.
    pub open spec fn label(self) -> Seq<char> {
        match self {
            IlpObjective::Size => "size"@,
            IlpObjective::Depth => "depth"@,
            IlpObjective::SizeConstrainedDepth { .. } => "size-constrained-depth"@,
            IlpObjective::WeightedSizeDepth { .. } => "weighted-size-depth"@,
        }
    }

    /// [`Self::label`].
    pub fn name(&self) -> (r: &'static str)
        ensures
            r@ == self.label(),
    {
        match self {
            IlpObjective::Size => "size",
            IlpObjective::Depth => "depth",
            IlpObjective::SizeConstrainedDepth { .. } => "size-constrained-depth",
            IlpObjective::WeightedSizeDepth { .. } => "weighted-size-depth",
        }
    }

    pub open spec fn budget(self) -> Option<DepthBudget> {
        match self {
            IlpObjective::SizeConstrainedDepth { depth_budget } => Some(depth_budget),
            _ => None,
        }
    }

    pub fn depth_budget(&self) -> (r: Option<DepthBudget>)
        ensures
            r == self.budget(),
    {
        match self {
            IlpObjective::SizeConstrainedDepth { depth_budget } => Some(*depth_budget),
            _ => None,
        }
    }

    /// The budget, if there is one, is a number.
    pub open spec fn resolved(self) -> bool {
        self.budget() != Some(DepthBudget::Initial)
    }

    /// The budget of a resolved objective.
    pub open spec fn limit(self) -> Option<Cost> {
        match self.budget() {
            Some(DepthBudget::Fixed(value)) => Some(value),
            _ => None,
        }
    }

    /// The budget in depth units, once [`Self::resolve_budget`] has run.
    pub fn budget_value(&self) -> (r: Option<Cost>)
        requires
            self.resolved(),
        ensures
            r == self.limit(),
    {
        match self {
            IlpObjective::SizeConstrainedDepth { depth_budget } => match depth_budget {
                DepthBudget::Fixed(value) => Some(*value),
                DepthBudget::Initial => None,
            },
            _ => None,
        }
    }

    /// Replaces [`DepthBudget::Initial`] with `initial_depth`. `None` if the
    /// budget is `Initial` and there is no initial depth.
    pub fn resolve_budget(self, initial_depth: Option<Cost>) -> (r: Option<Self>)
        ensures
            r == (if self.resolved() {
                Some(self)
            } else {
                match initial_depth {
                    Some(depth) => Some(
                        IlpObjective::SizeConstrainedDepth {
                            depth_budget: DepthBudget::Fixed(depth),
                        },
                    ),
                    None => None,
                }
            }),
    {
        match self {
            IlpObjective::SizeConstrainedDepth { depth_budget: DepthBudget::Initial } => {
                match initial_depth {
                    Some(depth) => Some(
                        IlpObjective::SizeConstrainedDepth {
                            depth_budget: DepthBudget::Fixed(depth),
                        },
                    ),
                    None => None,
                }
            },
            other => Some(other),
        }
    }

    /// The size and depth weights of the objective function.
    pub open spec fn weighting(self) -> (Cost, Cost) {
        match self {
            IlpObjective::Size => (ONE, 0),
            IlpObjective::SizeConstrainedDepth { .. } => (ONE, 0),
            IlpObjective::Depth => (0, ONE),
            IlpObjective::WeightedSizeDepth { size_weight, depth_weight } => (
                size_weight,
                depth_weight,
            ),
        }
    }

    /// [`Self::weighting`].
    pub fn weights(&self) -> (r: (Cost, Cost))
        ensures
            r == self.weighting(),
    {
        match *self {
            IlpObjective::Size => (ONE, 0),
            IlpObjective::SizeConstrainedDepth { .. } => (ONE, 0),
            IlpObjective::Depth => (0, ONE),
            IlpObjective::WeightedSizeDepth { size_weight, depth_weight } => (
                size_weight,
                depth_weight,
            ),
        }
    }

    /// Whether the model needs arrival-time (depth) variables.
    pub fn uses_depth(&self) -> (r: bool)
        ensures
            r == (*self != IlpObjective::Size),
    {
        match self {
            IlpObjective::Size => false,
            _ => true,
        }
    }

    /// The value of a selection: `size_weight * size + depth_weight * depth`.
    pub open spec fn value_of(
        self,
        g: EGraph,
        sel: Map<ClassId, NodeId>,
        roots: Seq<ClassId>,
    ) -> Cost {
        let (size_weight, depth_weight) = self.weighting();
        plus(
            if size_weight != 0 {
                times(size_weight, dag_size(g, sel, roots))
            } else {
                0
            },
            if depth_weight != 0 {
                times(depth_weight, dag_depth_of(g, sel, roots))
            } else {
                0
            },
        )
    }

    /// Value of this objective for `extraction`, in the same units as the
    /// solver's objective. For [`Self::SizeConstrainedDepth`] this is the size
    /// alone; the budget is checked separately.
    pub fn evaluate(&self, egraph: &EGraph, roots: &[ClassId], extraction: &CompleteExtraction) -> (r:
        Cost)
        requires
            egraph.wf(),
            valid(*egraph, extraction@, roots@),
        ensures
            r == self.value_of(*egraph, extraction@, roots@),
    {
        proof {
            lemma_roots_of_valid(*egraph, extraction@, roots@);
        }
        let result: &ExtractionResult = extraction.as_result();
        let (size_weight, depth_weight) = self.weights();
        let mut value: Cost = 0;
        if size_weight != 0 {
            value = add_costs(value, mul_costs(size_weight, result.dag_cost(egraph, roots)));
        }
        if depth_weight != 0 {
            value = add_costs(value, mul_costs(depth_weight, result.dag_depth(egraph, roots)));
        }
        value
    }

    /// The solver-free extractor paired with this objective. A depth budget
    /// pairs with the depth extractor, the only one guaranteed to meet any
    /// attainable budget.
    pub open spec fn greedy(self) -> CandidateName {
        match self {
            IlpObjective::Size => CandidateName::GreedySize,
            IlpObjective::WeightedSizeDepth { .. } => CandidateName::GreedySize,
            IlpObjective::Depth => CandidateName::GreedyDepth,
            IlpObjective::SizeConstrainedDepth { .. } => CandidateName::GreedyDepth,
        }
    }

    /// Runs the extractor paired with this objective, for the greedy warm
    /// start and the fallback. It finds an extraction whenever there is one.
    pub fn greedy_extractor(&self, egraph: &EGraph, roots: &[ClassId]) -> (r: (
        CandidateName,
        ExtractionResult,
    ))
        requires
            egraph.wf(),
        ensures
            r.0 == self.greedy(),
            nodes_known(*egraph, r.1@),
            is_greedy(*egraph, r.0, r.1@),
            is_thorough(*egraph, r.1@, roots@),
            forall|sel: Map<ClassId, NodeId>| #[trigger]
                valid(*egraph, sel, roots@) ==> valid(*egraph, r.1@, roots@),
            self.greedy() is GreedyDepth && crate::extract::greedy::depth::delays_non_negative(
                *egraph,
            ) ==> forall|sel: Map<ClassId, NodeId>| #[trigger]
                valid(*egraph, sel, roots@) ==> dag_depth_of(*egraph, r.1@, roots@)
                    <= dag_depth_of(*egraph, sel, roots@),
    {
        match self {
            IlpObjective::Size | IlpObjective::WeightedSizeDepth { .. } => {
                let result: ExtractionResult = GreedySizeExtractor.extract(egraph, roots);
                proof {
                    lemma_thorough(*egraph, TreeRule, result@, roots@);
                    assert forall|sel: Map<ClassId, NodeId>| #[trigger]
                        valid(*egraph, sel, roots@) implies valid(*egraph, result@, roots@) by {
                        crate::extract::greedy::size::extractable_by_size(*egraph, sel, roots@);
                    }
                }
                (CandidateName::GreedySize, result)
            },
            IlpObjective::Depth | IlpObjective::SizeConstrainedDepth { .. } => {
                let result: ExtractionResult = GreedyDepthExtractor.extract(egraph, roots);
                proof {
                    lemma_thorough(*egraph, DepthRule, result@, roots@);
                    assert forall|sel: Map<ClassId, NodeId>| #[trigger]
                        valid(*egraph, sel, roots@) implies valid(*egraph, result@, roots@) by {
                        crate::extract::greedy::depth::extractable_by_depth(*egraph, sel, roots@);
                    }
                }
                (CandidateName::GreedyDepth, result)
            },
        }
    }
}

} // verus!
