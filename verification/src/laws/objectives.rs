//! What an objective minimises.
use crate::cost::{Cost, INFINITY};
use crate::egraph::{ClassId, EGraph};
use crate::extract::ilp::objective::{CandidateName, DepthBudget, IlpObjective};
use crate::extract::selection::{dag_depth_of, dag_size, valid};
use crate::extract::{CompleteExtraction, ExtractionResult};
use vstd::prelude::*;

verus! {

/// The value of an extraction is its size, with or without a budget, its depth, or
/// `size_weight * size + depth_weight * depth`, each product rounded down to a
/// millionth.
pub proof fn values_are_weighted_sums(
    objective: IlpObjective,
    g: EGraph,
    roots: &[ClassId],
    e: CompleteExtraction,
    v: Cost,
    size: int,
    depth: int,
)
    requires
        call_ensures(IlpObjective::evaluate, (&objective, &g, roots, &e), v),
        size == dag_size(g, e@, roots@),
        depth == dag_depth_of(g, e@, roots@),
    ensures
        objective == IlpObjective::Size ==> v == size,
        objective is SizeConstrainedDepth ==> v == size,
        objective == IlpObjective::Depth ==> v == depth,
        objective matches IlpObjective::WeightedSizeDepth { size_weight, depth_weight } ==> {
            &&& size_weight >= 0 && depth_weight >= 0 && size >= 0 && depth >= 0 && v < INFINITY
                ==> v * 1_000_000 <= size_weight * size + depth_weight * depth < (v + 2) * 1_000_000
            &&& size_weight >= 0 && depth_weight >= 0 && size >= 0 && depth >= 0 && size_weight
                * size + depth_weight * depth < INFINITY * 1_000_000 ==> v < INFINITY
        },
{
    if let IlpObjective::WeightedSizeDepth { size_weight, depth_weight } = objective {
        if size_weight >= 0 && depth_weight >= 0 && size >= 0 && depth >= 0 {
            let sw = size_weight as int;
            let dw = depth_weight as int;
            assert(sw * size >= 0) by (nonlinear_arith)
                requires
                    sw >= 0,
                    size >= 0,
            ;
            assert(dw * depth >= 0) by (nonlinear_arith)
                requires
                    dw >= 0,
                    depth >= 0,
            ;
            assert(sw == 0 ==> sw * size == 0) by (nonlinear_arith);
            assert(dw == 0 ==> dw * depth == 0) by (nonlinear_arith);
        }
    }
}

/// Twice the weights are twice the value, but for rounding.
pub proof fn doubled_weights_double_the_value(
    size_weight: Cost,
    depth_weight: Cost,
    once: IlpObjective,
    twice: IlpObjective,
    g: EGraph,
    roots: &[ClassId],
    e: CompleteExtraction,
    v: Cost,
    w: Cost,
)
    requires
        once == (IlpObjective::WeightedSizeDepth { size_weight, depth_weight }),
        twice == (IlpObjective::WeightedSizeDepth {
            size_weight: (2 * size_weight) as Cost,
            depth_weight: (2 * depth_weight) as Cost,
        }),
        0 <= size_weight,
        0 <= depth_weight,
        2 * size_weight <= INFINITY,
        2 * depth_weight <= INFINITY,
        dag_size(g, e@, roots@) >= 0,
        dag_depth_of(g, e@, roots@) >= 0,
        call_ensures(IlpObjective::evaluate, (&once, &g, roots, &e), v),
        call_ensures(IlpObjective::evaluate, (&twice, &g, roots, &e), w),
        w < INFINITY,
        v < INFINITY,
    ensures
        2 * v - 1 <= w <= 2 * v + 3,
{
    let size = dag_size(g, e@, roots@) as int;
    let depth = dag_depth_of(g, e@, roots@) as int;
    values_are_weighted_sums(once, g, roots, e, v, size, depth);
    values_are_weighted_sums(twice, g, roots, e, w, size, depth);
    let sw = size_weight as int;
    let dw = depth_weight as int;
    assert((2 * sw) * size + (2 * dw) * depth == 2 * (sw * size + dw * depth))
        by (nonlinear_arith);
}

/// The weights are one for what an objective minimises and zero for what it does not,
/// or those it was given.
pub proof fn weights_are_those_given(objective: IlpObjective, weights: (Cost, Cost))
    requires
        call_ensures(IlpObjective::weights, (&objective,), weights),
    ensures
        objective == IlpObjective::Size ==> weights == (1_000_000i64, 0i64),
        objective is SizeConstrainedDepth ==> weights == (1_000_000i64, 0i64),
        objective == IlpObjective::Depth ==> weights == (0i64, 1_000_000i64),
        objective matches IlpObjective::WeightedSizeDepth { size_weight, depth_weight } ==> weights
            == (size_weight, depth_weight),
{
}

/// A budget of the initial expression becomes its depth, and cannot without one; any
/// other objective stays as it is.
pub proof fn budgets_become_numbers(
    objective: IlpObjective,
    initial_depth: Option<Cost>,
    resolved: Option<IlpObjective>,
)
    requires
        call_ensures(IlpObjective::resolve_budget, (objective, initial_depth), resolved),
    ensures
        objective == (IlpObjective::SizeConstrainedDepth { depth_budget: DepthBudget::Initial })
            ==> match initial_depth {
            Some(depth) => resolved == Some(
                IlpObjective::SizeConstrainedDepth { depth_budget: DepthBudget::Fixed(depth) },
            ),
            None => resolved is None,
        },
        objective != (IlpObjective::SizeConstrainedDepth { depth_budget: DepthBudget::Initial })
            ==> resolved == Some(objective),
{
}

/// What an objective says of itself: whether there is a budget and which, whether the
/// model needs depths, and its name.
pub proof fn objectives_say_what_they_are(
    objective: IlpObjective,
    budget: Option<DepthBudget>,
    value: Option<Cost>,
    uses_depth: bool,
    name: &'static str,
)
    requires
        call_ensures(IlpObjective::depth_budget, (&objective,), budget),
        call_ensures(IlpObjective::budget_value, (&objective,), value),
        call_ensures(IlpObjective::uses_depth, (&objective,), uses_depth),
        call_ensures(IlpObjective::name, (&objective,), name),
    ensures
        (objective matches IlpObjective::SizeConstrainedDepth { depth_budget } ==> budget == Some(
            depth_budget,
        )),
        !(objective is SizeConstrainedDepth) ==> budget is None && value is None,
        (objective matches IlpObjective::SizeConstrainedDepth {
            depth_budget: DepthBudget::Fixed(v),
        } ==> value == Some(v)),
        uses_depth <==> objective != IlpObjective::Size,
        name@ == (match objective {
            IlpObjective::Size => "size"@,
            IlpObjective::Depth => "depth"@,
            IlpObjective::SizeConstrainedDepth { .. } => "size-constrained-depth"@,
            IlpObjective::WeightedSizeDepth { .. } => "weighted-size-depth"@,
        }),
{
}

/// The extractor paired with an objective of depth, or with a budget, is the one of
/// depth; else it is the one of size.
pub proof fn objectives_have_their_greedy_extractor(
    objective: IlpObjective,
    g: EGraph,
    roots: &[ClassId],
    r: (CandidateName, ExtractionResult),
)
    requires
        call_ensures(IlpObjective::greedy_extractor, (&objective, &g, roots), r),
    ensures
        objective == IlpObjective::Size || objective is WeightedSizeDepth <==> r.0
            == CandidateName::GreedySize,
        objective == IlpObjective::Depth || objective is SizeConstrainedDepth <==> r.0
            == CandidateName::GreedyDepth,
        (exists|sel: Map<ClassId, usize>| #[trigger] valid(g, sel, roots@)) ==> valid(
            g,
            r.1@,
            roots@,
        ),
{
}

} // verus!
