//! Reading the selection back out of a solution.
use crate::cost::Cost;
use crate::egraph::{ClassId, EGraph, NodeId};
use crate::extract::ilp::model::{lemma_member, member, members, ClassVars};
use crate::extract::selection::{in_class, nodes_known};
use crate::extract::ExtractionResult;
use crate::milp::MilpSolution;
use vstd::prelude::*;

verus! {

/// The amount `0.5`, the threshold at which binaries are read.
pub const HALF: Cost = 500_000;

/// There are columns for every class and member.
pub open spec fn classes_shaped(g: EGraph, classes: Seq<ClassVars>) -> bool {
    classes.len() == g.classes@.len() && forall|c: int|
        0 <= c < classes.len() ==> (#[trigger] classes[c]).nodes@.len() == members(g, c)
}

/// Member `k` of class `c` is the first one that is on.
pub open spec fn first_on(solution: MilpSolution, class: ClassVars, k: int) -> bool {
    &&& 0 <= k < class.nodes@.len()
    &&& solution.value_of(class.nodes@[k]) > HALF
    &&& forall|q: int|
        0 <= q < k ==> solution.value_of(#[trigger] class.nodes@[q]) <= HALF
}

/// The class is on, and so is some member of it.
pub open spec fn reads_as_chosen(solution: MilpSolution, class: ClassVars) -> bool {
    solution.value_of(class.active) >= HALF && exists|k: int| #[trigger]
        first_on(solution, class, k)
}

/// `sel` holds for every class that is on the first of its members that is.
pub open spec fn is_decoding(
    g: EGraph,
    classes: Seq<ClassVars>,
    solution: MilpSolution,
    sel: Map<ClassId, NodeId>,
) -> bool {
    &&& forall|c: ClassId| #[trigger]
        sel.contains_key(c) <==> c < g.classes@.len() && reads_as_chosen(
            solution,
            classes[c as int],
        )
    &&& forall|c: ClassId| #[trigger]
        sel.contains_key(c) ==> exists|k: int| #[trigger]
            first_on(solution, classes[c as int], k) && sel[c] == member(g, c as int, k)
}

/// The position of the first member that is on.
fn first_member_on(solution: &MilpSolution, class: &ClassVars) -> (r: Option<usize>)
    ensures
        r matches Some(k) ==> first_on(*solution, *class, k as int),
        r is None <==> !exists|k: int| #[trigger] first_on(*solution, *class, k),
{
    let mut k: usize = 0;
    while k < class.nodes.len()
        invariant
            k <= class.nodes@.len(),
            forall|q: int|
                0 <= q < k ==> solution.value_of(#[trigger] class.nodes@[q]) <= HALF,
        decreases class.nodes@.len() - k,
    {
        if solution.col(class.nodes[k]) > HALF {
            assert(first_on(*solution, *class, k as int));
            return Some(k);
        }
        k += 1;
    }
    proof {
        assert forall|k: int| !#[trigger] first_on(*solution, *class, k) by {
            if 0 <= k < class.nodes@.len() {
                assert(solution.value_of(class.nodes@[k]) <= HALF);
            }
        }
    }
    None
}

/// Reads the selected node of every active class out of `solution`.
///
/// Binaries are read with a threshold of one half, since solvers return them
/// within an integrality tolerance. Does not check the result: a class marked
/// active with no active member is simply left out, and validation catches it.
pub fn decode_selection(solution: &MilpSolution, egraph: &EGraph, classes: &Vec<ClassVars>) -> (r:
    ExtractionResult)
    requires
        egraph.wf(),
        classes_shaped(*egraph, classes@),
    ensures
        is_decoding(*egraph, classes@, *solution, r@),
        in_class(*egraph, r@),
        nodes_known(*egraph, r@),
{
    let ghost g = *egraph;
    let mut result: ExtractionResult = ExtractionResult::default();
    let mut c: usize = 0;
    while c < classes.len()
        invariant
            egraph.wf(),
            g == *egraph,
            classes_shaped(g, classes@),
            c <= classes@.len(),
            forall|b: ClassId| #[trigger]
                result@.contains_key(b) <==> b < c && reads_as_chosen(
                    *solution,
                    classes@[b as int],
                ),
            forall|b: ClassId| #[trigger]
                result@.contains_key(b) ==> exists|k: int| #[trigger]
                    first_on(*solution, classes@[b as int], k) && result@[b] == member(
                        g,
                        b as int,
                        k,
                    ),
        decreases classes@.len() - c,
    {
        let ghost before = result@;
        if solution.col(classes[c].active) >= HALF {
            if let Some(k) = first_member_on(solution, &classes[c]) {
                result.select(c, egraph.classes[c].nodes[k]);
                proof {
                    assert(first_on(*solution, classes@[c as int], k as int));
                }
            }
        }
        proof {
            assert forall|b: ClassId| #[trigger] result@.contains_key(b) implies exists|k: int|
             #[trigger]
                first_on(*solution, classes@[b as int], k) && result@[b] == member(
                g,
                b as int,
                k,
            ) by {
                if b != c {
                    assert(before.contains_key(b));
                }
            }
        }
        c += 1;
    }
    proof {
        assert forall|b: ClassId| #[trigger] result@.contains_key(b) implies result@[b]
            < g.nodes@.len() && g.nodes@[result@[b] as int].eclass == b by {
            let k = choose|k: int| #[trigger]
                first_on(*solution, classes@[b as int], k) && result@[b] == member(g, b as int, k);
            lemma_member(g, b as int, k);
        }
    }
    result
}

} // verus!
