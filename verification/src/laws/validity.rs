//! When an extraction is valid, what is wrong with one that is not, what the greedy
//! extractors find, and which extractors there are.
use crate::cost::Cost;
use crate::egraph::{ClassId, EGraph, EGraphError, Node, NodeId};
use crate::extract::faster_ilp_cbc::{unwarmed, WarmConfig};
use crate::extract::greedy::heap::{Candidate, MinHeap};
use crate::extract::greedy::{GreedyDepthExtractor, GreedySizeExtractor, InitialExtractor};
use crate::extract::ilp::fallback::has_extraction;
use crate::extract::ilp::objective::{DepthBudget, IlpObjective};
use crate::extract::ilp::report::SolveReport;
use crate::extract::ilp::solve::Clock;
use crate::extract::ilp_cbc;
use crate::extract::selection::{
    acyclic, dag_depth_of, edge, lemma_reaches_step, nodes_known, on_cycle, ranked, ranked_except,
    reaches, tree_cost_of, valid, walk,
};
use crate::extract::{
    CompleteExtraction, ExtractionError, ExtractionResult, Extractor,
};
use crate::laws::extraction::{has_sound_amounts, cbc_extractors_answer_sound_requests};
use crate::laws::measures::children_of;
use crate::milp::MilpModel;
use crate::{extractors, faster_holds, ilp_holds, ExtractorDetail, Optimal, Registered};
use vstd::prelude::*;

verus! {

/// What is below the roots: the roots, and with a class the classes of its node's
/// children, and nothing that a set of classes leaves out that is closed in this way.
pub proof fn what_is_below_the_roots(
    g: EGraph,
    sel: Map<ClassId, NodeId>,
    roots: Seq<ClassId>,
    closed: Set<ClassId>,
    c: ClassId,
    d: ClassId,
)
    requires
        forall|r: ClassId| #[trigger] roots.contains(r) ==> closed.contains(r),
        forall|a: ClassId, b: ClassId|
            closed.contains(a) && sel.contains_key(a) && #[trigger] children_of(
                g,
                sel,
                a,
            ).contains(b) ==> closed.contains(b),
    ensures
        roots.contains(c) ==> reaches(g, sel, roots, c),
        reaches(g, sel, roots, c) && sel.contains_key(c) && children_of(g, sel, c).contains(d)
            ==> reaches(g, sel, roots, d),
        reaches(g, sel, roots, c) ==> closed.contains(c),
{
    if roots.contains(c) {
        crate::extract::selection::lemma_reaches_root(g, sel, roots, c);
    }
    if reaches(g, sel, roots, c) && sel.contains_key(c) && children_of(g, sel, c).contains(d) {
        crate::laws::measures::edges_lead_to_children(g, sel, c, d);
        crate::extract::selection::lemma_reaches_step(g, sel, roots, c, d);
    }
    assert forall|a: ClassId, b: ClassId|
        closed.contains(a) && #[trigger] edge(g, sel, a, b) implies closed.contains(b) by {
        crate::laws::measures::edges_lead_to_children(g, sel, a, b);
    }
    if reaches(g, sel, roots, c) {
        crate::extract::selection::lemma_reaches_closed(g, sel, roots, closed, c);
    }
}

/// Every class below the roots has a choice, which is a node of the class.
pub open spec fn is_chosen_well(
    g: EGraph,
    sel: Map<ClassId, NodeId>,
    roots: Seq<ClassId>,
    c: ClassId,
) -> bool {
    reaches(g, sel, roots, c) ==> sel.contains_key(c) && sel[c] < g.nodes@.len()
        && g.nodes@[sel[c] as int].eclass == c
}

/// An extraction is complete exactly if every class below the roots has a choice of its
/// own and the choices can be ordered with children before parents; then no class below
/// the roots is below itself.
pub proof fn complete_extractions_are_valid(
    e: ExtractionResult,
    g: EGraph,
    roots: &[ClassId],
    complete: bool,
    verdict: Result<(), ExtractionError>,
    rank: Map<ClassId, nat>,
)
    requires
        nodes_known(g, e@),
        call_ensures(ExtractionResult::is_complete, (&e, &g, roots), complete),
        call_ensures(ExtractionResult::validate, (&e, &g, roots), verdict),
    ensures
        complete == (verdict is Ok),
        complete ==> forall|c: ClassId| #[trigger] is_chosen_well(g, e@, roots@, c),
        complete ==> forall|c: ClassId, n: nat|
            n > 0 && reaches(g, e@, roots@, c) ==> !#[trigger] walk(g, e@, c, c, n),
        (forall|c: ClassId| #[trigger] is_chosen_well(g, e@, roots@, c)) && (forall|
            a: ClassId,
            b: ClassId,
        |
            reaches(g, e@, roots@, a) && e@.contains_key(a) && #[trigger] children_of(
                g,
                e@,
                a,
            ).contains(b) ==> rank[b] < rank[a]) ==> complete,
{
    if complete {
        assert forall|c: ClassId| #[trigger] is_chosen_well(g, e@, roots@, c) by {
            if reaches(g, e@, roots@, c) {
                assert(e@.contains_key(c));
            }
        }
        assert forall|c: ClassId, n: nat|
            n > 0 && reaches(g, e@, roots@, c) implies !#[trigger] walk(g, e@, c, c, n) by {
            crate::extract::selection::acyclic_means_no_cycle(g, e@, roots@, c);
            if walk(g, e@, c, c, n) {
                assert(on_cycle(g, e@, c));
            }
        }
    }
    if (forall|c: ClassId| #[trigger] is_chosen_well(g, e@, roots@, c)) && (forall|
        a: ClassId,
        b: ClassId,
    |
        reaches(g, e@, roots@, a) && e@.contains_key(a) && #[trigger] children_of(
            g,
            e@,
            a,
        ).contains(b) ==> rank[b] < rank[a]) {
        assert(ranked(g, e@, roots@, rank)) by {
            assert forall|a: ClassId, b: ClassId|
                reaches(g, e@, roots@, a) && #[trigger] edge(g, e@, a, b) implies rank[b]
                < rank[a] by {
                crate::laws::measures::edges_lead_to_children(g, e@, a, b);
            }
        }
        assert forall|c: ClassId| #[trigger] reaches(g, e@, roots@, c) implies e@.contains_key(c)
            && e@[c] < g.nodes@.len() && g.nodes@[e@[c] as int].eclass == c by {
            assert(is_chosen_well(g, e@, roots@, c));
        }
        assert(acyclic(g, e@, roots@));
    }
}

/// What is wrong is what is said to be: a node of another class is chosen below the
/// roots; or, where there is none such, a class below the roots has no choice; or, where
/// every one has, a class below the roots is below itself.
pub proof fn errors_say_what_is_wrong(
    e: ExtractionResult,
    g: EGraph,
    roots: &[ClassId],
    verdict: Result<(), ExtractionError>,
)
    requires
        call_ensures(ExtractionResult::validate, (&e, &g, roots), verdict),
    ensures
        (verdict matches Err(why) ==> match why {
            ExtractionError::NoRoots => false,
            ExtractionError::WrongClass { node, class, belongs_to } => reaches(
                g,
                e@,
                roots@,
                class,
            ) && e@.contains_key(class) && e@[class] == node && g.nodes@[node as int].eclass
                == belongs_to && belongs_to != class,
            ExtractionError::NoChoice { class } => reaches(g, e@, roots@, class)
                && !e@.contains_key(class) && forall|c: ClassId| #[trigger]
                reaches(g, e@, roots@, c) && e@.contains_key(c) ==> g.nodes@[e@[c] as int].eclass
                    == c,
            ExtractionError::Cycle { class } => reaches(g, e@, roots@, class) && on_cycle(
                g,
                e@,
                class,
            ) && forall|c: ClassId| #[trigger]
                reaches(g, e@, roots@, c) ==> e@.contains_key(c) && g.nodes@[e@[c] as int].eclass
                    == c,
        }),
{
}

/// Which of several faults is named: a misplaced choice is the first in the order of the
/// choices; a root without a choice is named if it is the last; and the class of a cycle is
/// the first at which one is found.
pub proof fn the_first_fault_is_named(
    e: ExtractionResult,
    g: EGraph,
    roots: &[ClassId],
    verdict: Result<(), ExtractionError>,
    cycles: Vec<ClassId>,
)
    requires
        call_ensures(ExtractionResult::validate, (&e, &g, roots), verdict),
        call_ensures(ExtractionResult::find_cycles, (&e, &g, roots), cycles),
    ensures
        (verdict matches Err(ExtractionError::WrongClass { node, class, belongs_to }) ==> exists|
            i: int,
        |
            {
                &&& 0 <= i < e.order().len()
                &&& #[trigger] e.order()[i] == class
                &&& forall|k: int|
                    0 <= k < i && reaches(g, e@, roots@, #[trigger] e.order()[k])
                        ==> g.nodes@[e@[e.order()[k]] as int].eclass == e.order()[k]
            }),
        (verdict matches Err(ExtractionError::NoChoice { class }) ==> (roots@.len() > 0
            && !e@.contains_key(roots@.last()) ==> class == roots@.last())),
        (verdict matches Err(ExtractionError::Cycle { class }) ==> cycles@.len() > 0 ==> cycles@[0]
            == class),
{
}

/// An extraction is complete for roots there are, and it stays what it was.
pub proof fn complete_extractions_are_kept(
    e: ExtractionResult,
    g: EGraph,
    roots: &[ClassId],
    r: Result<CompleteExtraction, ExtractionError>,
    checked: Result<(), ExtractionError>,
    verdict: Result<(), ExtractionError>,
)
    requires
        call_ensures(CompleteExtraction::try_new, (e, &g, roots), r),
        call_ensures(ExtractionResult::validate, (&e, &g, roots), verdict),
        call_ensures(ExtractionResult::check, (&e, &g), checked),
    ensures
        r is Ok <==> roots@.len() > 0 && verdict is Ok,
        (r matches Ok(c) ==> c@ == e@ && c.order() == e.order()),
        roots@.len() == 0 <==> r == Err::<CompleteExtraction, ExtractionError>(
            ExtractionError::NoRoots,
        ),
        g.root_eclasses@.len() == 0 ==> checked == Err::<(), ExtractionError>(
            ExtractionError::NoRoots,
        ),
        g.root_eclasses@ == roots@ && roots@.len() > 0 ==> (checked is Ok <==> verdict is Ok),
{
}

/// There are no cycles to be found exactly if the choices can be ordered; those that are
/// found are cycles below the roots.
pub proof fn cycles_are_found(
    e: ExtractionResult,
    g: EGraph,
    roots: &[ClassId],
    cycles: Vec<ClassId>,
    rank: Map<ClassId, nat>,
)
    requires
        call_ensures(ExtractionResult::find_cycles, (&e, &g, roots), cycles),
    ensures
        forall|i: int|
            0 <= i < cycles@.len() ==> reaches(g, e@, roots@, #[trigger] cycles@[i]) && on_cycle(
                g,
                e@,
                cycles@[i],
            ),
        (exists|c: ClassId| #[trigger] reaches(g, e@, roots@, c) && on_cycle(g, e@, c))
            ==> cycles@.len() > 0,
        (forall|a: ClassId, b: ClassId|
            reaches(g, e@, roots@, a) && #[trigger] edge(g, e@, a, b) ==> rank[b] < rank[a])
            ==> cycles@.len() == 0,
{
    if cycles@.len() == 0 {
        assert forall|c: ClassId| #[trigger] reaches(g, e@, roots@, c) implies !on_cycle(
            g,
            e@,
            c,
        ) by {
            crate::extract::selection::acyclic_means_no_cycle(g, e@, roots@, c);
        }
    }
    if forall|a: ClassId, b: ClassId|
        reaches(g, e@, roots@, a) && #[trigger] edge(g, e@, a, b) ==> rank[b] < rank[a] {
        assert(ranked(g, e@, roots@, rank));
    }
}

/// Each class has the next as a child, and the last the first.
pub open spec fn goes_round(g: EGraph, sel: Map<ClassId, NodeId>, cycle: Seq<ClassId>) -> bool {
    &&& cycle.len() > 0
    &&& forall|i: int|
        0 <= i < cycle.len() - 1 ==> edge(g, sel, #[trigger] cycle[i], cycle[i + 1])
    &&& edge(g, sel, cycle.last(), cycle[0])
}

/// No cycle is missed: one of the classes of each that is below the roots is found.
pub proof fn every_cycle_is_found(
    e: ExtractionResult,
    g: EGraph,
    roots: &[ClassId],
    cycles: Vec<ClassId>,
    cycle: Seq<ClassId>,
) -> (k: int)
    requires
        call_ensures(ExtractionResult::find_cycles, (&e, &g, roots), cycles),
        goes_round(g, e@, cycle),
        reaches(g, e@, roots@, cycle[0]),
    ensures
        0 <= k < cycle.len(),
        cycles@.contains(cycle[k]),
{
    let rank = choose|rank: Map<ClassId, nat>|
        ranked_except(g, e@, roots@, cycles@, rank);
    if forall|k: int| 0 <= k < cycle.len() ==> !cycles@.contains(#[trigger] cycle[k]) {
        lemma_ranks_fall(g, e@, roots@, cycles@, rank, cycle, cycle.len() - 1);
        assert(reaches(g, e@, roots@, cycle.last()));
        assert(edge(g, e@, cycle.last(), cycle[0]));
        assert(!cycles@.contains(cycle[0]));
        assert(false);
    }
    choose|k: int| 0 <= k < cycle.len() && cycles@.contains(#[trigger] cycle[k])
}

proof fn lemma_ranks_fall(
    g: EGraph,
    sel: Map<ClassId, NodeId>,
    roots: Seq<ClassId>,
    cycles: Seq<ClassId>,
    rank: Map<ClassId, nat>,
    cycle: Seq<ClassId>,
    i: int,
)
    requires
        ranked_except(g, sel, roots, cycles, rank),
        goes_round(g, sel, cycle),
        reaches(g, sel, roots, cycle[0]),
        forall|k: int| 0 <= k < cycle.len() ==> !cycles.contains(#[trigger] cycle[k]),
        0 <= i < cycle.len(),
    ensures
        reaches(g, sel, roots, cycle[i]),
        rank[cycle[i]] <= rank[cycle[0]],
        i > 0 ==> rank[cycle[i]] < rank[cycle[0]],
    decreases i,
{
    if i > 0 {
        lemma_ranks_fall(g, sel, roots, cycles, rank, cycle, i - 1);
        assert(edge(g, sel, cycle[i - 1], cycle[i - 1 + 1]));
        lemma_reaches_step(g, sel, roots, cycle[i - 1], cycle[i]);
        assert(!cycles.contains(cycle[i]));
    }
}

/// A class is on a cycle exactly if some walk along chosen edges leads back to it; a walk
/// of no edges stays, and one of one more goes on to a child.
pub proof fn cycles_are_walks(
    g: EGraph,
    sel: Map<ClassId, NodeId>,
    a: ClassId,
    b: ClassId,
    c: ClassId,
    n: nat,
)
    requires
        sel.contains_key(b),
    ensures
        n > 0 && walk(g, sel, a, a, n) ==> on_cycle(g, sel, a),
        on_cycle(g, sel, a) ==> exists|m: nat| m > 0 && #[trigger] walk(g, sel, a, a, m),
        walk(g, sel, a, b, 0) <==> a == b,
        walk(g, sel, a, b, n) && children_of(g, sel, b).contains(c) ==> walk(
            g,
            sel,
            a,
            c,
            n + 1,
        ),
{
    if walk(g, sel, a, b, n) && children_of(g, sel, b).contains(c) {
        crate::laws::measures::edges_lead_to_children(g, sel, b, c);
        crate::extract::selection::lemma_walk_step(g, sel, a, b, c, n);
    }
}

/// Nodes are an e-graph exactly if every child is a node and no class number is left
/// out; the e-graph has these nodes and roots, and lists for every class its nodes, all
/// of them and in order.
pub proof fn nodes_make_an_egraph(
    nodes: Vec<Node>,
    roots: Vec<ClassId>,
    r: Result<EGraph, EGraphError>,
)
    requires
        call_ensures(EGraph::new, (nodes, roots), r),
    ensures
        (r matches Ok(g) ==> {
            &&& g.nodes@ == nodes@
            &&& g.root_eclasses@ == roots@
            &&& forall|n: int, j: int|
                0 <= n < nodes@.len() && 0 <= j < nodes@[n].children@.len() ==> (
                #[trigger] nodes@[n].children@[j]) < nodes@.len()
            &&& forall|n: int|
                0 <= n < nodes@.len() ==> (#[trigger] nodes@[n]).eclass < g.classes@.len()
                    && g.classes@[nodes@[n].eclass as int].nodes@.contains(n as usize)
            &&& forall|c: int, i: int|
                0 <= c < g.classes@.len() && 0 <= i < g.classes@[c].nodes@.len() ==> (
                #[trigger] g.classes@[c].nodes@[i]) < nodes@.len()
                    && nodes@[g.classes@[c].nodes@[i] as int].eclass == c
            &&& forall|c: int|
                0 <= c < g.classes@.len() ==> (#[trigger] g.classes@[c]).id == c
                    && g.classes@[c].nodes@.len() > 0
        }),
        (r matches Err(EGraphError::UnknownChild { node, child }) ==> node < nodes@.len()
            && nodes@[node as int].children@.contains(child) && child >= nodes@.len()),
        (r matches Err(EGraphError::EmptyClass { class }) ==> forall|n: int|
            0 <= n < nodes@.len() ==> (#[trigger] nodes@[n]).eclass != class),
{
    if let Ok(g) = r {
        assert forall|n: int| 0 <= n < nodes@.len() implies (#[trigger] nodes@[n]).eclass
            < g.classes@.len() && g.classes@[nodes@[n].eclass as int].nodes@.contains(
            n as usize,
        ) by {
            let c = nodes@[n].eclass as int;
            assert(g.nodes@[n].eclass < g.classes@.len());
            assert(crate::egraph::lists_members(g.nodes@, c, g.classes@[c].nodes@));
        }
        assert forall|c: int, i: int|
            0 <= c < g.classes@.len() && 0 <= i < g.classes@[c].nodes@.len() implies (
        #[trigger] g.classes@[c].nodes@[i]) < nodes@.len()
            && nodes@[g.classes@[c].nodes@[i] as int].eclass == c by {
            assert(crate::egraph::lists_members(g.nodes@, c, g.classes@[c].nodes@));
        }
    }
    if let Err(EGraphError::EmptyClass { class }) = r {
        assert forall|n: int| 0 <= n < nodes@.len() implies (#[trigger] nodes@[n]).eclass
            != class by {
            if nodes@[n].eclass == class {
                assert(crate::egraph::inhabited(nodes@, class as int));
            }
        }
    }
}

// ---------------------------------------------------------------------------
// Greedy extraction
// ---------------------------------------------------------------------------

/// The greedy extractors find an extraction of the roots whenever there is one, of least
/// depth or of least tree cost; without negative amounts no other is less deep, and no
/// other is of less tree cost.
pub proof fn greedy_extractions_are_least(
    g: EGraph,
    roots: &[ClassId],
    shallow: ExtractionResult,
    small: ExtractionResult,
    other: Map<ClassId, NodeId>,
)
    requires
        g.wf(),
        call_ensures(GreedyDepthExtractor::extract, (&GreedyDepthExtractor, &g, roots), shallow),
        call_ensures(GreedySizeExtractor::extract, (&GreedySizeExtractor, &g, roots), small),
        valid(g, other, roots@),
        forall|n: int|
            0 <= n < g.nodes@.len() ==> (#[trigger] g.nodes@[n]).cost >= 0 && g.nodes@[n].delay
                >= 0,
    ensures
        valid(g, shallow@, roots@),
        valid(g, small@, roots@),
        dag_depth_of(g, shallow@, roots@) <= dag_depth_of(g, other, roots@),
        tree_cost_of(g, small@, roots@) <= tree_cost_of(g, other, roots@),
{
    crate::extract::greedy::depth::extractable_by_depth(g, other, roots@);
    crate::extract::greedy::size::extractable_by_size(g, other, roots@);
}

/// The initial extractor chooses flagged nodes only, and finds an extraction out of them
/// whenever there is one.
pub proof fn initial_extractions_are_flagged(
    g: EGraph,
    roots: &[ClassId],
    r: ExtractionResult,
    other: Map<ClassId, NodeId>,
)
    requires
        call_ensures(InitialExtractor::extract, (&InitialExtractor, &g, roots), r),
    ensures
        forall|c: ClassId| #[trigger]
            r@.contains_key(c) ==> g.nodes@[r@[c] as int].initial && g.nodes@[r@[c] as int].eclass
                == c,
        valid(g, other, roots@) && (forall|c: ClassId| #[trigger]
            reaches(g, other, roots@, c) ==> g.nodes@[other[c] as int].initial) ==> valid(
            g,
            r@,
            roots@,
        ),
{
    let (f, rank) = choose|f: Map<ClassId, Cost>, rank: Map<ClassId, nat>| #[trigger]
        crate::extract::greedy::fixpoint::is_fixpoint(
            g,
            crate::extract::greedy::initial::HeightRule,
            r@,
            f,
            rank,
        );
    assert forall|c: ClassId| #[trigger] r@.contains_key(c) implies g.nodes@[r@[c] as int].initial
        && g.nodes@[r@[c] as int].eclass == c by {
        assert(r@.dom().contains(c));
        assert(f.contains_key(c));
    }
    if valid(g, other, roots@) && (forall|c: ClassId| #[trigger]
        reaches(g, other, roots@, c) ==> g.nodes@[other[c] as int].initial) {
        assert(crate::extract::greedy::fixpoint::allowed_below(
            g,
            crate::extract::greedy::initial::HeightRule,
            other,
            roots@,
        ));
    }
}

// ---------------------------------------------------------------------------
// The extractors there are
// ---------------------------------------------------------------------------

/// The extractors by name, what each is, what it is optimal for, and whether it is
/// benchmarked.
pub proof fn extractors_by_name(r: Vec<(&'static str, ExtractorDetail)>)
    requires
        call_ensures(extractors, (), r),
    ensures
        r@.len() == 10,
        r@[0].0@ == "bottom-up"@ && r@[1].0@ == "faster-bottom-up"@ && r@[2].0@ == "prio-queue"@,
        r@[3].0@ == "faster-greedy-dag"@ && r@[4].0@ == "ilp-cbc-timeout"@ && r@[5].0@
            == "ilp-cbc"@,
        r@[6].0@ == "faster-ilp-cbc-timeout"@ && r@[7].0@ == "faster-ilp-cbc"@,
        r@[8].0@ == "dual-ilp-cbc-timeout"@ && r@[9].0@ == "delay-budget-ilp-cbc-timeout"@,
        forall|i: int|
            0 <= i < 3 ==> (#[trigger] r@[i]).1.optimal == Optimal::Tree
                && r@[i].1.extractor is TreeSize,
        r@[3].1.optimal == Optimal::Neither && r@[3].1.extractor is TreeSize,
        forall|i: int| 4 <= i < 8 ==> (#[trigger] r@[i]).1.optimal == Optimal::Dag,
        forall|i: int| 8 <= i < 10 ==> (#[trigger] r@[i]).1.optimal == Optimal::Neither,
        r@[4].1.extractor is TimedIlp && r@[5].1.extractor is Ilp,
        r@[6].1.extractor is TimedFasterIlp && r@[7].1.extractor is FasterIlp,
        r@[8].1.extractor is DualIlp && r@[9].1.extractor is DelayBudgetIlp,
        forall|i: int|
            0 <= i < 10 ==> ((#[trigger] r@[i]).1.use_for_bench <==> i != 5 && i != 8 && i != 9),
        (r@[5].1.extractor matches Registered::Ilp(e) ==> e.timeout_seconds == u32::MAX && e.threads
            == 1),
        (r@[7].1.extractor matches Registered::FasterIlp(e) ==> e.timeout_seconds == u32::MAX
            && e.threads == 1),
        (r@[8].1.extractor matches Registered::DualIlp(e) ==> e.timeout_seconds == 10 && e.alpha
            == 1_000_000 && e.beta == 1_000_000 && e.threads == 1),
        (r@[9].1.extractor matches Registered::DelayBudgetIlp(e) ==> e.timeout_seconds == 10
            && e.max_delay == 100_000_000 && e.threads == 1),
{
}

/// The heap holds what has been pushed and not yet popped, and hands out the cheapest;
/// of equals the one that was pushed first.
pub proof fn the_cheapest_comes_first(item: Candidate, popped: Option<Candidate>, other: Candidate)
    ensures
        forall|h: &mut MinHeap| #[trigger]
            call_ensures(MinHeap::push, (h, item), ()) ==> final(h)@ == h@.insert(item),
        forall|h: &mut MinHeap| #[trigger]
            call_ensures(MinHeap::pop, (h,), popped) ==> {
                &&& popped is None <==> h@.len() == 0
                &&& popped matches Some(first) ==> {
                    &&& h@.contains(first)
                    &&& final(h)@ == h@.remove(first)
                    &&& h@.contains(other) ==> first.0 <= other.0 && (first.0 == other.0 ==> first.1
                        <= other.1 && (first.1 == other.1 ==> first.2 <= other.2))
                }
            },
{
}

/// The registered extractors are those they are named for: the tree one is of least tree
/// cost; the ILP ones solve for size, or for the weights and the bound they have.
pub proof fn registered_extractors_solve_for_their_objective<M: MilpModel, C: Clock>(
    registered: Registered,
    g: EGraph,
    roots: &[ClassId],
    clock: C,
    r: ExtractionResult,
    other: Map<ClassId, NodeId>,
)
    requires
        call_ensures(Registered::extract_with::<M, C>, (&registered, &g, roots, &clock), r),
        valid(g, other, roots@),
        roots@.len() > 0,
    ensures
        registered is TreeSize ==> valid(g, r@, roots@) && tree_cost_of(g, r@, roots@)
            <= tree_cost_of(g, other, roots@),
        (registered is TimedIlp || registered is Ilp) && has_sound_amounts(g, IlpObjective::Size)
            ==> valid(g, r@, roots@),
        (registered matches Registered::DualIlp(e) ==> (has_sound_amounts(
            g,
            IlpObjective::WeightedSizeDepth { size_weight: e.beta, depth_weight: e.alpha },
        ) ==> valid(g, r@, roots@))),
        (registered matches Registered::DelayBudgetIlp(e) ==> (has_sound_amounts(
            g,
            IlpObjective::SizeConstrainedDepth { depth_budget: DepthBudget::Fixed(e.max_delay) },
        ) ==> valid(g, r@, roots@))),
        registered is TimedFasterIlp || registered is FasterIlp ==> valid(g, r@, roots@) || r@
            == Map::<ClassId, NodeId>::empty(),
{
    match registered {
        Registered::TreeSize(_) => {
            assert(has_extraction(g, roots@));
        },
        Registered::TimedIlp(_) => {
            lemma_ilp_answers::<M>(g, roots@, IlpObjective::Size, 10, 1, unwarmed(), r@, other);
        },
        Registered::Ilp(e) => {
            lemma_ilp_answers::<M>(
                g,
                roots@,
                IlpObjective::Size,
                e.timeout_seconds,
                e.threads,
                e.warm,
                r@,
                other,
            );
        },
        Registered::DualIlp(e) => {
            lemma_ilp_answers::<M>(
                g,
                roots@,
                e.objective(),
                e.timeout_seconds,
                e.threads,
                e.warm,
                r@,
                other,
            );
        },
        Registered::DelayBudgetIlp(e) => {
            lemma_ilp_answers::<M>(
                g,
                roots@,
                e.objective(),
                e.timeout_seconds,
                e.threads,
                e.warm,
                r@,
                other,
            );
        },
        Registered::TimedFasterIlp(_) => {
            lemma_faster_answers::<M, C>(g, roots@, 10, 1, unwarmed(), clock, r@);
        },
        Registered::FasterIlp(e) => {
            lemma_faster_answers::<M, C>(
                g,
                roots@,
                e.timeout_seconds,
                e.threads,
                e.warm,
                clock,
                r@,
            );
        },
    }
}

proof fn lemma_ilp_answers<M: MilpModel>(
    g: EGraph,
    roots: Seq<ClassId>,
    objective: IlpObjective,
    timeout: u32,
    threads: u32,
    warm: WarmConfig,
    sel: Map<ClassId, NodeId>,
    other: Map<ClassId, NodeId>,
)
    requires
        ilp_holds::<M>(g, roots, objective, timeout, threads, warm, sel),
        objective != (IlpObjective::SizeConstrainedDepth { depth_budget: DepthBudget::Initial }),
        valid(g, other, roots),
        roots.len() > 0,
    ensures
        has_sound_amounts(g, objective) ==> valid(g, sel, roots),
{
    let report = choose|report: SolveReport| #[trigger]
        ilp_cbc::extraction_holds::<M>(g, roots, objective, timeout, threads, warm, sel, report);
    cbc_extractors_answer_sound_requests::<M>(
        g,
        roots,
        objective,
        timeout,
        threads,
        warm,
        sel,
        report,
    );
}

proof fn lemma_faster_answers<M: MilpModel, C: Clock>(
    g: EGraph,
    roots: Seq<ClassId>,
    timeout: u32,
    threads: u32,
    warm: WarmConfig,
    clock: C,
    sel: Map<ClassId, NodeId>,
)
    requires
        faster_holds::<M, C>(g, roots, timeout, threads, warm, clock, sel),
    ensures
        valid(g, sel, roots) || sel == Map::<ClassId, NodeId>::empty(),
{
}

} // verus!
