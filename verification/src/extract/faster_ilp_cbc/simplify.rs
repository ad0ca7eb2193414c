//! All simplifications together, and what they leave unchanged.
use crate::cost::{saturate, Cost, INFINITY};
use crate::egraph::{ClassId, EGraph, NodeId};
use crate::extract::faster_ilp_cbc::cycles::is_part;
use crate::extract::faster_ilp_cbc::empty::{hope_masks, remove_empty_classes};
use crate::extract::faster_ilp_cbc::lift::{lift_rounds, pull_up_costs};
use crate::extract::faster_ilp_cbc::parents::single_parents;
use crate::extract::faster_ilp_cbc::problem::{
    attains, drawn_from, holds_solution, lemma_offered, lemma_simplifies_trans, listed, offers,
    place, price, simplifies, solves, solves_with, sound, Problem, Vars,
};
use crate::extract::faster_ilp_cbc::prune::{
    cost_masks, loop_masks, remove_high_cost, remove_with_loops,
};
use crate::extract::faster_ilp_cbc::pull::{pull_rounds, pull_up_with_single_parent, ROUNDS};
use crate::extract::faster_ilp_cbc::reach::{
    find_extra_roots, reachable_part, remove_unreachable_classes, roots_extended,
};
use crate::extract::faster_ilp_cbc::rows::{is_closed, root_closed};
use crate::extract::faster_ilp_cbc::start::{
    costs_valid, lemma_solves_valid, lemma_start_choice, lemma_valid_solves, sorts, start_problem,
};
use crate::extract::faster_ilp_cbc::subsume::{
    remove_more_expensive_subsumed_nodes, subsumed_masks,
};
use crate::extract::faster_ilp_cbc::thin::thinned;
use crate::extract::faster_ilp_cbc::zero::{freed, remove_single_zero_cost};
use crate::extract::faster_ilp_cbc::Config;
use crate::extract::selection::{
    dag_size, in_class, infinite_below, reaches, size_below, valid,
};
use vstd::prelude::*;

verus! {

/// `q` if `on`, else `p`.
pub open spec fn applied(on: bool, p: Problem, q: Problem) -> Problem {
    if on {
        q
    } else {
        p
    }
}

/// What the passes that drop nodes and classes leave.
pub open spec fn pruned(p: Problem, bound: Cost, config: Config) -> Problem {
    let a = applied(config.remove_self_loops, p, thinned(p, loop_masks(p)));
    let b = applied(config.remove_high_cost_nodes, a, thinned(a, cost_masks(a, bound)));
    let c = applied(
        config.remove_more_expensive_subsumed_nodes,
        b,
        thinned(b, subsumed_masks(b)),
    );
    applied(config.remove_unreachable_classes, c, reachable_part(c))
}

/// What the passes that move needs and costs, and decide classes, leave.
pub open spec fn condensed(p: Problem, n: nat, config: Config) -> Problem {
    let a = applied(config.pull_up_single_parent, p, pull_rounds(p, n, ROUNDS as nat));
    let b = applied(
        config.pull_up_costs,
        a,
        lift_rounds(a, single_parents(a, n), ROUNDS as nat),
    );
    applied(config.remove_single_zero_cost, b, freed(b))
}

/// `q` is what one round of simplifications makes of `p`, by way of `mid`.
pub open spec fn round_by(
    p: Problem,
    mid: Problem,
    q: Problem,
    n: nat,
    bound: Cost,
    config: Config,
) -> bool {
    let condensed = condensed(pruned(p, bound, config), n, config);
    &&& config.find_extra_roots ==> roots_extended(condensed, mid)
    &&& !config.find_extra_roots ==> mid == condensed
    &&& q == applied(config.remove_empty_classes, mid, thinned(mid, hope_masks(mid)))
}

/// `q` is what one round of simplifications makes of `p`.
pub open spec fn round_of(p: Problem, q: Problem, n: nat, bound: Cost, config: Config) -> bool {
    exists|mid: Problem| round_by(p, mid, q, n, bound, config)
}

/// `q` is what two rounds of simplifications make of `p`.
pub open spec fn simplified(p: Problem, q: Problem, n: nat, bound: Cost, config: Config) -> bool {
    exists|mid: Problem| #[trigger]
        round_of(p, mid, n, bound, config) && round_of(mid, q, n, bound, config)
}

/// Makes every simplification that `config` has, once.
fn simplify_once(vars: &mut Vars, bound: Cost, config: &Config)
    requires
        old(vars).wf(),
    ensures
        final(vars).wf(),
        final(vars).same_columns(old(vars)),
        round_of(old(vars)@, final(vars)@, old(vars).size(), bound, *config),
        simplifies(old(vars)@, final(vars)@, old(vars).size(), bound as int),
{
    let ghost p = vars@;
    let ghost n = vars.size();
    let ghost b = bound as int;
    remove_with_loops(vars, config);
    let ghost a1 = vars@;
    assert(simplifies(p, a1, n, b));
    remove_high_cost(vars, bound, config);
    let ghost a2 = vars@;
    remove_more_expensive_subsumed_nodes(vars, config);
    let ghost a3 = vars@;
    assert(simplifies(a2, a3, n, b));
    remove_unreachable_classes(vars, config);
    let ghost a4 = vars@;
    assert(simplifies(a3, a4, n, b));
    pull_up_with_single_parent(vars, config);
    let ghost a5 = vars@;
    assert(simplifies(a4, a5, n, b));
    pull_up_costs(vars, config);
    let ghost a6 = vars@;
    assert(simplifies(a5, a6, n, b));
    remove_single_zero_cost(vars, config);
    let ghost a7 = vars@;
    assert(simplifies(a6, a7, n, b));
    find_extra_roots(vars, config);
    let ghost a8 = vars@;
    assert(simplifies(a7, a8, n, b));
    remove_empty_classes(vars, config);
    let ghost q = vars@;
    assert(simplifies(a8, q, n, b));
    proof {
        lemma_simplifies_trans(p, a1, a2, n, b);
        lemma_simplifies_trans(p, a2, a3, n, b);
        lemma_simplifies_trans(p, a3, a4, n, b);
        lemma_simplifies_trans(p, a4, a5, n, b);
        lemma_simplifies_trans(p, a5, a6, n, b);
        lemma_simplifies_trans(p, a6, a7, n, b);
        lemma_simplifies_trans(p, a7, a8, n, b);
        lemma_simplifies_trans(p, a8, q, n, b);
        assert(a4 == pruned(p, bound, *config));
        assert(a7 == condensed(a4, n, *config));
        assert(round_by(p, a8, q, n, bound, *config));
    }
}

/// Makes every simplification that `config` has, twice. `bound` is the cost of
/// a known solution.
pub(crate) fn simplify(vars: &mut Vars, bound: Cost, config: &Config)
    requires
        old(vars).wf(),
    ensures
        final(vars).wf(),
        final(vars).same_columns(old(vars)),
        simplified(old(vars)@, final(vars)@, old(vars).size(), bound, *config),
        simplifies(old(vars)@, final(vars)@, old(vars).size(), bound as int),
{
    let ghost p = vars@;
    let ghost n = vars.size();
    simplify_once(vars, bound, config);
    let ghost mid = vars@;
    simplify_once(vars, bound, config);
    proof {
        lemma_simplifies_trans(p, mid, vars@, n, bound as int);
        assert(round_of(p, mid, n, bound, *config) && round_of(mid, vars@, n, bound, *config));
    }
}

/// What `sel` chooses, and for the rest what has been decided.
pub open spec fn completed(q: Problem, sel: Map<ClassId, NodeId>) -> Map<ClassId, NodeId> {
    q.decided.union_prefer_right(sel)
}

/// A simplified problem is worth solving: choices that hold a solution of it,
/// with what has been decided, are a valid extraction of the e-graph, no
/// larger than the solution costs.
pub proof fn solution_is_valid(
    g: EGraph,
    roots: Seq<ClassId>,
    sorted: Seq<ClassId>,
    q: Problem,
    bound: int,
    part: Map<ClassId, NodeId>,
    sel: Map<ClassId, NodeId>,
)
    requires
        g.wf(),
        costs_valid(g),
        sorts(roots, sorted),
        simplifies(start_problem(g, sorted), q, g.classes@.len(), bound),
        sound(q, g.classes@.len()),
        solves(q, part),
        is_part(part, sel),
        forall|c: ClassId| #[trigger]
            sel.contains_key(c) ==> q.classes.contains_key(c) && offers(q.classes[c], sel[c]),
    ensures
        valid(g, completed(q, sel), roots),
        dag_size(g, completed(q, sel), roots) <= price(q, part, g.classes@.len()),
{
    let p = start_problem(g, sorted);
    let n = g.classes@.len();
    let whole = completed(q, sel);
    assert(holds_solution(p, n, part, q.decided, price(q, part, n)));
    let base = choose|base: Map<ClassId, NodeId>| #[trigger]
        solves(p, base) && drawn_from(base, part, q.decided) && price(p, base, n) <= price(
            q,
            part,
            n,
        );
    lemma_completed_in_class(g, sorted, q, sel, bound);
    assert forall|c: ClassId| #[trigger] base.contains_key(c) implies whole.contains_key(c)
        && whole[c] == base[c] by {
        if part.contains_key(c) && part[c] == base[c] {
            assert(sel.contains_key(c));
        } else {
            assert(q.decided.contains_key(c));
            assert(!q.classes.contains_key(c));
            assert(!sel.contains_key(c));
        }
    }
    lemma_solves_valid(g, whole, roots, sorted, base);
    lemma_finite_size(g, whole, roots);
}

/// The size of a valid extraction is infinite if that of a node is, and is not
/// negative.
pub proof fn lemma_finite_size(g: EGraph, sel: Map<ClassId, NodeId>, roots: Seq<ClassId>)
    requires
        g.wf(),
        costs_valid(g),
        valid(g, sel, roots),
    ensures
        dag_size(g, sel, roots) == (if infinite_below(g, sel, roots) {
            INFINITY
        } else {
            saturate(size_below(g, sel, roots, g.classes@.len()))
        }),
        size_below(g, sel, roots, g.classes@.len()) >= 0,
{
    lemma_size_not_negative(g, sel, roots, g.classes@.len());
}

proof fn lemma_size_not_negative(
    g: EGraph,
    sel: Map<ClassId, NodeId>,
    roots: Seq<ClassId>,
    n: nat,
)
    requires
        g.wf(),
        costs_valid(g),
        valid(g, sel, roots),
    ensures
        size_below(g, sel, roots, n) >= 0,
    decreases n,
{
    if n > 0 {
        lemma_size_not_negative(g, sel, roots, (n - 1) as nat);
        let c = (n - 1) as ClassId;
        if reaches(g, sel, roots, c) {
            assert(sel.contains_key(c));
        }
    }
}

/// Whatever a simplified problem offers or has decided is a node of its class.
pub proof fn lemma_completed_in_class(
    g: EGraph,
    sorted: Seq<ClassId>,
    q: Problem,
    sel: Map<ClassId, NodeId>,
    bound: int,
)
    requires
        g.wf(),
        simplifies(start_problem(g, sorted), q, g.classes@.len(), bound),
        forall|c: ClassId| #[trigger]
            sel.contains_key(c) ==> q.classes.contains_key(c) && offers(q.classes[c], sel[c]),
    ensures
        in_class(g, completed(q, sel)),
{
    let p = start_problem(g, sorted);
    let whole = completed(q, sel);
    assert forall|c: ClassId| #[trigger] whole.contains_key(c) implies whole[c] < g.nodes@.len()
        && g.nodes@[whole[c] as int].eclass == c by {
        if sel.contains_key(c) {
            lemma_offered(q.classes[c], sel[c]);
            let j = place(q.classes[c], sel[c]);
            assert(listed(p.classes[c], q.classes[c][j]));
            assert(offers(p.classes[c], sel[c]));
            lemma_start_choice(g, sorted, c, sel[c]);
        } else {
            assert(q.decided.contains_key(c));
            assert(p.classes.contains_key(c) && offers(p.classes[c], q.decided[c]));
            lemma_start_choice(g, sorted, c, q.decided[c]);
        }
    }
}

/// Simplification keeps the optimum: where `bound` is the size of some valid
/// extraction, a solution of the simplified problem that costs least gives a
/// valid extraction that no other is smaller than.
pub proof fn best_solution_is_smallest(
    g: EGraph,
    roots: Seq<ClassId>,
    sorted: Seq<ClassId>,
    q: Problem,
    known: Map<ClassId, NodeId>,
    best: Map<ClassId, NodeId>,
    other: Map<ClassId, NodeId>,
)
    requires
        g.wf(),
        costs_valid(g),
        sorts(roots, sorted),
        valid(g, known, roots),
        dag_size(g, known, roots) < INFINITY,
        simplifies(
            start_problem(g, sorted),
            q,
            g.classes@.len(),
            dag_size(g, known, roots) as int,
        ),
        sound(q, g.classes@.len()),
        solves(q, best),
        forall|sel: Map<ClassId, NodeId>| #[trigger]
            solves(q, sel) ==> price(q, best, g.classes@.len()) <= price(
                q,
                sel,
                g.classes@.len(),
            ),
        valid(g, other, roots),
    ensures
        valid(g, completed(q, best), roots),
        dag_size(g, completed(q, best), roots) <= dag_size(g, other, roots),
{
    let bound = dag_size(g, known, roots) as int;
    let rank = choose|rank: Map<ClassId, nat>| solves_with(q, best, rank);
    assert(is_part(best, best));
    solution_is_valid(g, roots, sorted, q, bound, best, best);
    lemma_least_price(
        g,
        roots,
        sorted,
        q,
        known,
        price(q, best, g.classes@.len()),
        other,
    );
}

/// What no solution of the simplified problem is cheaper than, no valid
/// extraction is smaller than.
pub proof fn lemma_least_price(
    g: EGraph,
    roots: Seq<ClassId>,
    sorted: Seq<ClassId>,
    q: Problem,
    known: Map<ClassId, NodeId>,
    least: int,
    other: Map<ClassId, NodeId>,
)
    requires
        g.wf(),
        costs_valid(g),
        sorts(roots, sorted),
        valid(g, known, roots),
        dag_size(g, known, roots) < INFINITY,
        simplifies(
            start_problem(g, sorted),
            q,
            g.classes@.len(),
            dag_size(g, known, roots) as int,
        ),
        forall|sel: Map<ClassId, NodeId>| #[trigger]
            solves(q, sel) ==> least <= price(q, sel, g.classes@.len()),
        valid(g, other, roots),
    ensures
        saturate(least) <= dag_size(g, other, roots),
        least < INFINITY,
{
    let p = start_problem(g, sorted);
    let n = g.classes@.len();
    let bound = dag_size(g, known, roots) as int;
    lemma_finite_size(g, known, roots);
    lemma_finite_size(g, other, roots);
    let a = lemma_valid_solves(g, known, roots, sorted);
    assert(price(p, a, n) <= bound);
    assert(attains(q, n, price(p, a, n)));
    let sa = choose|sa: Map<ClassId, NodeId>| #[trigger]
        solves(q, sa) && price(q, sa, n) <= price(p, a, n);
    assert(least <= bound);
    if !infinite_below(g, other, roots) {
        let b = lemma_valid_solves(g, other, roots, sorted);
        if price(p, b, n) <= bound {
            assert(attains(q, n, price(p, b, n)));
            let sb = choose|sb: Map<ClassId, NodeId>| #[trigger]
                solves(q, sb) && price(q, sb, n) <= price(p, b, n);
            assert(least <= price(p, b, n));
        }
    }
}

/// Simplification leaves something to choose for every root: where `bound` is
/// the size of some valid extraction, the simplified problem has a solution.
pub proof fn solution_is_left(
    g: EGraph,
    roots: Seq<ClassId>,
    sorted: Seq<ClassId>,
    q: Problem,
    known: Map<ClassId, NodeId>,
)
    requires
        g.wf(),
        costs_valid(g),
        sorts(roots, sorted),
        valid(g, known, roots),
        dag_size(g, known, roots) < INFINITY,
        simplifies(
            start_problem(g, sorted),
            q,
            g.classes@.len(),
            dag_size(g, known, roots) as int,
        ),
    ensures
        exists|sel: Map<ClassId, NodeId>| #[trigger] solves(q, sel),
        !root_closed(q),
{
    let n = g.classes@.len();
    lemma_finite_size(g, known, roots);
    let part = lemma_valid_solves(g, known, roots, sorted);
    assert(attains(q, n, price(start_problem(g, sorted), part, n)));
    let sel = choose|sel: Map<ClassId, NodeId>| #[trigger] solves(q, sel) && price(q, sel, n)
        <= price(start_problem(g, sorted), part, n);
    let rank = choose|rank: Map<ClassId, nat>| solves_with(q, sel, rank);
    assert forall|r: ClassId| #[trigger] q.roots.contains(r) implies !is_closed(q, r) by {
        assert(sel.contains_key(r));
    }
}

} // verus!
