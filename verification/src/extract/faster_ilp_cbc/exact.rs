//! Why a search with an exact solver ends with a smallest extraction.
use crate::cost::{is_weight, saturate, Cost, INFINITY, ONE};
use crate::egraph::{ClassId, EGraph, NodeId};
use crate::extract::faster_ilp_cbc::block::{admits, has_point, is_point_of};
use crate::extract::faster_ilp_cbc::cycles::{holds_part, is_part};
use crate::extract::faster_ilp_cbc::encoding::{
    encodes, lit, objective_covers_price, only_on, point_has_reading, point_reads_closed, reading,
    reads,
};
use crate::extract::faster_ilp_cbc::optimum::{
    is_smallest, lemma_part_price, lemma_same_reading, optimal_choices_are_smallest,
};
use crate::extract::faster_ilp_cbc::problem::{
    class_price, lemma_offered, lemma_place, lemma_simplifies_less, offers, place, price, simplifies, solves, sound,
    sound_class, Problem, Vars,
};
use crate::extract::faster_ilp_cbc::read::{all_readable, chosen_cost, on_in, readable, sole_on};
use crate::extract::faster_ilp_cbc::rows::{lemma_base_cost, owned};
use crate::extract::faster_ilp_cbc::simplify::{completed, lemma_least_price, solution_is_valid};
use crate::extract::faster_ilp_cbc::start::{costs_valid, sorts, start_problem};
use crate::extract::faster_ilp_cbc::{is_verdict, verdict_on, Config, Verdict};
use crate::extract::ilp::outcome::is_exact_answer;
use crate::extract::ilp::optimality::{is_optimal_point, objective_at, objective_term};
use crate::extract::selection::{dag_size, valid};
use crate::milp::point::feasible;
use crate::milp::stage::{Col, Lp, Staged};
use crate::milp::steps::may_solve;
use crate::milp::{MilpModel, MilpSense, MilpSolution};
use crate::sums::total_of;
use vstd::prelude::*;

verus! {

/// Every column is binary.
pub open spec fn only_binaries(lp: Lp) -> bool {
    forall|j: int|
        0 <= j < lp.cols.len() ==> (#[trigger] lp.cols[j]).integral && 0 <= lp.cols[j].lower
            && lp.cols[j].upper <= ONE
}

/// Some point is optimal.
pub open spec fn has_optimum(lp: Lp) -> bool {
    exists|x: Seq<int>, den: int| is_optimal_point(lp, x, den)
}

/// The solver solves models of binary columns to optimality.
pub open spec fn is_exact<M: MilpModel>() -> bool {
    forall|staged: Staged, solution: MilpSolution|
        staged.wf() && staged.lp().sense == MilpSense::Minimize && only_binaries(staged.lp())
            && has_optimum(staged.lp()) && #[trigger] may_solve::<M>(staged, solution)
            ==> is_exact_answer(staged.lp(), solution)
}

/// The columns of the model of a problem are binary, and cost something that is
/// not negative.
proof fn lemma_model_binary(lp: Lp, q: Problem, actives: Seq<Col>, config: Config, n: nat)
    requires
        sound(q, n),
        encodes(lp, q, actives, config, n),
    ensures
        only_binaries(lp),
        forall|j: int| 0 <= j < lp.cols.len() ==> (#[trigger] lp.cols[j]).cost >= 0,
{
    assert forall|j: int| 0 <= j < lp.cols.len() implies (#[trigger] lp.cols[j]).integral && 0
        <= lp.cols[j].lower && lp.cols[j].upper <= ONE && lp.cols[j].cost >= 0 by {
        if owned(q, actives, j) {
            if exists|c: ClassId| #[trigger] q.classes.contains_key(c) && actives[c as int] == j {
                let c = choose|c: ClassId| #[trigger]
                    q.classes.contains_key(c) && actives[c as int] == j;
                if q.classes[c].len() > 0 {
                    lemma_base_cost(q, n, c, 0, config);
                }
            } else {
                let (c, i) = choose|c: ClassId, i: int|
                    q.classes.contains_key(c) && 0 <= i < q.classes[c].len() && (
                    #[trigger] q.classes[c][i]).variable == j;
                lemma_base_cost(q, n, c, i, config);
                assert(sound_class(q, q.classes[c]));
            }
        }
    }
}

/// At a point of binary columns the objective is whole.
proof fn lemma_whole(lp: Lp, x: Seq<int>, den: int, n: nat) -> (k: nat)
    requires
        feasible(lp, x, den),
        only_binaries(lp),
        forall|j: int| 0 <= j < lp.cols.len() ==> (#[trigger] lp.cols[j]).cost >= 0,
        n <= lp.cols.len(),
    ensures
        total_of(objective_term(lp, x), n) == k * den,
    decreases n,
{
    if n == 0 {
        assert(0 * den == 0);
        0
    } else {
        let head = lemma_whole(lp, x, den, (n - 1) as nat);
        let j = n - 1;
        let col = lp.cols[j];
        let v = x[j];
        let low = col.lower as int;
        let cost = col.cost as int;
        assert(v >= 0) by (nonlinear_arith)
            requires
                low * den <= v * 1_000_000,
                low >= 0,
                den > 0,
        ;
        let m = v / den;
        assert(v == m * den && m >= 0) by (nonlinear_arith)
            requires
                v % den == 0,
                v >= 0,
                den > 0,
                m == v / den,
        ;
        assert(head * den + cost * v == (head + cost * m) * den) by (nonlinear_arith)
            requires
                v == m * den,
        ;
        assert(cost * m >= 0) by (nonlinear_arith)
            requires
                cost >= 0,
                m >= 0,
        ;
        (head + cost * m) as nat
    }
}

/// A model of binary columns that has a point has an optimal one.
proof fn lemma_has_optimum(lp: Lp, y: Seq<int>, e: int, k: nat)
    requires
        feasible(lp, y, e),
        only_binaries(lp),
        forall|j: int| 0 <= j < lp.cols.len() ==> (#[trigger] lp.cols[j]).cost >= 0,
        objective_at(lp, y) == k * e,
    ensures
        has_optimum(lp),
    decreases k,
{
    if !is_optimal_point(lp, y, e) {
        let (z, f) = choose|z: Seq<int>, f: int| #[trigger]
            feasible(lp, z, f) && !(objective_at(lp, y) * f <= objective_at(lp, z) * e);
        let m = lemma_whole(lp, z, f, lp.cols.len());
        let ours = objective_at(lp, y);
        let theirs = objective_at(lp, z);
        assert(m < k) by (nonlinear_arith)
            requires
                ours == k * e,
                theirs == m * f,
                theirs * e < ours * f,
                e > 0,
                f > 0,
        ;
        lemma_has_optimum(lp, z, f, m);
    }
}

/// What is chosen costs its price, where that fits.
proof fn lemma_chosen_cost(q: Problem, n: nat, sel: Map<ClassId, NodeId>, k: nat)
    requires
        sound(q, n),
        forall|c: ClassId| #[trigger]
            sel.contains_key(c) ==> q.classes.contains_key(c) && offers(q.classes[c], sel[c]),
        price(q, sel, k) < INFINITY,
    ensures
        0 <= price(q, sel, k),
        chosen_cost(q, sel, k) == price(q, sel, k),
    decreases k,
{
    if k > 0 {
        let c = (k - 1) as ClassId;
        if sel.contains_key(c) {
            lemma_offered(q.classes[c], sel[c]);
            assert(sound_class(q, q.classes[c]));
            assert(is_weight(q.classes[c][place(q.classes[c], sel[c])].cost));
        }
        assert(class_price(q, sel, c) >= 0);
        lemma_chosen_cost(q, n, sel, (k - 1) as nat);
    }
}

/// Choices that can be read from a point can be read from its solution.
proof fn lemma_readable(
    lp: Lp,
    q: Problem,
    actives: Seq<Col>,
    config: Config,
    n: nat,
    solution: MilpSolution,
    x: Seq<int>,
    den: int,
)
    requires
        sound(q, n),
        n <= usize::MAX,
        encodes(lp, q, actives, config, n),
        feasible(lp, x, den),
        forall|j: Col|
            j < lp.cols.len() && (#[trigger] lp.cols[j as int]).integral ==> solution.value_of(j)
                * den == x[j as int] * ONE,
    ensures
        all_readable(q, actives, on_in(solution)),
{
    let sel = reading(q, actives, x, den);
    point_has_reading(lp, q, actives, config, n, x, den);
    assert forall|j: Col|
        j < lp.cols.len() && (#[trigger] lp.cols[j as int]).integral implies on_in(solution)(j)
        == lit(x)(j) by {
        let v = solution.value_of(j) as int;
        let p = x[j as int];
        assert((v > 0) == (p > 0)) by (nonlinear_arith)
            requires
                v * den == p * 1_000_000,
                den > 0,
        ;
    }
    assert forall|c: ClassId| #[trigger]
        q.classes.contains_key(c) && on_in(solution)(actives[c as int]) implies readable(
        q.classes[c],
        on_in(solution),
    ) by {
        let list = q.classes[c];
        assert(lp.cols[actives[c as int] as int].integral);
        assert(sel.contains_key(c));
        if list.len() != 1 {
            assert(only_on(list, lit(x), sel[c]));
            lemma_offered(list, sel[c]);
            let i = place(list, sel[c]);
            assert(sound_class(q, list));
            assert forall|j: int| 0 <= j < list.len() implies on_in(solution)(
                (#[trigger] list[j]).variable,
            ) == (j == i) by {
                assert(lp.cols[q.classes[c][j].variable as int].integral);
                lemma_place(list, j);
            }
            assert(sole_on(list, on_in(solution), list.len() as int, i));
        }
    }
}

/// What a point reads as, its solution reads as.
pub proof fn lemma_solution_reads(
    lp: Lp,
    q: Problem,
    actives: Seq<Col>,
    config: Config,
    n: nat,
    solution: MilpSolution,
    x: Seq<int>,
    den: int,
)
    requires
        sound(q, n),
        n <= usize::MAX,
        encodes(lp, q, actives, config, n),
        feasible(lp, x, den),
        forall|j: Col|
            j < lp.cols.len() && (#[trigger] lp.cols[j as int]).integral ==> solution.value_of(j)
                * den == x[j as int] * ONE,
    ensures
        reads(q, actives, on_in(solution), reading(q, actives, x, den)),
{
    let sel = reading(q, actives, x, den);
    point_has_reading(lp, q, actives, config, n, x, den);
    assert forall|j: Col|
        j < lp.cols.len() && (#[trigger] lp.cols[j as int]).integral implies on_in(solution)(j)
        == lit(x)(j) by {
        let v = solution.value_of(j) as int;
        let p = x[j as int];
        assert((v > 0) == (p > 0)) by (nonlinear_arith)
            requires
                v * den == p * 1_000_000,
                den > 0,
        ;
    }
    assert forall|c: ClassId| #[trigger] sel.contains_key(c) <==> q.classes.contains_key(c)
        && on_in(solution)(actives[c as int]) by {
        if q.classes.contains_key(c) {
            assert(lp.cols[actives[c as int] as int].integral);
        }
    }
    assert forall|c: ClassId| #[trigger] sel.contains_key(c) implies offers(q.classes[c], sel[c])
        && (q.classes[c].len() == 1 || only_on(q.classes[c], on_in(solution), sel[c])) by {
        let list = q.classes[c];
        assert(q.classes.contains_key(c));
        if list.len() != 1 {
            assert(only_on(list, lit(x), sel[c]));
            assert forall|i: int| 0 <= i < list.len() implies on_in(solution)(
                (#[trigger] list[i]).variable,
            ) == (list[i].node == sel[c]) by {
                assert(lp.cols[q.classes[c][i].variable as int].integral);
            }
        }
    }
}

proof fn lemma_tight(least: int, whole: int, ours: int, den: int)
    requires
        least <= whole,
        whole * ONE * den <= ours,
        ours <= least * ONE * den,
        den > 0,
    ensures
        whole == least,
        ours / (den * ONE) == least,
{
    let unit = den * 1_000_000;
    assert(whole * 1_000_000 * den == whole * unit && least * 1_000_000 * den == least * unit)
        by (nonlinear_arith)
        requires
            unit == den * 1_000_000,
    ;
    assert(whole <= least) by (nonlinear_arith)
        requires
            whole * unit <= least * unit,
            unit > 0,
    ;
    assert(ours == least * unit);
    assert((least * unit) / unit == least) by (nonlinear_arith)
        requires
            unit > 0,
    ;
}

/// What no point is better than, no solution is cheaper than.
proof fn lemma_least_solution(
    lp: Lp,
    q: Problem,
    actives: Seq<Col>,
    n: nat,
    x: Seq<int>,
    den: int,
    s: Map<ClassId, NodeId>,
)
    requires
        is_optimal_point(lp, x, den),
        admits(lp, q, actives, n),
        solves(q, s),
    ensures
        objective_at(lp, x) <= price(q, s, n) * ONE * den,
{
    assert(has_point(lp, q, actives, n, s));
    let y = choose|y: Seq<int>| is_point_of(lp, q, actives, n, s, y);
    assert(feasible(lp, y, 1));
    assert(objective_at(lp, x) * 1 <= objective_at(lp, y) * den);
}

/// What the choices at an optimal point cost, if they have no cycle: the
/// objective, which is the size of the extraction, and no more than that of any
/// other.
proof fn lemma_optimal_figures(
    g: EGraph,
    roots: Seq<ClassId>,
    sorted: Seq<ClassId>,
    q: Problem,
    actives: Seq<Col>,
    config: Config,
    lp: Lp,
    x: Seq<int>,
    den: int,
    known: Map<ClassId, NodeId>,
    sel: Map<ClassId, NodeId>,
    part: Map<ClassId, NodeId>,
)
    requires
        g.wf(),
        costs_valid(g),
        sorts(roots, sorted),
        valid(g, known, roots),
        dag_size(g, known, roots) < INFINITY,
        simplifies(
            start_problem(g, sorted),
            q,
            g.classes@.len(),
            dag_size(g, known, roots) as int,
        ),
        sound(q, g.classes@.len()),
        encodes(lp, q, actives, config, g.classes@.len()),
        admits(lp, q, actives, g.classes@.len()),
        is_optimal_point(lp, x, den),
        reads(q, actives, lit(x), sel),
        is_part(part, sel),
        solves(q, part),
    ensures
        ({
            let cost = chosen_cost(q, sel, g.classes@.len());
            &&& cost < INFINITY
            &&& objective_at(lp, x) / (den * ONE) == cost
            &&& dag_size(g, completed(q, sel), roots) == cost
            &&& cost <= dag_size(g, known, roots)
        }),
{
    let n = g.classes@.len();
    vstd::std_specs::vec::axiom_spec_len(&g.classes);
    assert forall|c: ClassId| #[trigger] sel.contains_key(c) implies q.classes.contains_key(c)
        && offers(q.classes[c], sel[c]) by {}
    solution_is_valid(g, roots, sorted, q, dag_size(g, known, roots) as int, part, sel);
    objective_covers_price(lp, q, actives, config, n, x, den, sel);
    lemma_part_price(q, n, part, sel);
    let least = price(q, part, n);
    let whole = price(q, sel, n);
    let ours = objective_at(lp, x);
    lemma_least_solution(lp, q, actives, n, x, den, part);
    lemma_tight(least, whole, ours, den);
    assert forall|s: Map<ClassId, NodeId>| #[trigger] solves(q, s) implies least <= price(
        q,
        s,
        n,
    ) by {
        lemma_least_solution(lp, q, actives, n, x, den, s);
        let theirs = price(q, s, n);
        assert(least <= theirs) by (nonlinear_arith)
            requires
                least * 1_000_000 * den <= theirs * 1_000_000 * den,
                den > 0,
        ;
    }
    lemma_least_price(g, roots, sorted, q, known, least, known);
    lemma_least_price(g, roots, sorted, q, known, least, completed(q, sel));
    lemma_chosen_cost(q, n, sel, n);
}

/// The model of a problem that has a solution has an optimal point.
pub proof fn lemma_model_optimum(
    lp: Lp,
    q: Problem,
    actives: Seq<Col>,
    config: Config,
    n: nat,
    some: Map<ClassId, NodeId>,
)
    requires
        sound(q, n),
        encodes(lp, q, actives, config, n),
        admits(lp, q, actives, n),
        solves(q, some),
    ensures
        only_binaries(lp),
        has_optimum(lp),
{
    lemma_model_binary(lp, q, actives, config, n);
    assert(has_point(lp, q, actives, n, some));
    let y = choose|y: Seq<int>| is_point_of(lp, q, actives, n, some, y);
    let k = lemma_whole(lp, y, 1, lp.cols.len());
    assert(objective_at(lp, y) == k * 1);
    lemma_has_optimum(lp, y, 1, k);
}

/// What an exact answer is taken for: if its choices have no cycle they are
/// found to be optimal, and are a smallest extraction; else the cycles are to
/// be blocked.
pub proof fn lemma_exact_verdict(
    g: EGraph,
    roots: Seq<ClassId>,
    sorted: Seq<ClassId>,
    config: Config,
    vars: Vars,
    lp: Lp,
    bound: Cost,
    known: Map<ClassId, NodeId>,
    solution: MilpSolution,
    v: Verdict,
)
    requires
        g.wf(),
        costs_valid(g),
        sorts(roots, sorted),
        valid(g, known, roots),
        dag_size(g, known, roots) < INFINITY,
        dag_size(g, known, roots) <= bound,
        simplifies(start_problem(g, sorted), vars@, g.classes@.len(), bound as int),
        sound(vars@, g.classes@.len()),
        encodes(lp, vars@, vars.actives(), config, g.classes@.len()),
        admits(lp, vars@, vars.actives(), g.classes@.len()),
        is_exact_answer(lp, solution),
        is_verdict(g, roots, vars, config, bound, solution, v),
    ensures
        v is Refine || (v matches Verdict::Found { extraction, optimal } && optimal && is_smallest(
            g,
            roots,
            extraction@,
        )),
{
    let q = vars@;
    let n = g.classes@.len();
    let actives = vars.actives();
    lemma_simplifies_less(
        start_problem(g, sorted),
        q,
        n,
        bound as int,
        dag_size(g, known, roots) as int,
    );
    vstd::std_specs::vec::axiom_spec_len(&g.classes);
    let (x, den) = choose|x: Seq<int>, den: int|
        {
            &&& #[trigger] is_optimal_point(lp, x, den)
            &&& forall|j: Col|
                j < lp.cols.len() && (#[trigger] lp.cols[j as int]).integral
                    ==> solution.value_of(j) * den == x[j as int] * ONE
            &&& solution.objective == saturate(objective_at(lp, x) / (den * ONE))
        };
    assert(feasible(lp, x, den));
    lemma_readable(lp, q, actives, config, n, solution, x, den);
    let read = choose|read: Map<ClassId, NodeId>| #[trigger]
        reads(q, actives, on_in(solution), read) && verdict_on(
            g,
            roots,
            q,
            bound,
            solution,
            read,
            v,
        );
    lemma_same_reading(lp, q, actives, config, n, solution, x, den, read);
    point_reads_closed(lp, q, actives, config, n, x, den, read);
    if holds_part(q, read) {
        let part = choose|part: Map<ClassId, NodeId>|
            is_part(part, read) && #[trigger] solves(q, part);
        lemma_optimal_figures(
            g,
            roots,
            sorted,
            q,
            actives,
            config,
            lp,
            x,
            den,
            known,
            read,
            part,
        );
        let whole = completed(q, read);
        assert(valid(g, whole, roots)) by {
            optimal_choices_are_smallest(
                g,
                roots,
                sorted,
                q,
                actives,
                config,
                lp,
                x,
                den,
                read,
                known,
                known,
            );
        }
        assert forall|other: Map<ClassId, NodeId>| #[trigger] valid(
            g,
            other,
            roots,
        ) implies dag_size(g, whole, roots) <= dag_size(g, other, roots) by {
            optimal_choices_are_smallest(
                g,
                roots,
                sorted,
                q,
                actives,
                config,
                lp,
                x,
                den,
                read,
                known,
                other,
            );
        }
    }
}

} // verus!
