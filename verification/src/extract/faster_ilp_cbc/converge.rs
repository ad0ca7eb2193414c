//! Why a search with an exact solver ends, and with what.
use crate::cost::{saturate, Cost, INFINITY, ONE};
use crate::egraph::{ClassId, EGraph, NodeId};
use crate::extract::faster_ilp_cbc::block::{blocked_all, uses};
use crate::extract::faster_ilp_cbc::cycles::{is_cycle, step};
use crate::extract::faster_ilp_cbc::encoding::{only_on, reads};
use crate::extract::faster_ilp_cbc::exact::{
    is_exact, lemma_exact_verdict, lemma_model_optimum, lemma_solution_reads,
};
use crate::extract::faster_ilp_cbc::optimum::{
    is_smallest, lemma_course, lemma_last, lemma_same_reading, Course,
};
use crate::extract::faster_ilp_cbc::problem::{
    lemma_simplifies_less, listed, offers, solves, sound, Problem, Vars,
};
use crate::extract::faster_ilp_cbc::progress::{
    blocked_cycle_is_gone, extends, lemma_blocked_all_extends, lemma_extends_on,
};
use crate::extract::faster_ilp_cbc::read::on_in;
use crate::extract::faster_ilp_cbc::simplify::solution_is_left;
use crate::extract::faster_ilp_cbc::start::{
    costs_valid, finite_places, lemma_finite_places, start_list, start_problem,
};
use crate::extract::faster_ilp_cbc::{
    blockable, extraction_holds, holds_from, is_found_by, is_opened, is_reduced, is_reduction,
    is_refined, is_round, is_search, is_staged, is_verdict, verdict_on, Config, Round, Verdict, WarmConfig,
};
use crate::extract::greedy::size::TreeRule;
use crate::extract::ilp::fallback::has_extraction;
use crate::extract::ilp::objective::is_greedy_by;
use crate::extract::ilp::outcome::is_exact_answer;
use crate::extract::ilp::optimality::{is_optimal_point, objective_at};
use crate::extract::ilp::report::SolveReport;
use crate::extract::ilp::solve::Clock;
use crate::extract::selection::{dag_size, valid};
use crate::milp::point::feasible;
use crate::milp::stage::{Col, Staged};
use crate::milp::steps::lemma_may_solve;
use crate::milp::{MilpModel, MilpSolution};
use vstd::prelude::*;

verus! {

/// The model of a later solve has what that of an earlier one has.
proof fn lemma_models_extend<M: MilpModel, C: Clock>(
    g: EGraph,
    roots: Seq<ClassId>,
    vars: Vars,
    config: Config,
    bound: Cost,
    timeout: u32,
    clock: C,
    start: Cost,
    ready: M,
    first: Staged,
    rounds: Seq<Round<M>>,
    i: int,
    j: int,
)
    requires
        is_search(
            g,
            roots,
            vars,
            config,
            bound,
            timeout,
            clock,
            start,
            ready,
            first,
            rounds,
        ),
        0 <= i <= j < rounds.len(),
    ensures
        extends(rounds[i].staged.lp(), rounds[j].staged.lp()),
    decreases j,
{
    if i < j {
        lemma_models_extend(
            g,
            roots,
            vars,
            config,
            bound,
            timeout,
            clock,
            start,
            ready,
            first,
            rounds,
            i,
            j - 1,
        );
        assert(is_refined(g, roots, vars, config, bound, rounds, j - 1));
        let v = choose|v: Verdict|
            {
                &&& #[trigger] is_verdict(
                    g,
                    roots,
                    vars,
                    config,
                    bound,
                    rounds[j - 1].solution,
                    v,
                )
                &&& v matches Verdict::Refine(cycles)
                &&& rounds[j].staged.lp() == blocked_all(
                    vars@,
                    cycles@,
                    rounds[j - 1].staged.lp(),
                    cycles@.len(),
                )
            };
        let cycles = v->Refine_0@;
        let before = rounds[j - 1].staged.lp();
        lemma_blocked_all_extends(vars@, cycles, before, 0, cycles.len());
        assert(blocked_all(vars@, cycles, before, 0) == before);
        lemma_extends_on(rounds[i].staged.lp(), before, rounds[j].staged.lp());
    }
}

/// Columns read as one choice of nodes at most.
pub proof fn lemma_one_reading(
    p: Problem,
    n: nat,
    actives: Seq<Col>,
    on: spec_fn(Col) -> bool,
    a: Map<ClassId, NodeId>,
    b: Map<ClassId, NodeId>,
)
    requires
        sound(p, n),
        reads(p, actives, on, a),
        reads(p, actives, on, b),
    ensures
        a == b,
{
    assert forall|c: ClassId| #[trigger] a.contains_key(c) <==> b.contains_key(c) by {}
    assert forall|c: ClassId| #[trigger] a.contains_key(c) implies a[c] == b[c] by {
        let list = p.classes[c];
        assert(b.contains_key(c));
        let i = choose|i: int| 0 <= i < list.len() && (#[trigger] list[i]).node == a[c];
        let j = choose|j: int| 0 <= j < list.len() && (#[trigger] list[j]).node == b[c];
        if list.len() != 1 {
            assert(only_on(list, on, a[c]));
            assert(only_on(list, on, b[c]));
            assert(on(list[i].variable));
        }
    }
    assert(a =~= b);
}

/// What an exact solver returns in a search is an exact answer.
proof fn lemma_exact_round<M: MilpModel, C: Clock>(
    g: EGraph,
    roots: Seq<ClassId>,
    config: Config,
    timeout: u32,
    clock: C,
    bound: Cost,
    known: Map<ClassId, NodeId>,
    vars: Vars,
    start: Cost,
    ready: M,
    rounds: Seq<Round<M>>,
    i: int,
)
    requires
        g.wf(),
        costs_valid(g),
        valid(g, known, roots),
        dag_size(g, known, roots) < INFINITY,
        dag_size(g, known, roots) <= bound,
        is_reduced(g, roots, config, bound, vars),
        is_round(vars, config, timeout, clock, start, ready, rounds, i),
        is_exact::<M>(),
    ensures
        is_exact_answer(rounds[i].staged.lp(), rounds[i].solution),
{
    let sorted = choose|sorted: Seq<ClassId>| #[trigger]
        is_reduction(g, roots, sorted, config, bound, vars);
    let round = rounds[i];
    lemma_may_solve(round.limited, round.staged, round.solution, round.done);
    lemma_simplifies_less(
        start_problem(g, sorted),
        vars@,
        g.classes@.len(),
        bound as int,
        dag_size(g, known, roots) as int,
    );
    solution_is_left(g, roots, sorted, vars@, known);
    let some = choose|some: Map<ClassId, NodeId>| #[trigger] solves(vars@, some);
    lemma_model_optimum(round.staged.lp(), vars@, vars.actives(), config, vars.size(), some);
}

/// The choices that an exact answer reads as.
pub open spec fn choices_of(vars: Vars, solution: MilpSolution) -> Map<ClassId, NodeId> {
    choose|sel: Map<ClassId, NodeId>| #[trigger]
        reads(vars@, vars.actives(), on_in(solution), sel)
}

/// A cycle whose every edge the choices use.
pub open spec fn all_used(
    p: Problem,
    sel: Map<ClassId, NodeId>,
    cycle: Seq<ClassId>,
) -> bool {
    forall|k: int| 0 <= k < cycle.len() ==> #[trigger] uses(p, sel, cycle, k)
}

/// A cycle of the choices can be blocked, and the choices use every edge of it.
proof fn lemma_cycle_used(
    p: Problem,
    n: nat,
    actives: Seq<Col>,
    on: spec_fn(Col) -> bool,
    sel: Map<ClassId, NodeId>,
    cycle: Seq<ClassId>,
)
    requires
        sound(p, n),
        n <= usize::MAX,
        reads(p, actives, on, sel),
        is_cycle(p, sel, cycle),
    ensures
        blockable(p, cycle),
        all_used(p, sel, cycle),
        cycle.len() <= n,
{
    assert forall|k: int| 0 <= k < cycle.len() implies #[trigger] uses(p, sel, cycle, k) by {
        if k + 1 < cycle.len() {
            assert(step(p, sel, cycle[k], cycle[k + 1]));
        } else {
            assert(cycle[k] == cycle.last());
        }
    }
    assert forall|k: int| 0 <= k < cycle.len() implies p.classes.contains_key(
        #[trigger] cycle[k],
    ) by {
        assert(uses(p, sel, cycle, k));
        assert(sel.contains_key(cycle[k]));
    }
    assert forall|k: int| 0 <= k < cycle.len() implies (#[trigger] cycle[k]) < n by {
        assert(p.classes.contains_key(cycle[k]));
    }
    crate::extract::ilp::warm::lemma_distinct_below(cycle, n);
}

/// What a solution that is refined reads as has a cycle, which the next model
/// blocks.
proof fn lemma_refined<M>(
    g: EGraph,
    roots: Seq<ClassId>,
    config: Config,
    bound: Cost,
    vars: Vars,
    rounds: Seq<Round<M>>,
    i: int,
) -> (r: (Map<ClassId, NodeId>, Seq<Vec<ClassId>>))
    requires
        is_refined(g, roots, vars, config, bound, rounds, i),
    ensures
        reads(vars@, vars.actives(), on_in(rounds[i].solution), r.0),
        r.1.len() > 0,
        is_cycle(vars@, r.0, r.1[0]@),
        rounds[i + 1].staged.lp() == blocked_all(
            vars@,
            r.1,
            rounds[i].staged.lp(),
            r.1.len(),
        ),
{
    let solution = rounds[i].solution;
    let v = choose|v: Verdict|
        {
            &&& #[trigger] is_verdict(g, roots, vars, config, bound, solution, v)
            &&& v matches Verdict::Refine(cycles)
            &&& rounds[i + 1].staged.lp() == blocked_all(
                vars@,
                cycles@,
                rounds[i].staged.lp(),
                cycles@.len(),
            )
        };
    let sel = choose|sel: Map<ClassId, NodeId>| #[trigger]
        reads(vars@, vars.actives(), on_in(solution), sel) && verdict_on(
            g,
            roots,
            vars@,
            bound,
            solution,
            sel,
            v,
        );
    (sel, v->Refine_0@)
}

/// A search with an exact solver makes progress: no two of its solutions read as
/// the same choices. E-graphs of so many classes that their number is no amount are
/// left out.
pub proof fn exact_search_never_repeats<M: MilpModel, C: Clock>(
    g: EGraph,
    roots: Seq<ClassId>,
    config: Config,
    timeout: u32,
    clock: C,
    bound: Cost,
    known: Map<ClassId, NodeId>,
    vars: Vars,
    start: Cost,
    ready: M,
    first: Staged,
    rounds: Seq<Round<M>>,
    i: int,
    j: int,
    a: Map<ClassId, NodeId>,
    b: Map<ClassId, NodeId>,
)
    requires
        g.wf(),
        costs_valid(g),
        valid(g, known, roots),
        dag_size(g, known, roots) < INFINITY,
        dag_size(g, known, roots) <= bound,
        is_reduced(g, roots, config, bound, vars),
        is_search(
            g,
            roots,
            vars,
            config,
            bound,
            timeout,
            clock,
            start,
            ready,
            first,
            rounds,
        ),
        g.classes@.len() * ONE < INFINITY,
        is_exact::<M>(),
        0 <= i < j < rounds.len(),
        reads(vars@, vars.actives(), on_in(rounds[i].solution), a),
        reads(vars@, vars.actives(), on_in(rounds[j].solution), b),
    ensures
        a != b,
{
    let q = vars@;
    let actives = vars.actives();
    let n = g.classes@.len();
    vstd::std_specs::vec::axiom_spec_len(&g.classes);
    assert(is_refined(g, roots, vars, config, bound, rounds, i));
    let (sel, cycles) = lemma_refined(g, roots, config, bound, vars, rounds, i);
    let sorted = choose|sorted: Seq<ClassId>| #[trigger]
        is_reduction(g, roots, sorted, config, bound, vars);
    lemma_one_reading(q, n, actives, on_in(rounds[i].solution), sel, a);
    let cycle = cycles[0]@;
    lemma_cycle_used(q, n, actives, on_in(rounds[i].solution), sel, cycle);
    // The cycle is blocked in every later model.
    let lp = rounds[i].staged.lp();
    let big = rounds[j].staged.lp();
    assert(is_round(vars, config, timeout, clock, start, ready, rounds, i));
    assert(is_round(vars, config, timeout, clock, start, ready, rounds, j));
    lemma_blocked_all_extends(q, cycles, lp, 1, cycles.len());
    assert(blocked_all(q, cycles, lp, 0) == lp);
    assert(blocked_all(q, cycles, lp, 1) == crate::extract::faster_ilp_cbc::block::blocked(
        q,
        cycle,
        lp,
    ));
    lemma_models_extend(
        g,
        roots,
        vars,
        config,
        bound,
        timeout,
        clock,
        start,
        ready,
        first,
        rounds,
        i + 1,
        j,
    );
    lemma_extends_on(blocked_all(q, cycles, lp, 1), rounds[i + 1].staged.lp(), big);
    lemma_exact_round(
        g,
        roots,
        config,
        timeout,
        clock,
        bound,
        known,
        vars,
        start,
        ready,
        rounds,
        j,
    );
    let solution = rounds[j].solution;
    let (x, den) = choose|x: Seq<int>, den: int|
        {
            &&& #[trigger] is_optimal_point(big, x, den)
            &&& forall|j: Col|
                j < big.cols.len() && (#[trigger] big.cols[j as int]).integral
                    ==> solution.value_of(j) * den == x[j as int] * ONE
            &&& solution.objective == saturate(objective_at(big, x) / (den * ONE))
        };
    assert(feasible(big, x, den));
    lemma_same_reading(big, q, actives, config, n, solution, x, den, b);
    blocked_cycle_is_gone(q, actives, config, n, cycle, lp, big, x, den, b);
    let k = choose|k: int| 0 <= k < cycle.len() && !#[trigger] uses(q, b, cycle, k);
    assert(uses(q, sel, cycle, k));
}

// ---------------------------------------------------------------------------
// How many solves there can be
// ---------------------------------------------------------------------------

/// The number of ways to choose a member or none for each of the first `n` classes.
pub open spec fn ways(g: EGraph, n: nat) -> nat
    decreases n,
{
    if n == 0 {
        1
    } else {
        ways(g, (n - 1) as nat) * (g.classes@[n - 1].nodes@.len() + 1)
    }
}

/// The choices are of members.
pub open spec fn of_members(g: EGraph, sel: Map<ClassId, NodeId>) -> bool {
    forall|c: ClassId| #[trigger]
        sel.contains_key(c) ==> c < g.classes@.len() && g.classes@[c as int].nodes@.contains(sel[c])
}

/// Zero for no choice, else one more than where the node stands.
spec fn digit(g: EGraph, sel: Map<ClassId, NodeId>, c: int) -> nat {
    if sel.contains_key(c as ClassId) {
        (choose|k: int|
            0 <= k < g.classes@[c].nodes@.len() && g.classes@[c].nodes@[k] == sel[c as ClassId])
            as nat + 1
    } else {
        0
    }
}

/// The number of a choice for the first `n` classes among all there are.
spec fn number(g: EGraph, sel: Map<ClassId, NodeId>, n: nat) -> nat
    decreases n,
{
    if n == 0 {
        0
    } else {
        number(g, sel, (n - 1) as nat) * (g.classes@[n - 1].nodes@.len() + 1) + digit(
            g,
            sel,
            n - 1,
        )
    }
}

proof fn lemma_number_below(g: EGraph, sel: Map<ClassId, NodeId>, n: nat)
    requires
        of_members(g, sel),
        n <= g.classes@.len() <= usize::MAX,
    ensures
        number(g, sel, n) < ways(g, n),
    decreases n,
{
    if n > 0 {
        lemma_number_below(g, sel, (n - 1) as nat);
        let a = number(g, sel, (n - 1) as nat) as int;
        let w = ways(g, (n - 1) as nat) as int;
        let base = (g.classes@[n - 1].nodes@.len() + 1) as int;
        let d = digit(g, sel, n - 1) as int;
        assert(d < base) by {
            if sel.contains_key((n - 1) as ClassId) {
                assert(g.classes@[n - 1].nodes@.contains(sel[(n - 1) as ClassId]));
            }
        }
        assert(a * base + d < w * base) by (nonlinear_arith)
            requires
                a + 1 <= w,
                d < base,
                base > 0,
        ;
    }
}

proof fn lemma_same_number(
    g: EGraph,
    a: Map<ClassId, NodeId>,
    b: Map<ClassId, NodeId>,
    n: nat,
    c: ClassId,
)
    requires
        of_members(g, a),
        of_members(g, b),
        n <= g.classes@.len() <= usize::MAX,
        number(g, a, n) == number(g, b, n),
        c < n,
    ensures
        a.contains_key(c) <==> b.contains_key(c),
        a.contains_key(c) ==> a[c] == b[c],
    decreases n,
{
    let na = number(g, a, (n - 1) as nat) as int;
    let nb = number(g, b, (n - 1) as nat) as int;
    let list = g.classes@[n - 1].nodes@;
    let base = (list.len() + 1) as int;
    let da = digit(g, a, n - 1) as int;
    let db = digit(g, b, n - 1) as int;
    let last = (n - 1) as ClassId;
    assert(0 <= da < base) by {
        if a.contains_key(last) {
            assert(list.contains(a[last]));
        }
    }
    assert(0 <= db < base) by {
        if b.contains_key(last) {
            assert(list.contains(b[last]));
        }
    }
    assert(na == nb && da == db) by (nonlinear_arith)
        requires
            na * base + da == nb * base + db,
            0 <= da < base,
            0 <= db < base,
    ;
    if c < n - 1 {
        lemma_same_number(g, a, b, (n - 1) as nat, c);
    } else {
        if a.contains_key(c) {
            assert(list.contains(a[c]));
            let k = choose|k: int| 0 <= k < list.len() && list[k] == a[c];
            assert(b.contains_key(c));
            assert(list.contains(b[c]));
        }
    }
}

/// Different numbers below `n` are at most `n`.
proof fn lemma_few_numbers(s: Seq<int>, n: int)
    requires
        n >= 0,
        s.no_duplicates(),
        forall|i: int| 0 <= i < s.len() ==> 0 <= (#[trigger] s[i]) < n,
    ensures
        s.len() <= n,
{
    s.unique_seq_to_set();
    vstd::set_lib::lemma_int_range(0, n);
    let all = vstd::set_lib::set_int_range(0, n);
    assert(s.to_set().subset_of(all));
    vstd::set_lib::lemma_len_subset(s.to_set(), all);
}

/// What is read is of members.
proof fn lemma_reads_members(
    g: EGraph,
    roots: Seq<ClassId>,
    config: Config,
    bound: Cost,
    vars: Vars,
    on: spec_fn(Col) -> bool,
    sel: Map<ClassId, NodeId>,
)
    requires
        is_reduced(g, roots, config, bound, vars),
        reads(vars@, vars.actives(), on, sel),
    ensures
        of_members(g, sel),
{
    let sorted = choose|sorted: Seq<ClassId>| #[trigger]
        is_reduction(g, roots, sorted, config, bound, vars);
    let p = start_problem(g, sorted);
    let q = vars@;
    assert forall|c: ClassId| #[trigger] sel.contains_key(c) implies c < g.classes@.len()
        && g.classes@[c as int].nodes@.contains(sel[c]) by {
        assert(q.classes.contains_key(c));
        assert(offers(q.classes[c], sel[c]));
        let j = choose|j: int|
            0 <= j < q.classes[c].len() && (#[trigger] q.classes[c][j]).node == sel[c];
        assert(p.classes.contains_key(c));
        assert(listed(p.classes[c], q.classes[c][j]));
        let list = start_list(g, c);
        let i = choose|i: int|
            0 <= i < list.len() && (#[trigger] list[i]).node == q.classes[c][j].node
                && list[i].variable == q.classes[c][j].variable;
        lemma_finite_places(g, c, g.classes@[c as int].nodes@.len());
        let places = finite_places(g, c, g.classes@[c as int].nodes@.len());
        assert(0 <= places[i] < g.classes@[c as int].nodes@.len());
        assert(g.classes@[c as int].nodes@[places[i]] == sel[c]);
    }
}

/// A search with an exact solver ends: it takes no more solves than there are ways
/// to choose a member or none for each class.
pub proof fn exact_search_is_bounded<M: MilpModel, C: Clock>(
    g: EGraph,
    roots: Seq<ClassId>,
    config: Config,
    timeout: u32,
    clock: C,
    bound: Cost,
    known: Map<ClassId, NodeId>,
    vars: Vars,
    start: Cost,
    ready: M,
    first: Staged,
    rounds: Seq<Round<M>>,
)
    requires
        g.wf(),
        costs_valid(g),
        valid(g, known, roots),
        dag_size(g, known, roots) < INFINITY,
        dag_size(g, known, roots) <= bound,
        is_reduced(g, roots, config, bound, vars),
        is_search(
            g,
            roots,
            vars,
            config,
            bound,
            timeout,
            clock,
            start,
            ready,
            first,
            rounds,
        ),
        g.classes@.len() * ONE < INFINITY,
        is_exact::<M>(),
    ensures
        rounds.len() <= ways(g, g.classes@.len()),
{
    let n = g.classes@.len();
    vstd::std_specs::vec::axiom_spec_len(&g.classes);
    let choice = |i: int| choices_of(vars, rounds[i].solution);
    let numbers = Seq::new(rounds.len(), |i: int| number(g, choice(i), n) as int);
    assert forall|i: int| 0 <= i < rounds.len() implies reads(
        vars@,
        vars.actives(),
        on_in(rounds[i].solution),
        #[trigger] choice(i),
    ) && of_members(g, choice(i)) by {
        assert(is_round(vars, config, timeout, clock, start, ready, rounds, i));
        lemma_exact_round(
            g,
            roots,
            config,
            timeout,
            clock,
            bound,
            known,
            vars,
            start,
            ready,
            rounds,
            i,
        );
        lemma_exact_reading(g, roots, config, bound, vars, rounds[i].staged, rounds[i].solution);
        lemma_reads_members(
            g,
            roots,
            config,
            bound,
            vars,
            on_in(rounds[i].solution),
            choice(i),
        );
    }
    assert forall|i: int| 0 <= i < numbers.len() implies 0 <= (#[trigger] numbers[i]) < ways(
        g,
        n,
    ) by {
        lemma_number_below(g, choice(i), n);
    }
    assert(numbers.no_duplicates()) by {
        assert forall|i: int, j: int| 0 <= i < j < numbers.len() implies numbers[i]
            != numbers[j] by {
            if numbers[i] == numbers[j] {
                let a = choice(i);
                let b = choice(j);
                assert(of_members(g, a) && of_members(g, b));
                assert forall|c: ClassId| #[trigger] a.contains_key(c) <==> b.contains_key(c) by {
                    if c < n {
                        lemma_same_number(g, a, b, n, c);
                    }
                }
                assert forall|c: ClassId| #[trigger] a.contains_key(c) implies a[c] == b[c] by {
                    lemma_same_number(g, a, b, n, c);
                }
                assert(a =~= b);
                exact_search_never_repeats(
                    g,
                    roots,
                    config,
                    timeout,
                    clock,
                    bound,
                    known,
                    vars,
                    start,
                    ready,
                    first,
                    rounds,
                    i,
                    j,
                    a,
                    b,
                );
            }
        }
    }
    lemma_few_numbers(numbers, ways(g, n) as int);
}

/// An exact answer can be read.
proof fn lemma_exact_reading(
    g: EGraph,
    roots: Seq<ClassId>,
    config: Config,
    bound: Cost,
    vars: Vars,
    staged: Staged,
    solution: MilpSolution,
)
    requires
        is_reduced(g, roots, config, bound, vars),
        is_staged(vars, config, staged),
        is_exact_answer(staged.lp(), solution),
    ensures
        reads(vars@, vars.actives(), on_in(solution), choices_of(vars, solution)),
{
    let lp = staged.lp();
    let n = vars.size();
    vstd::std_specs::vec::axiom_spec_len(&vars.classes);
    let sorted = choose|sorted: Seq<ClassId>| #[trigger]
        is_reduction(g, roots, sorted, config, bound, vars);
    let (x, den) = choose|x: Seq<int>, den: int|
        {
            &&& #[trigger] is_optimal_point(lp, x, den)
            &&& forall|j: Col|
                j < lp.cols.len() && (#[trigger] lp.cols[j as int]).integral
                    ==> solution.value_of(j) * den == x[j as int] * ONE
            &&& solution.objective == saturate(objective_at(lp, x) / (den * ONE))
        };
    assert(feasible(lp, x, den));
    lemma_solution_reads(lp, vars@, vars.actives(), config, n, solution, x, den);
}

// ---------------------------------------------------------------------------
// What a search ends with
// ---------------------------------------------------------------------------

/// Where there is an extraction of finite size, such as `known`, a search with a solver that solves
/// to optimality gives a smallest extraction and calls it optimal, whatever the
/// simplifications and the start. Left out are searches of which the number of
/// solves does not fit a counter, which takes as many ways to choose a member or
/// none for each class.
pub proof fn exact_extraction_is_smallest<M: MilpModel, C: Clock>(
    g: EGraph,
    roots: Seq<ClassId>,
    config: Config,
    timeout: u32,
    threads: u32,
    warm: WarmConfig,
    clock: C,
    sel: Map<ClassId, NodeId>,
    report: SolveReport,
    known: Map<ClassId, NodeId>,
)
    requires
        g.wf(),
        costs_valid(g),
        roots.len() > 0,
        valid(g, known, roots),
        dag_size(g, known, roots) < INFINITY,
        extraction_holds::<M, C>(g, roots, config, timeout, threads, warm, clock, sel, report),
        report.num_solves < usize::MAX || (ways(g, g.classes@.len()) < usize::MAX
            && g.classes@.len() * ONE < INFINITY),
        is_exact::<M>(),
    ensures
        report.outcome is Optimal,
        is_smallest(g, roots, sel),
{
    lemma_solver_asked::<M, C>(
        g,
        roots,
        config,
        timeout,
        threads,
        warm,
        clock,
        sel,
        report,
        known,
    );
    let c = lemma_course::<M, C>(
        g,
        roots,
        config,
        timeout,
        threads,
        warm,
        clock,
        sel,
        report,
    );
    lemma_exact_course(g, roots, config, timeout, warm, clock, sel, report, c, known);
}

/// Where there is an extraction of finite size the solver is asked.
proof fn lemma_solver_asked<M: MilpModel, C: Clock>(
    g: EGraph,
    roots: Seq<ClassId>,
    config: Config,
    timeout: u32,
    threads: u32,
    warm: WarmConfig,
    clock: C,
    sel: Map<ClassId, NodeId>,
    report: SolveReport,
    known: Map<ClassId, NodeId>,
)
    requires
        g.wf(),
        costs_valid(g),
        roots.len() > 0,
        valid(g, known, roots),
        dag_size(g, known, roots) < INFINITY,
        extraction_holds::<M, C>(g, roots, config, timeout, threads, warm, clock, sel, report),
    ensures
        report.num_solves > 0,
{
    assert(has_extraction(g, roots));
    let (begun, ready) = choose|begun: M, ready: M|
        {
            &&& #[trigger] is_opened(threads, warm.milp_log, report.backend@, begun, ready)
            &&& exists|greedy: Map<ClassId, NodeId>, vars: Vars|
                is_greedy_by(g, TreeRule, greedy) && #[trigger] holds_from(
                    g,
                    roots,
                    config,
                    timeout,
                    warm,
                    clock,
                    greedy,
                    vars,
                    ready,
                    sel,
                    report,
                )
        };
    let (greedy, vars) = choose|greedy: Map<ClassId, NodeId>, vars: Vars|
        is_greedy_by(g, TreeRule, greedy) && #[trigger] holds_from(
            g,
            roots,
            config,
            timeout,
            warm,
            clock,
            greedy,
            vars,
            ready,
            sel,
            report,
        );
    let bound = dag_size(g, greedy, roots);
    let finite = if bound < INFINITY {
        greedy
    } else {
        known
    };
    let sorted = choose|sorted: Seq<ClassId>| #[trigger]
        is_reduction(g, roots, sorted, config, bound, vars);
    lemma_simplifies_less(
        start_problem(g, sorted),
        vars@,
        g.classes@.len(),
        bound as int,
        dag_size(g, finite, roots) as int,
    );
    solution_is_left(g, roots, sorted, vars@, finite);
}

proof fn lemma_exact_course<M: MilpModel, C: Clock>(
    g: EGraph,
    roots: Seq<ClassId>,
    config: Config,
    timeout: u32,
    warm: WarmConfig,
    clock: C,
    sel: Map<ClassId, NodeId>,
    report: SolveReport,
    c: Course<M>,
    known: Map<ClassId, NodeId>,
)
    requires
        g.wf(),
        costs_valid(g),
        holds_from(
            g,
            roots,
            config,
            timeout,
            warm,
            clock,
            c.greedy,
            c.vars,
            c.ready,
            sel,
            report,
        ),
        is_found_by(
            g,
            roots,
            config,
            timeout,
            warm,
            clock,
            c.greedy,
            c.vars,
            c.ready,
            sel,
            report,
            c.first,
            c.start,
            c.rounds,
        ),
        valid(g, known, roots),
        dag_size(g, known, roots) < INFINITY,
        report.num_solves < usize::MAX || (ways(g, g.classes@.len()) < usize::MAX
            && g.classes@.len() * ONE < INFINITY),
        is_exact::<M>(),
    ensures
        report.outcome is Optimal,
        is_smallest(g, roots, sel),
{
    let v = lemma_last::<M, C>(g, roots, config, timeout, warm, clock, sel, report, c);
    let bound = dag_size(g, c.greedy, roots);
    let last = c.rounds.last();
    let finite = if bound < INFINITY {
        c.greedy
    } else {
        known
    };
    if report.num_solves == usize::MAX {
        exact_search_is_bounded(
            g,
            roots,
            config,
            timeout,
            clock,
            bound,
            finite,
            c.vars,
            c.start,
            c.ready,
            c.first,
            c.rounds,
        );
    }
    let sorted = choose|sorted: Seq<ClassId>| #[trigger]
        is_reduction(g, roots, sorted, config, bound, c.vars);
    assert(is_round(
        c.vars,
        config,
        timeout,
        clock,
        c.start,
        c.ready,
        c.rounds,
        c.rounds.len() - 1,
    ));
    lemma_exact_round(
        g,
        roots,
        config,
        timeout,
        clock,
        bound,
        finite,
        c.vars,
        c.start,
        c.ready,
        c.rounds,
        c.rounds.len() - 1,
    );
    lemma_exact_verdict(
        g,
        roots,
        sorted,
        config,
        c.vars,
        last.staged.lp(),
        bound,
        finite,
        last.solution,
        v,
    );
}

/// Simplifications never change the optimum: with a solver that solves to
/// optimality, two searches give valid extractions of one size, whatever
/// simplifications and starts they are made with, and no other extraction is
/// smaller.
pub proof fn exact_configurations_agree<M: MilpModel, C: Clock>(
    g: EGraph,
    roots: Seq<ClassId>,
    timeout: u32,
    threads: u32,
    clock: C,
    config1: Config,
    warm1: WarmConfig,
    sel1: Map<ClassId, NodeId>,
    report1: SolveReport,
    config2: Config,
    warm2: WarmConfig,
    sel2: Map<ClassId, NodeId>,
    report2: SolveReport,
    known: Map<ClassId, NodeId>,
)
    requires
        g.wf(),
        costs_valid(g),
        roots.len() > 0,
        valid(g, known, roots),
        dag_size(g, known, roots) < INFINITY,
        extraction_holds::<M, C>(
            g,
            roots,
            config1,
            timeout,
            threads,
            warm1,
            clock,
            sel1,
            report1,
        ),
        extraction_holds::<M, C>(
            g,
            roots,
            config2,
            timeout,
            threads,
            warm2,
            clock,
            sel2,
            report2,
        ),
        (report1.num_solves < usize::MAX && report2.num_solves < usize::MAX) || (ways(
            g,
            g.classes@.len(),
        ) < usize::MAX && g.classes@.len() * ONE < INFINITY),
        is_exact::<M>(),
    ensures
        report1.outcome is Optimal,
        report2.outcome is Optimal,
        is_smallest(g, roots, sel1),
        is_smallest(g, roots, sel2),
        dag_size(g, sel1, roots) == dag_size(g, sel2, roots),
{
    exact_extraction_is_smallest::<M, C>(
        g,
        roots,
        config1,
        timeout,
        threads,
        warm1,
        clock,
        sel1,
        report1,
        known,
    );
    exact_extraction_is_smallest::<M, C>(
        g,
        roots,
        config2,
        timeout,
        threads,
        warm2,
        clock,
        sel2,
        report2,
        known,
    );
}

} // verus!
