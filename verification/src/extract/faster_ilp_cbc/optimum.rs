//! Why a best point of the model is a smallest extraction.
use crate::cost::{Cost, INFINITY, ONE};
use crate::egraph::{ClassId, EGraph, NodeId};
use crate::extract::faster_ilp_cbc::block::{admits, has_point, is_point_of};
use crate::extract::faster_ilp_cbc::cycles::{holds_part, is_part};
use crate::extract::faster_ilp_cbc::encoding::{
    encodes, lit, objective_covers_price, only_on, reads,
};
use crate::extract::faster_ilp_cbc::problem::{
    class_price, lemma_offered, lemma_price_below, lemma_simplifies_less, offers, place, price, simplifies, solves, sound,
    sound_class, Problem, Vars,
};
use crate::extract::faster_ilp_cbc::read::on_in;
use crate::extract::faster_ilp_cbc::simplify::{completed, lemma_least_price, solution_is_valid};
use crate::extract::faster_ilp_cbc::start::{costs_valid, sorts, start_problem};
use crate::extract::faster_ilp_cbc::{
    extraction_holds, follows, holds_from, is_found_by, is_opened, is_reduced, is_reduction,
    is_round, is_staged, is_verdict, verdict_on, Config, Round, Verdict, WarmConfig,
};
use crate::extract::greedy::size::TreeRule;
use crate::extract::ilp::objective::is_greedy_by;
use crate::extract::ilp::optimality::{is_optimal_point, objective_at};
use crate::extract::ilp::outcome::{is_honest, is_optimum};
use crate::extract::ilp::report::{FallbackReason, SolveOutcome, SolveReport};
use crate::extract::ilp::solve::Clock;
use crate::extract::selection::{dag_size, valid};
use crate::milp::point::feasible;
use crate::milp::stage::{Col, Lp, Staged};
use crate::milp::steps::{lemma_may_solve, may_solve};
use crate::milp::{MilpModel, MilpSolution, MilpStatus};
use vstd::prelude::*;

verus! {

/// Part of what is chosen costs no more than all of it.
pub proof fn lemma_part_price(
    q: Problem,
    n: nat,
    part: Map<ClassId, NodeId>,
    sel: Map<ClassId, NodeId>,
)
    requires
        sound(q, n),
        is_part(part, sel),
        forall|c: ClassId| #[trigger]
            sel.contains_key(c) ==> q.classes.contains_key(c) && offers(q.classes[c], sel[c]),
    ensures
        price(q, part, n) <= price(q, sel, n),
{
    assert forall|c: ClassId| #[trigger] class_price(q, part, c) <= class_price(q, sel, c) by {
        if sel.contains_key(c) {
            lemma_offered(q.classes[c], sel[c]);
            assert(sound_class(q, q.classes[c]));
            assert(crate::cost::is_weight(
                q.classes[c][place(q.classes[c], sel[c])].cost,
            ));
        }
        if part.contains_key(c) {
            assert(sel.contains_key(c));
        }
    }
    lemma_price_below(q, part, q, sel, n);
}

/// Solving the model to optimality is solving the e-graph: if the choices at
/// an optimal point of a model that admits every solution have no cycle below
/// the roots, then with what has been decided they are a valid extraction that
/// no other is smaller than.
pub proof fn optimal_choices_are_smallest(
    g: EGraph,
    roots: Seq<ClassId>,
    sorted: Seq<ClassId>,
    q: Problem,
    actives: Seq<Col>,
    config: Config,
    lp: Lp,
    x: Seq<int>,
    den: int,
    sel: Map<ClassId, NodeId>,
    known: Map<ClassId, NodeId>,
    other: Map<ClassId, NodeId>,
)
    requires
        g.wf(),
        costs_valid(g),
        sorts(roots, sorted),
        valid(g, known, roots),
        dag_size(g, known, roots) < INFINITY,
        simplifies(
            start_problem(g, sorted),
            q,
            g.classes@.len(),
            dag_size(g, known, roots) as int,
        ),
        sound(q, g.classes@.len()),
        encodes(lp, q, actives, config, g.classes@.len()),
        admits(lp, q, actives, g.classes@.len()),
        is_optimal_point(lp, x, den),
        reads(q, actives, lit(x), sel),
        holds_part(q, sel),
        valid(g, other, roots),
    ensures
        valid(g, completed(q, sel), roots),
        dag_size(g, completed(q, sel), roots) <= dag_size(g, other, roots),
{
    let n = g.classes@.len();
    vstd::std_specs::vec::axiom_spec_len(&g.classes);
    let part = choose|part: Map<ClassId, NodeId>| is_part(part, sel) && #[trigger] solves(q, part);
    assert forall|c: ClassId| #[trigger] sel.contains_key(c) implies q.classes.contains_key(c)
        && offers(q.classes[c], sel[c]) by {}
    solution_is_valid(
        g,
        roots,
        sorted,
        q,
        dag_size(g, known, roots) as int,
        part,
        sel,
    );
    objective_covers_price(lp, q, actives, config, n, x, den, sel);
    lemma_part_price(q, n, part, sel);
    let least = price(q, part, n);
    let whole = price(q, sel, n);
    assert forall|s: Map<ClassId, NodeId>| #[trigger] solves(q, s) implies least <= price(
        q,
        s,
        n,
    ) by {
        assert(has_point(lp, q, actives, n, s));
        let y = choose|y: Seq<int>| is_point_of(lp, q, actives, n, s, y);
        assert(feasible(lp, y, 1));
        let ours = objective_at(lp, x);
        let theirs = price(q, s, n);
        assert(objective_at(lp, x) * 1 <= objective_at(lp, y) * den);
        assert(least <= theirs) by (nonlinear_arith)
            requires
                least <= whole,
                whole * 1_000_000 * den <= ours,
                ours * 1 <= theirs * 1_000_000 * den,
                den > 0,
        ;
    }
    lemma_least_price(g, roots, sorted, q, known, least, other);
}

/// `sel` is a valid extraction that no other is smaller than.
pub open spec fn is_smallest(g: EGraph, roots: Seq<ClassId>, sel: Map<ClassId, NodeId>) -> bool {
    &&& valid(g, sel, roots)
    &&& forall|other: Map<ClassId, NodeId>| #[trigger]
        valid(g, other, roots) ==> dag_size(g, sel, roots) <= dag_size(g, other, roots)
}

/// Choices read from the columns of a solution are read from its point.
pub proof fn lemma_same_reading(
    lp: Lp,
    q: Problem,
    actives: Seq<Col>,
    config: Config,
    n: nat,
    solution: MilpSolution,
    x: Seq<int>,
    den: int,
    sel: Map<ClassId, NodeId>,
)
    requires
        encodes(lp, q, actives, config, n),
        den > 0,
        forall|j: Col|
            j < lp.cols.len() && (#[trigger] lp.cols[j as int]).integral ==> solution.value_of(j)
                * den == x[j as int] * ONE,
        reads(q, actives, on_in(solution), sel),
    ensures
        reads(q, actives, lit(x), sel),
{
    assert forall|j: Col|
        j < lp.cols.len() && (#[trigger] lp.cols[j as int]).integral implies on_in(solution)(j)
        == lit(x)(j) by {
        let v = solution.value_of(j) as int;
        let p = x[j as int];
        assert((v > 0) == (p > 0)) by (nonlinear_arith)
            requires
                v * den == p * 1_000_000,
                den > 0,
        ;
    }
    assert forall|c: ClassId| #[trigger] q.classes.contains_key(c) implies on_in(solution)(
        actives[c as int],
    ) == lit(x)(actives[c as int]) by {
        assert(lp.cols[actives[c as int] as int].integral);
    }
    assert forall|c: ClassId, i: int|
        q.classes.contains_key(c) && 0 <= i < q.classes[c].len() implies on_in(solution)(
        (#[trigger] q.classes[c][i]).variable,
    ) == lit(x)(q.classes[c][i].variable) by {
        assert(lp.cols[q.classes[c][i].variable as int].integral);
    }
    assert forall|c: ClassId| #[trigger] sel.contains_key(c) implies offers(q.classes[c], sel[c])
        && (q.classes[c].len() == 1 || only_on(q.classes[c], lit(x), sel[c])) by {
        if q.classes[c].len() != 1 {
            assert(only_on(q.classes[c], on_in(solution), sel[c]));
        }
    }
}

/// How an extraction for which the solver was asked came about.
pub struct Course<M> {
    pub greedy: Map<ClassId, NodeId>,
    pub vars: Vars,
    pub ready: M,
    pub first: Staged,
    pub start: Cost,
    pub rounds: Seq<Round<M>>,
}

/// If the solver was asked, there was a search.
pub proof fn lemma_course<M: MilpModel, C: Clock>(
    g: EGraph,
    roots: Seq<ClassId>,
    config: Config,
    timeout: u32,
    threads: u32,
    warm: WarmConfig,
    clock: C,
    sel: Map<ClassId, NodeId>,
    report: SolveReport,
) -> (c: Course<M>)
    requires
        extraction_holds::<M, C>(g, roots, config, timeout, threads, warm, clock, sel, report),
        report.num_solves > 0,
    ensures
        is_greedy_by(g, TreeRule, c.greedy),
        holds_from(
            g,
            roots,
            config,
            timeout,
            warm,
            clock,
            c.greedy,
            c.vars,
            c.ready,
            sel,
            report,
        ),
        is_found_by(
            g,
            roots,
            config,
            timeout,
            warm,
            clock,
            c.greedy,
            c.vars,
            c.ready,
            sel,
            report,
            c.first,
            c.start,
            c.rounds,
        ),
{
    let (begun, ready) = choose|begun: M, ready: M|
        {
            &&& #[trigger] is_opened(threads, warm.milp_log, report.backend@, begun, ready)
            &&& exists|greedy: Map<ClassId, NodeId>, vars: Vars|
                is_greedy_by(g, TreeRule, greedy) && #[trigger] holds_from(
                    g,
                    roots,
                    config,
                    timeout,
                    warm,
                    clock,
                    greedy,
                    vars,
                    ready,
                    sel,
                    report,
                )
        };
    let (greedy, vars) = choose|greedy: Map<ClassId, NodeId>, vars: Vars|
        is_greedy_by(g, TreeRule, greedy) && #[trigger] holds_from(
            g,
            roots,
            config,
            timeout,
            warm,
            clock,
            greedy,
            vars,
            ready,
            sel,
            report,
        );
    let (first, start, rounds) = choose|first: Staged, start: Cost, rounds: Seq<Round<M>>|
     #[trigger]
        is_found_by(
            g,
            roots,
            config,
            timeout,
            warm,
            clock,
            greedy,
            vars,
            ready,
            sel,
            report,
            first,
            start,
            rounds,
        );
    Course { greedy, vars, ready, first, start, rounds }
}

/// The last solution of a search is one that a solver may return for a model of the
/// problem, and what is returned follows from the verdict on it.
pub proof fn lemma_last<M: MilpModel, C: Clock>(
    g: EGraph,
    roots: Seq<ClassId>,
    config: Config,
    timeout: u32,
    warm: WarmConfig,
    clock: C,
    sel: Map<ClassId, NodeId>,
    report: SolveReport,
    c: Course<M>,
) -> (v: Verdict)
    requires
        is_found_by(
            g,
            roots,
            config,
            timeout,
            warm,
            clock,
            c.greedy,
            c.vars,
            c.ready,
            sel,
            report,
            c.first,
            c.start,
            c.rounds,
        ),
    ensures
        is_staged(c.vars, config, c.rounds.last().staged),
        may_solve::<M>(c.rounds.last().staged, c.rounds.last().solution),
        is_verdict(
            g,
            roots,
            c.vars,
            config,
            dag_size(g, c.greedy, roots),
            c.rounds.last().solution,
            v,
        ),
        report.num_solves == c.rounds.len(),
        v is Refine ==> c.rounds.len() == usize::MAX && report.outcome == (
        SolveOutcome::Fallback { reason: FallbackReason::Cyclic }),
        !(v is Refine) ==> follows(v, c.greedy, sel, report.outcome),
{
    let last = c.rounds.last();
    assert(is_round(
        c.vars,
        config,
        timeout,
        clock,
        c.start,
        c.ready,
        c.rounds,
        c.rounds.len() - 1,
    ));
    lemma_may_solve(last.limited, last.staged, last.solution, last.done);
    choose|v: Verdict| #[trigger]
        is_verdict(
            g,
            roots,
            c.vars,
            config,
            dag_size(g, c.greedy, roots),
            last.solution,
            v,
        ) && if v is Refine {
            &&& c.rounds.len() == usize::MAX
            &&& follows(
                Verdict::Fallback(FallbackReason::Cyclic),
                c.greedy,
                sel,
                report.outcome,
            )
        } else {
            follows(v, c.greedy, sel, report.outcome)
        }
}

/// What an optimal solution is taken for is a smallest extraction.
proof fn lemma_optimal_verdict(
    g: EGraph,
    roots: Seq<ClassId>,
    config: Config,
    vars: Vars,
    bound: Cost,
    known: Map<ClassId, NodeId>,
    staged: Staged,
    solution: MilpSolution,
    v: Verdict,
)
    requires
        g.wf(),
        costs_valid(g),
        valid(g, known, roots),
        dag_size(g, known, roots) < INFINITY,
        dag_size(g, known, roots) <= bound,
        is_reduced(g, roots, config, bound, vars),
        is_staged(vars, config, staged),
        is_optimum(staged.lp(), solution),
        is_verdict(g, roots, vars, config, bound, solution, v),
        v is Found,
        v->Found_optimal,
    ensures
        is_smallest(g, roots, v->Found_extraction@),
{
    let q = vars@;
    let actives = vars.actives();
    let sorted = choose|sorted: Seq<ClassId>| #[trigger]
        is_reduction(g, roots, sorted, config, bound, vars);
    lemma_simplifies_less(
        start_problem(g, sorted),
        q,
        g.classes@.len(),
        bound as int,
        dag_size(g, known, roots) as int,
    );
    let read = choose|read: Map<ClassId, NodeId>| #[trigger]
        reads(q, actives, on_in(solution), read) && verdict_on(
            g,
            roots,
            q,
            bound,
            solution,
            read,
            v,
        );
    let sel = v->Found_extraction@;
    assert(sel == completed(q, read));
    let lp = staged.lp();
    let (x, den) = choose|x: Seq<int>, den: int| #[trigger]
        is_optimal_point(lp, x, den) && forall|j: Col|
            j < lp.cols.len() && (#[trigger] lp.cols[j as int]).integral ==> solution.value_of(j)
                * den == x[j as int] * ONE;
    assert(feasible(lp, x, den));
    lemma_same_reading(lp, q, actives, config, vars.size(), solution, x, den, read);
    assert forall|other: Map<ClassId, NodeId>| #[trigger] valid(g, other, roots) implies dag_size(
        g,
        sel,
        roots,
    ) <= dag_size(g, other, roots) by {
        optimal_choices_are_smallest(
            g,
            roots,
            sorted,
            q,
            actives,
            config,
            lp,
            x,
            den,
            read,
            known,
            other,
        );
    }
    optimal_choices_are_smallest(
        g,
        roots,
        sorted,
        q,
        actives,
        config,
        lp,
        x,
        den,
        read,
        known,
        known,
    );
}

/// With a solver that is right whenever it calls a solution optimal, an
/// extraction that is called optimal is a smallest one, whatever the
/// simplifications and the start, if there is one of finite size, such as `known`.
pub proof fn optimal_extraction_is_smallest<M: MilpModel, C: Clock>(
    g: EGraph,
    roots: Seq<ClassId>,
    config: Config,
    timeout: u32,
    threads: u32,
    warm: WarmConfig,
    clock: C,
    sel: Map<ClassId, NodeId>,
    report: SolveReport,
    known: Map<ClassId, NodeId>,
)
    requires
        g.wf(),
        costs_valid(g),
        valid(g, known, roots),
        dag_size(g, known, roots) < INFINITY,
        extraction_holds::<M, C>(g, roots, config, timeout, threads, warm, clock, sel, report),
        report.outcome is Optimal,
        is_honest::<M>(),
    ensures
        is_smallest(g, roots, sel),
{
    let c = lemma_course::<M, C>(
        g,
        roots,
        config,
        timeout,
        threads,
        warm,
        clock,
        sel,
        report,
    );
    let v = lemma_last::<M, C>(g, roots, config, timeout, warm, clock, sel, report, c);
    let last = c.rounds.last();
    assert(last.solution.status_of() == MilpStatus::Optimal);
    assert(is_optimum(last.staged.lp(), last.solution));
    let bound = dag_size(g, c.greedy, roots);
    let finite = if bound < INFINITY {
        c.greedy
    } else {
        known
    };
    lemma_optimal_verdict(
        g,
        roots,
        config,
        c.vars,
        bound,
        finite,
        last.staged,
        last.solution,
        v,
    );
}

} // verus!
