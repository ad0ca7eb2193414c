//! Which cycles of the choices for a simplified problem are listed.
use crate::egraph::{ClassId, EGraph, NodeId};
use crate::extract::faster_ilp_cbc::converge::lemma_one_reading;
use crate::extract::faster_ilp_cbc::cycles::{
    closed_by_steps, cycles_below, cycles_from, cycles_of, is_used, listed_in, step, CYCLE_LIMIT,
    DOING, DONE,
};
use crate::extract::faster_ilp_cbc::encoding::{is_closed_under, reads};
use crate::extract::faster_ilp_cbc::problem::{choice_of, Problem, Vars};
use crate::extract::faster_ilp_cbc::read::on_in;
use crate::extract::faster_ilp_cbc::{judge, verdict_on, Config, Verdict};
use crate::cost::Cost;
use crate::extract::measure::lemma_below_finite;
use crate::milp::MilpSolution;
use vstd::prelude::*;

verus! {

/// One of the cycles ends at `c` and begins at `d`.
pub open spec fn is_closing(found: Seq<Seq<ClassId>>, c: ClassId, d: ClassId) -> bool {
    exists|i: int|
        0 <= i < found.len() && (#[trigger] found[i]).len() > 0 && found[i].last() == c
            && found[i][0] == d
}

/// Each class has a choice that needs the next, and the last one that needs the first.
pub open spec fn goes_round(p: Problem, sel: Map<ClassId, NodeId>, cycle: Seq<ClassId>) -> bool {
    &&& cycle.len() > 0
    &&& forall|i: int|
        0 <= i < cycle.len() - 1 ==> step(p, sel, #[trigger] cycle[i], cycle[i + 1])
    &&& step(p, sel, cycle.last(), cycle[0])
}

/// The class after the `i`th of a cycle.
pub open spec fn after(cycle: Seq<ClassId>, i: int) -> ClassId {
    if i == cycle.len() - 1 {
        cycle[0]
    } else {
        cycle[i + 1]
    }
}

/// Every finished class is above what it needs, but for the edges that close a cycle.
spec fn is_ordered(
    p: Problem,
    sel: Map<ClassId, NodeId>,
    met: Map<ClassId, usize>,
    found: Seq<Seq<ClassId>>,
    rank: Map<ClassId, nat>,
    clock: nat,
) -> bool {
    &&& forall|x: ClassId| #[trigger] met.contains_key(x) && met[x] == DONE ==> rank[x] < clock
    &&& forall|x: ClassId, d: ClassId|
        met.contains_key(x) && met[x] == DONE && #[trigger] step(p, sel, x, d) ==> met.contains_key(
            d,
        ) && (is_closing(found, x, d) || (met[d] == DONE && rank[d] < rank[x]))
}

/// The stack holds what is being walked.
spec fn is_stacked(met: Map<ClassId, usize>, stack: Seq<ClassId>) -> bool {
    &&& forall|x: ClassId| #[trigger] met.contains_key(x) ==> met[x] == DOING || met[x] == DONE
    &&& forall|x: ClassId| #[trigger]
        stack.contains(x) <==> met.contains_key(x) && met[x] == DOING
}

/// What is known stays known, and what is new is finished.
spec fn grows(
    met: Map<ClassId, usize>,
    found: Seq<Seq<ClassId>>,
    more: Map<ClassId, usize>,
    all: Seq<Seq<ClassId>>,
) -> bool {
    &&& forall|x: ClassId| #[trigger] met.contains_key(x) ==> more.contains_key(x) && more[x]
        == met[x]
    &&& forall|x: ClassId| #[trigger]
        more.contains_key(x) && !met.contains_key(x) ==> more[x] == DONE
    &&& found.len() <= all.len()
    &&& forall|i: int| 0 <= i < found.len() ==> #[trigger] all[i] == found[i]
}

/// The ranks of what was finished stay.
spec fn keeps_ranks(
    met: Map<ClassId, usize>,
    rank: Map<ClassId, nat>,
    later: Map<ClassId, nat>,
) -> bool {
    forall|x: ClassId| #[trigger] met.contains_key(x) && met[x] == DONE ==> later[x] == rank[x]
}

/// The choices lead to choices, and are of the first `n` classes.
spec fn leads_on(p: Problem, sel: Map<ClassId, NodeId>, n: nat) -> bool {
    &&& forall|x: ClassId| #[trigger] sel.contains_key(x) ==> x < n
    &&& forall|x: ClassId, d: ClassId| #[trigger] step(p, sel, x, d) ==> sel.contains_key(d)
}

spec fn unmet(n: nat, met: Map<ClassId, usize>) -> Set<ClassId> {
    Set::new(|x: usize| x < n).difference(met.dom())
}

proof fn lemma_closing_grows(
    found: Seq<Seq<ClassId>>,
    all: Seq<Seq<ClassId>>,
    c: ClassId,
    d: ClassId,
)
    requires
        is_closing(found, c, d),
        found.len() <= all.len(),
        forall|i: int| 0 <= i < found.len() ==> #[trigger] all[i] == found[i],
    ensures
        is_closing(all, c, d),
{
    let i = choose|i: int|
        0 <= i < found.len() && (#[trigger] found[i]).len() > 0 && found[i].last() == c
            && found[i][0] == d;
    assert(all[i] == found[i]);
}

proof fn lemma_from(
    p: Problem,
    sel: Map<ClassId, NodeId>,
    n: nat,
    c: ClassId,
    met: Map<ClassId, usize>,
    found: Seq<Seq<ClassId>>,
    stack: Seq<ClassId>,
    depth: nat,
    rank: Map<ClassId, nat>,
    clock: nat,
) -> (r: (Map<ClassId, nat>, nat))
    requires
        leads_on(p, sel, n),
        sel.contains_key(c),
        is_stacked(met, stack),
        found.len() <= CYCLE_LIMIT ==> is_ordered(p, sel, met, found, rank, clock),
        unmet(n, met).len() < depth,
    ensures
        ({
            let out = cycles_from(p, sel, c, met, found, stack, depth);
            &&& is_stacked(out.0, stack)
            &&& grows(met, found, out.0, out.1)
            &&& r.1 >= clock
            &&& out.1.len() <= CYCLE_LIMIT ==> {
                &&& is_ordered(p, sel, out.0, out.1, r.0, r.1)
                &&& keeps_ranks(met, rank, r.0)
                &&& out.0.contains_key(c)
                &&& out.0[c] == DOING && stack.len() > 0 ==> is_closing(out.1, stack.last(), c)
            }
        }),
    decreases depth, 0nat,
{
    let out = cycles_from(p, sel, c, met, found, stack, depth);
    lemma_below_finite(n);
    if met.contains_key(c) {
        if met[c] == DOING {
            assert(stack.contains(c));
            let k = stack.index_of(c);
            let cycle = stack.skip(k);
            assert(0 <= k < stack.len() && stack[k] == c);
            assert(cycle[0] == c && cycle.last() == stack.last());
            assert(out.1[found.len() as int] == cycle);
            if out.1.len() <= CYCLE_LIMIT {
                assert forall|x: ClassId, d: ClassId|
                    met.contains_key(x) && met[x] == DONE && #[trigger] step(
                        p,
                        sel,
                        x,
                        d,
                    ) implies met.contains_key(d) && (is_closing(out.1, x, d) || (met[d] == DONE
                    && rank[d] < rank[x])) by {
                    if is_closing(found, x, d) {
                        lemma_closing_grows(found, out.1, x, d);
                    }
                }
            }
        }
        (rank, clock)
    } else if found.len() > CYCLE_LIMIT || depth == 0 {
        assert(unmet(n, met).contains(c));
        (rank, clock)
    } else {
        let met1 = met.insert(c, DOING);
        let stack1 = stack.push(c);
        let kids = choice_of(p, c, sel[c]).kids;
        assert(unmet(n, met).contains(c));
        assert(unmet(n, met1) =~= unmet(n, met).remove(c));
        assert forall|x: ClassId| #[trigger] stack1.contains(x) <==> met1.contains_key(x) && met1[x]
            == DOING by {
            if stack.contains(x) {
                let j = choose|j: int| 0 <= j < stack.len() && stack[j] == x;
                assert(stack1[j] == x);
            }
            if x == c {
                assert(stack1[stack.len() as int] == x);
            }
            if stack1.contains(x) {
                let j = choose|j: int| 0 <= j < stack1.len() && stack1[j] == x;
                if j < stack.len() {
                    assert(stack[j] == x);
                }
            }
        }
        assert(is_ordered(p, sel, met1, found, rank, clock)) by {
            assert forall|x: ClassId, d: ClassId|
                met1.contains_key(x) && met1[x] == DONE && #[trigger] step(p, sel, x, d) implies
                met1.contains_key(d) && (is_closing(found, x, d) || (met1[d] == DONE && rank[d]
                < rank[x])) by {
                assert(met.contains_key(x) && met[x] == DONE);
                assert(met.contains_key(d));
            }
        }
        let (later, time) = lemma_below(
            p,
            sel,
            n,
            c,
            kids,
            kids.len(),
            met1,
            found,
            stack1,
            (depth - 1) as nat,
            rank,
            clock,
        );
        let below = cycles_below(
            p,
            sel,
            kids,
            kids.len(),
            met1,
            found,
            stack1,
            (depth - 1) as nat,
        );
        let rank2 = later.insert(c, time);
        assert(out == (below.0.insert(c, DONE), below.1));
        assert(below.0.contains_key(c) && below.0[c] == DOING);
        assert(is_stacked(out.0, stack)) by {
            assert forall|x: ClassId| #[trigger] stack.contains(x) <==> out.0.contains_key(x)
                && out.0[x] == DOING by {
                if stack.contains(x) {
                    assert(met.contains_key(x));
                    assert(stack1.contains(x));
                }
                if out.0.contains_key(x) && out.0[x] == DOING {
                    assert(below.0.contains_key(x));
                    assert(stack1.contains(x));
                    assert(met1.contains_key(x));
                }
            }
        }
        assert(grows(met, found, out.0, out.1)) by {
            assert forall|x: ClassId| #[trigger] met.contains_key(x) implies out.0.contains_key(x)
                && out.0[x] == met[x] by {
                assert(met1.contains_key(x));
            }
            assert forall|x: ClassId| #[trigger]
                out.0.contains_key(x) && !met.contains_key(x) implies out.0[x] == DONE by {
                if x != c {
                    assert(below.0.contains_key(x) && !met1.contains_key(x));
                }
            }
        }
        if out.1.len() <= CYCLE_LIMIT {
            assert forall|x: ClassId, d: ClassId|
                out.0.contains_key(x) && out.0[x] == DONE && #[trigger] step(p, sel, x, d) implies
                out.0.contains_key(d) && (is_closing(out.1, x, d) || (out.0[d] == DONE && rank2[d]
                < rank2[x])) by {
                if x == c {
                    assert(kids.contains(d));
                    let j = choose|j: int| 0 <= j < kids.len() && kids[j] == d;
                    assert(below.0.contains_key(kids[j]));
                    if !is_closing(below.1, c, d) {
                        assert(below.0[d] == DONE);
                        assert(later[d] < time);
                    }
                } else {
                    assert(below.0.contains_key(x) && below.0[x] == DONE);
                    assert(below.0.contains_key(d));
                }
            }
            assert forall|x: ClassId| #[trigger]
                out.0.contains_key(x) && out.0[x] == DONE implies rank2[x] < time + 1 by {
                if x != c {
                    assert(below.0.contains_key(x) && below.0[x] == DONE);
                }
            }
            assert forall|x: ClassId| #[trigger]
                met.contains_key(x) && met[x] == DONE implies rank2[x] == rank[x] by {
                assert(met1.contains_key(x) && met1[x] == DONE);
            }
        }
        (rank2, time + 1)
    }
}

proof fn lemma_below(
    p: Problem,
    sel: Map<ClassId, NodeId>,
    n: nat,
    c: ClassId,
    kids: Seq<ClassId>,
    k: nat,
    met: Map<ClassId, usize>,
    found: Seq<Seq<ClassId>>,
    stack: Seq<ClassId>,
    depth: nat,
    rank: Map<ClassId, nat>,
    clock: nat,
) -> (r: (Map<ClassId, nat>, nat))
    requires
        leads_on(p, sel, n),
        sel.contains_key(c),
        kids == choice_of(p, c, sel[c]).kids,
        k <= kids.len(),
        stack.len() > 0,
        stack.last() == c,
        is_stacked(met, stack),
        found.len() <= CYCLE_LIMIT ==> is_ordered(p, sel, met, found, rank, clock),
        unmet(n, met).len() < depth,
    ensures
        ({
            let out = cycles_below(p, sel, kids, k, met, found, stack, depth);
            &&& is_stacked(out.0, stack)
            &&& grows(met, found, out.0, out.1)
            &&& r.1 >= clock
            &&& out.1.len() <= CYCLE_LIMIT ==> {
                &&& is_ordered(p, sel, out.0, out.1, r.0, r.1)
                &&& keeps_ranks(met, rank, r.0)
                &&& forall|j: int|
                    0 <= j < k ==> out.0.contains_key(#[trigger] kids[j]) && (is_closing(
                        out.1,
                        c,
                        kids[j],
                    ) || out.0[kids[j]] == DONE)
            }
        }),
    decreases depth, k + 1,
{
    if k == 0 {
        (rank, clock)
    } else {
        let (mid, time) = lemma_below(
            p,
            sel,
            n,
            c,
            kids,
            (k - 1) as nat,
            met,
            found,
            stack,
            depth,
            rank,
            clock,
        );
        let before = cycles_below(p, sel, kids, (k - 1) as nat, met, found, stack, depth);
        let d = kids[k - 1];
        assert(kids.contains(d));
        assert(step(p, sel, c, d));
        lemma_below_finite(n);
        assert(unmet(n, before.0).subset_of(unmet(n, met)));
        vstd::set_lib::lemma_len_subset(unmet(n, before.0), unmet(n, met));
        let (later, end) = lemma_from(
            p,
            sel,
            n,
            d,
            before.0,
            before.1,
            stack,
            depth,
            mid,
            time,
        );
        let out = cycles_from(p, sel, d, before.0, before.1, stack, depth);
        assert(out == cycles_below(p, sel, kids, k, met, found, stack, depth));
        assert forall|i: int| 0 <= i < found.len() implies #[trigger] out.1[i] == found[i] by {
            assert(before.1[i] == found[i]);
        }
        assert forall|x: ClassId| #[trigger] out.0.contains_key(x) && !met.contains_key(x) implies
            out.0[x] == DONE by {
            if before.0.contains_key(x) {
                assert(before.0[x] == DONE);
            }
        }
        if out.1.len() <= CYCLE_LIMIT {
            assert forall|j: int| 0 <= j < k implies out.0.contains_key(#[trigger] kids[j]) && (
            is_closing(out.1, c, kids[j]) || out.0[kids[j]] == DONE) by {
                if j < k - 1 {
                    assert(before.0.contains_key(kids[j]));
                    if is_closing(before.1, c, kids[j]) {
                        lemma_closing_grows(before.1, out.1, c, kids[j]);
                    }
                }
            }
            assert forall|x: ClassId| #[trigger]
                met.contains_key(x) && met[x] == DONE implies later[x] == rank[x] by {
                assert(before.0.contains_key(x) && before.0[x] == DONE);
            }
        }
        (later, end)
    }
}

proof fn lemma_of(p: Problem, sel: Map<ClassId, NodeId>, n: nat, k: nat) -> (r: (
    Map<ClassId, nat>,
    nat,
))
    requires
        is_closed_under(p, sel),
        leads_on(p, sel, n),
        k <= p.roots.len(),
    ensures
        ({
            let out = cycles_of(p, sel, n, k);
            &&& is_stacked(out.0, Seq::empty())
            &&& out.1.len() <= CYCLE_LIMIT ==> is_ordered(p, sel, out.0, out.1, r.0, r.1)
                && forall|j: int| 0 <= j < k ==> out.0.contains_key(#[trigger] p.roots[j])
        }),
    decreases k,
{
    if k == 0 {
        (Map::empty(), 0)
    } else {
        let (rank, clock) = lemma_of(p, sel, n, (k - 1) as nat);
        let before = cycles_of(p, sel, n, (k - 1) as nat);
        let all = Set::new(|x: usize| x < n);
        lemma_below_finite(n);
        assert(unmet(n, before.0).subset_of(all));
        vstd::set_lib::lemma_len_subset(unmet(n, before.0), all);
        assert(p.roots.contains(p.roots[k - 1]));
        let r = lemma_from(
            p,
            sel,
            n,
            p.roots[k - 1],
            before.0,
            before.1,
            Seq::empty(),
            n + 1,
            rank,
            clock,
        );
        let out = cycles_of(p, sel, n, k);
        if out.1.len() <= CYCLE_LIMIT {
            assert forall|j: int| 0 <= j < k implies out.0.contains_key(#[trigger] p.roots[j]) by {
                if j < k - 1 {
                    assert(before.0.contains_key(p.roots[j]));
                }
            }
        }
        r
    }
}

proof fn lemma_falls(
    p: Problem,
    sel: Map<ClassId, NodeId>,
    met: Map<ClassId, usize>,
    found: Seq<Seq<ClassId>>,
    rank: Map<ClassId, nat>,
    clock: nat,
    cycle: Seq<ClassId>,
    i: int,
)
    requires
        is_ordered(p, sel, met, found, rank, clock),
        goes_round(p, sel, cycle),
        met.contains_key(cycle[0]),
        met[cycle[0]] == DONE,
        forall|k: int|
            0 <= k < cycle.len() ==> !is_closing(found, #[trigger] cycle[k], after(cycle, k)),
        0 <= i < cycle.len(),
    ensures
        met.contains_key(cycle[i]),
        met[cycle[i]] == DONE,
        rank[cycle[i]] <= rank[cycle[0]],
    decreases i,
{
    if i > 0 {
        lemma_falls(p, sel, met, found, rank, clock, cycle, i - 1);
        assert(step(p, sel, cycle[i - 1], cycle[i - 1 + 1]));
        assert(!is_closing(found, cycle[i - 1], after(cycle, i - 1)));
    }
}

/// No cycle of the choices that is below the roots is missed, unless more are listed than
/// the limit: one of the listed cycles is closed by an edge of it.
pub proof fn every_cycle_of_choices_is_closed(
    p: Problem,
    sel: Map<ClassId, NodeId>,
    n: nat,
    cycle: Seq<ClassId>,
) -> (k: int)
    requires
        is_closed_under(p, sel),
        forall|x: ClassId| #[trigger] sel.contains_key(x) ==> x < n,
        goes_round(p, sel, cycle),
        is_used(p, sel, cycle[0]),
        cycles_of(p, sel, n, p.roots.len()).1.len() <= CYCLE_LIMIT,
    ensures
        0 <= k < cycle.len(),
        is_closing(cycles_of(p, sel, n, p.roots.len()).1, cycle[k], after(cycle, k)),
{
    let out = cycles_of(p, sel, n, p.roots.len());
    let (rank, clock) = lemma_of(p, sel, n, p.roots.len());
    let done = out.0.dom();
    assert forall|x: ClassId| #[trigger] out.0.contains_key(x) implies out.0[x] == DONE by {
        if out.0[x] == DOING {
            assert(Seq::<ClassId>::empty().contains(x));
        }
    }
    assert(closed_by_steps(p, sel, done)) by {
        assert forall|r: ClassId| #[trigger] p.roots.contains(r) implies done.contains(r) by {
            let j = choose|j: int| 0 <= j < p.roots.len() && p.roots[j] == r;
            assert(out.0.contains_key(p.roots[j]));
        }
        assert forall|c: ClassId, d: ClassId|
            done.contains(c) && #[trigger] step(p, sel, c, d) implies done.contains(d) by {
            assert(out.0.contains_key(c));
        }
    }
    assert(done.contains(cycle[0]));
    if forall|k: int|
        0 <= k < cycle.len() ==> !is_closing(out.1, #[trigger] cycle[k], after(cycle, k)) {
        let last = cycle.len() - 1;
        lemma_falls(p, sel, out.0, out.1, rank, clock, cycle, last);
        assert(!is_closing(out.1, cycle[last], after(cycle, last)));
        assert(step(p, sel, cycle[last], cycle[0]));
        assert(false);
    }
    choose|k: int|
        0 <= k < cycle.len() && is_closing(out.1, #[trigger] cycle[k], after(cycle, k))
}

/// The cycles to be refined leave out none of the choices: each that is
/// below the roots has an edge that closes a listed one, unless more are listed than the
/// limit of a thousand.
pub proof fn every_cycle_is_refined(
    g: EGraph,
    roots: &[ClassId],
    vars: Vars,
    config: Config,
    bound: Cost,
    solution: MilpSolution,
    cycles: Vec<Vec<ClassId>>,
    sel: Map<ClassId, NodeId>,
    cycle: Seq<ClassId>,
) -> (k: int)
    requires
        vars.wf(),
        vars.size() == g.classes@.len(),
        call_ensures(
            judge,
            (&g, roots, &vars, &config, bound, &solution),
            Verdict::Refine(cycles),
        ),
        reads(vars@, vars.actives(), on_in(solution), sel),
        goes_round(vars@, sel, cycle),
        is_used(vars@, sel, cycle[0]),
        cycles@.len() <= 1000,
    ensures
        0 <= k < cycle.len(),
        exists|i: int|
            0 <= i < cycles@.len() && (#[trigger] cycles@[i])@.len() > 0 && cycles@[i]@.last()
                == cycle[k] && cycles@[i]@[0] == after(cycle, k),
{
    let read = choose|read: Map<ClassId, NodeId>| #[trigger]
        reads(vars@, vars.actives(), on_in(solution), read) && verdict_on(
            g,
            roots@,
            vars@,
            bound,
            solution,
            read,
            Verdict::Refine(cycles),
        );
    lemma_one_reading(vars@, vars.size(), vars.actives(), on_in(solution), read, sel);
    let found = cycles_of(vars@, sel, g.classes@.len(), vars@.roots.len()).1;
    assert(listed_in(cycles@) == found);
    assert forall|x: ClassId| #[trigger] sel.contains_key(x) implies x < vars.size() by {
        assert(vars@.classes.contains_key(x));
    }
    let k = every_cycle_of_choices_is_closed(vars@, sel, vars.size(), cycle);
    let i = choose|i: int|
        0 <= i < found.len() && (#[trigger] found[i]).len() > 0 && found[i].last() == cycle[k]
            && found[i][0] == after(cycle, k);
    assert(cycles@[i]@ == found[i]);
    k
}

} // verus!
