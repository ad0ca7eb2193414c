//! A seed is a feasible point of the whole model.
use crate::cost::{is_weight, minus, Cost, INFINITY, MINUS_ONE, NEG_INFINITY, ONE};
use crate::egraph::{ClassId, EGraph, NodeId};
use crate::extract::ilp::model::{
    after_row, big_m_of, cap_of, choice_coeffs, choice_row, class_row, col_of, cycle_row,
    deepest_to, delays_to, depth_row, is_member, is_model, leaf_row, lemma_member, level_row,
    level_step, loop_row, member, members, model_row, needs_row, order_row, root_row, roots_row,
    selection_row, switch_row, timing_row, total_delay, IlpVars, Role,
};
use crate::extract::ilp::objective::IlpObjective;
use crate::extract::ilp::soundness::{
    lemma_choice_distinct, lemma_choice_sum, lemma_sum_three, lemma_sum_two, picks_sum,
};
use crate::extract::ilp::warm::{
    cap_in, latest_of, levels_rise, seed_value, seeded, seeded_pick, starts_from, time_of,
};
use crate::extract::selection;
use crate::extract::selection::{
    arrival, edge, is_timing, latest_child, ranked, reaches, roots_known, valid,
};
use crate::milp::point::{
    coeff_sum, distinct_cols, feasible, lemma_row_of, row_holds, row_of, weights_from, within,
};
use crate::milp::stage::{reweighted, Col, Lp, RowModel};
use crate::sums::{
    lemma_part_below, lemma_part_grows, lemma_part_insert, lemma_zero_product, part_of, total_of,
};
use vstd::prelude::*;

verus! {

/// Every node has a size and a depth that are finite and not negative.
pub open spec fn weights_valid(g: EGraph) -> bool {
    forall|n: int|
        0 <= n < g.nodes@.len() ==> is_weight((#[trigger] g.nodes@[n]).cost) && is_weight(
            g.nodes@[n].delay,
        )
}

/// Twice the sum of all depths, and a level for every class, can be written
/// down.
pub open spec fn figures_fit(g: EGraph) -> bool {
    &&& 2 * delays_to(g, g.nodes@.len()) < i64::MAX
    &&& (g.classes@.len() + 2) * 1_000_000 < i64::MAX
}

/// The point a staged start describes, in millionths.
pub open spec fn start_point(lp: Lp, start: Map<Col, Cost>) -> Seq<int> {
    Seq::new(lp.cols.len(), |j: int| start[j as Col] as int)
}

// ---------------------------------------------------------------------------
// Arrival times and the sum of all depths
// ---------------------------------------------------------------------------

pub proof fn lemma_delays_non_negative(g: EGraph, n: nat)
    requires
        weights_valid(g),
        n <= g.nodes@.len(),
    ensures
        0 <= delays_to(g, n),
        n > 0 ==> delays_to(g, (n - 1) as nat) <= delays_to(g, n),
    decreases n,
{
    if n > 0 {
        lemma_delays_non_negative(g, (n - 1) as nat);
        assert(is_weight(g.nodes@[n - 1].delay));
    }
}

proof fn lemma_delays_total(g: EGraph, n: nat)
    requires
        n <= g.nodes@.len(),
    ensures
        delays_to(g, n) == total_of(|i: int| g.nodes@[i].delay as int, n),
    decreases n,
{
    if n > 0 {
        lemma_delays_total(g, (n - 1) as nat);
    }
}

/// The nodes chosen for classes below the roots of rank less than `r`.
spec fn chosen_below(
    g: EGraph,
    sel: Map<ClassId, NodeId>,
    roots: Seq<ClassId>,
    rank: Map<ClassId, nat>,
    r: nat,
) -> Set<int> {
    Set::new(
        |n: int|
            exists|c: ClassId| #[trigger]
                reaches(g, sel, roots, c) && sel[c] as int == n && rank[c] < r,
    )
}

/// No arrival time is above the sum of the depths of the nodes at or below it.
proof fn lemma_arrival_bounded(
    g: EGraph,
    sel: Map<ClassId, NodeId>,
    roots: Seq<ClassId>,
    rank: Map<ClassId, nat>,
    times: Map<ClassId, Cost>,
    c: ClassId,
)
    requires
        g.wf(),
        weights_valid(g),
        valid(g, sel, roots),
        ranked(g, sel, roots, rank),
        is_timing(g, sel, roots, times),
        reaches(g, sel, roots, c),
    ensures
        0 <= times[c] <= part_of(
            |i: int| g.nodes@[i].delay as int,
            chosen_below(g, sel, roots, rank, rank[c] + 1),
            g.nodes@.len(),
        ),
    decreases rank[c],
{
    let w = |i: int| g.nodes@[i].delay as int;
    let nn = g.nodes@.len();
    let n = sel[c];
    assert(sel.contains_key(c));
    let lower = chosen_below(g, sel, roots, rank, rank[c]);
    let upper = chosen_below(g, sel, roots, rank, rank[c] + 1);
    assert forall|j: int| 0 <= j < nn implies #[trigger] w(j) >= 0 by {
        assert(is_weight(g.nodes@[j].delay));
    }
    assert(!lower.contains(n as int)) by {
        if lower.contains(n as int) {
            let x = choose|x: ClassId| #[trigger]
                reaches(g, sel, roots, x) && sel[x] as int == n as int && rank[x] < rank[c];
            assert(sel.contains_key(x));
            assert(g.nodes@[sel[x] as int].eclass == x);
            assert(g.nodes@[sel[c] as int].eclass == c);
        }
    }
    lemma_part_insert(w, lower, n as int, nn);
    assert(lower.insert(n as int).subset_of(upper)) by {
        assert forall|m: int| lower.insert(n as int).contains(m) implies upper.contains(m) by {
            if m == n as int {
                assert(reaches(g, sel, roots, c));
            } else {
                let x = choose|x: ClassId| #[trigger]
                    reaches(g, sel, roots, x) && sel[x] as int == m && rank[x] < rank[c];
                assert(reaches(g, sel, roots, x));
            }
        }
    }
    lemma_part_grows(w, lower.insert(n as int), upper, nn);
    lemma_part_below(w, lower, nn);
    let k = g.nodes@[n as int].children@.len();
    assert forall|j: int| 0 <= j < k implies 0 <= times[#[trigger] g.child_class(n, j)] <= part_of(
        w,
        lower,
        nn,
    ) by {
        let b = g.child_class(n, j);
        assert(g.depends(n, b));
        assert(edge(g, sel, c, b));
        selection::lemma_reaches_step(g, sel, roots, c, b);
        lemma_arrival_bounded(g, sel, roots, rank, times, b);
        let deeper = chosen_below(g, sel, roots, rank, rank[b] + 1);
        assert(deeper.subset_of(lower)) by {
            assert forall|m: int| deeper.contains(m) implies lower.contains(m) by {
                let x = choose|x: ClassId| #[trigger]
                    reaches(g, sel, roots, x) && sel[x] as int == m && rank[x] < rank[b] + 1;
                assert(reaches(g, sel, roots, x));
            }
        }
        lemma_part_grows(w, deeper, lower, nn);
    }
    lemma_latest_bounded(g, times, n, k, part_of(w, lower, nn));
    assert(is_weight(g.nodes@[n as int].delay));
    assert(w(n as int) == g.nodes@[n as int].delay as int);
}

proof fn lemma_latest_bounded(
    g: EGraph,
    times: Map<ClassId, Cost>,
    n: NodeId,
    k: nat,
    bound: int,
)
    requires
        bound >= 0,
        forall|j: int| 0 <= j < k ==> 0 <= times[#[trigger] g.child_class(n, j)] <= bound,
    ensures
        0 <= latest_child(g, times, n, k) <= bound,
    decreases k,
{
    if k > 0 {
        lemma_latest_bounded(g, times, n, (k - 1) as nat, bound);
        let b = g.child_class(n, k - 1);
        assert(0 <= times[b] <= bound);
    }
}

/// Every arrival time of a valid extraction lies between zero and the sum of
/// all node depths.
pub proof fn arrival_is_at_most_total(
    g: EGraph,
    sel: Map<ClassId, NodeId>,
    roots: Seq<ClassId>,
    times: Map<ClassId, Cost>,
    c: ClassId,
)
    requires
        g.wf(),
        weights_valid(g),
        valid(g, sel, roots),
        is_timing(g, sel, roots, times),
        reaches(g, sel, roots, c),
    ensures
        0 <= times[c] <= delays_to(g, g.nodes@.len()),
        times[c] <= total_delay(g),
{
    let rank = choose|rank: Map<ClassId, nat>| ranked(g, sel, roots, rank);
    let w = |i: int| g.nodes@[i].delay as int;
    lemma_arrival_bounded(g, sel, roots, rank, times, c);
    assert forall|j: int| 0 <= j < g.nodes@.len() implies #[trigger] w(j) >= 0 by {
        assert(is_weight(g.nodes@[j].delay));
    }
    lemma_part_below(w, chosen_below(g, sel, roots, rank, rank[c] + 1), g.nodes@.len());
    lemma_delays_total(g, g.nodes@.len());
}

pub proof fn lemma_deepest(g: EGraph, n: nat, i: int)
    requires
        0 <= i < n <= g.nodes@.len(),
    ensures
        g.nodes@[i].delay <= deepest_to(g, n),
        0 <= deepest_to(g, n),
    decreases n,
{
    if i < n - 1 {
        lemma_deepest(g, (n - 1) as nat, i);
    } else if n > 1 {
        lemma_deepest(g, (n - 1) as nat, 0);
    }
}

pub proof fn lemma_delay_in_total(g: EGraph, n: nat, i: int)
    requires
        weights_valid(g),
        0 <= i < n <= g.nodes@.len(),
    ensures
        g.nodes@[i].delay <= delays_to(g, n),
    decreases n,
{
    assert(is_weight(g.nodes@[n - 1].delay));
    lemma_delays_non_negative(g, (n - 1) as nat);
    if i < n - 1 {
        lemma_delay_in_total(g, (n - 1) as nat, i);
    }
}

proof fn lemma_deepest_in_total(g: EGraph, n: nat)
    requires
        weights_valid(g),
        n <= g.nodes@.len(),
    ensures
        0 <= deepest_to(g, n) <= delays_to(g, n),
    decreases n,
{
    if n > 0 {
        lemma_deepest_in_total(g, (n - 1) as nat);
        lemma_delays_non_negative(g, (n - 1) as nat);
        assert(is_weight(g.nodes@[n - 1].delay));
    }
}

/// The big-M leaves room: a class may be as late as the cap while a node that
/// is not selected asks for its depth.
proof fn lemma_big_m(g: EGraph, requested: Option<Cost>, n: NodeId)
    requires
        weights_valid(g),
        figures_fit(g),
        n < g.nodes@.len(),
    ensures
        big_m_of(g, requested) > 0,
        0 <= cap_of(g, requested) <= total_delay(g),
        cap_of(g, requested) + g.nodes@[n as int].delay <= big_m_of(g, requested),
        minus(g.nodes@[n as int].delay, big_m_of(g, requested)) == g.nodes@[n as int].delay
            - big_m_of(g, requested),
        minus(g.nodes@[n as int].delay, big_m_of(g, requested)) != NEG_INFINITY,
        total_delay(g) == delays_to(g, g.nodes@.len()),
{
    let nn = g.nodes@.len();
    lemma_delays_non_negative(g, nn);
    lemma_deepest(g, nn, n as int);
    lemma_deepest_in_total(g, nn);
    lemma_delay_in_total(g, nn, n as int);
    assert(is_weight(g.nodes@[n as int].delay));
}

// ---------------------------------------------------------------------------
// The rows
// ---------------------------------------------------------------------------

/// Levels that the level rows accept: they rise along every edge below the
/// roots, and there are no more of them than classes.
pub open spec fn levels_usable(
    g: EGraph,
    sel: Map<ClassId, NodeId>,
    roots: Seq<ClassId>,
    levels: Map<ClassId, usize>,
) -> bool {
    &&& forall|c: ClassId| #[trigger] levels.contains_key(c) <==> reaches(g, sel, roots, c)
    &&& levels_rise(g, sel, roots, levels)
    &&& forall|c: ClassId| #[trigger] levels.contains_key(c) ==> levels[c] < g.classes@.len()
}

/// `start` is what [`push_seed`](crate::extract::ilp::warm::push_seed) stages
/// of the valid extraction `sel`, whose arrival times are under the cap.
pub open spec fn is_seeding(
    g: EGraph,
    roots: Seq<ClassId>,
    objective: IlpObjective,
    vars: IlpVars,
    lp: Lp,
    sel: Map<ClassId, NodeId>,
    levels: Map<ClassId, usize>,
    times: Map<ClassId, Cost>,
    start: Map<Col, Cost>,
) -> bool {
    &&& g.wf()
    &&& weights_valid(g)
    &&& figures_fit(g)
    &&& is_model(g, roots, objective, vars, lp)
    &&& valid(g, sel, roots)
    &&& levels_usable(g, sel, roots, levels)
    &&& starts_from(g, roots, vars, sel, levels, times, start)
    &&& vars.depth is Some ==> {
        &&& is_timing(g, sel, roots, times)
        &&& forall|c: ClassId| #[trigger] times.contains_key(c) <==> reaches(g, sel, roots, c)
        &&& forall|c: ClassId| #[trigger]
            reaches(g, sel, roots, c) ==> times[c] <= cap_of(g, objective.limit())
    }
}

/// The value of a column at the start.
proof fn lemma_at(
    g: EGraph,
    roots: Seq<ClassId>,
    objective: IlpObjective,
    vars: IlpVars,
    lp: Lp,
    sel: Map<ClassId, NodeId>,
    levels: Map<ClassId, usize>,
    times: Map<ClassId, Cost>,
    start: Map<Col, Cost>,
    j: Col,
)
    requires
        is_seeding(g, roots, objective, vars, lp, sel, levels, times, start),
        j < vars.roles@.len(),
    ensures
        start_point(lp, start)[j as int] == seed_value(
            g,
            sel,
            roots,
            levels,
            times,
            cap_in(vars),
            vars.roles@[j as int],
        ),
        start_point(lp, start).len() == lp.cols.len(),
{
    assert(start.contains_key(j));
}

/// Exactly the chosen member counts.
proof fn lemma_seed_picks(
    g: EGraph,
    roots: Seq<ClassId>,
    objective: IlpObjective,
    vars: IlpVars,
    lp: Lp,
    sel: Map<ClassId, NodeId>,
    levels: Map<ClassId, usize>,
    times: Map<ClassId, Cost>,
    start: Map<Col, Cost>,
    c: int,
    k0: int,
    k: nat,
)
    requires
        is_seeding(g, roots, objective, vars, lp, sel, levels, times, start),
        0 <= c < g.classes@.len(),
        c <= usize::MAX,
        k <= members(g, c),
        seeded(g, sel, roots, c as ClassId) ==> 0 <= k0 < members(g, c) && sel[c as ClassId]
            == member(g, c, k0),
    ensures
        picks_sum(vars.classes@[c], start_point(lp, start), k) == (if seeded(
            g,
            sel,
            roots,
            c as ClassId,
        ) && k0 < k {
            1_000_000int
        } else {
            0
        }),
    decreases k,
{
    if k > 0 {
        lemma_seed_picks(
            g,
            roots,
            objective,
            vars,
            lp,
            sel,
            levels,
            times,
            start,
            c,
            k0,
            (k - 1) as nat,
        );
        let q = k - 1;
        assert(is_member(g, c, q));
        let x = vars.classes@[c].nodes@[q];
        vstd::std_specs::vec::axiom_spec_len(&g.classes@[c].nodes);
        assert(vars.roles@[x as int] == Role::Pick(c as ClassId, q as usize));
        lemma_at(g, roots, objective, vars, lp, sel, levels, times, start, x);
        if seeded(g, sel, roots, c as ClassId) {
            let list = g.classes@[c].nodes@;
            assert(crate::egraph::lists_members(g.nodes@, c, list));
            if q != k0 {
                if q < k0 {
                    assert(list[q] < list[k0]);
                } else {
                    assert(list[k0] < list[q]);
                }
            }
        }
    }
}

/// The position of the chosen member.
proof fn lemma_chosen_member(
    g: EGraph,
    sel: Map<ClassId, NodeId>,
    roots: Seq<ClassId>,
    c: ClassId,
) -> (k: int)
    requires
        g.wf(),
        valid(g, sel, roots),
        seeded(g, sel, roots, c),
    ensures
        c < g.classes@.len(),
        is_member(g, c as int, k),
        sel[c] == member(g, c as int, k),
{
    assert(sel.contains_key(c));
    let n = sel[c];
    assert(g.nodes@[n as int].eclass < g.classes@.len());
    let list = g.classes@[c as int].nodes@;
    assert(crate::egraph::lists_members(g.nodes@, c as int, list));
    assert(list.contains(n));
    choose|k: int| 0 <= k < list.len() && list[k] == n
}

proof fn lemma_choice_holds(
    g: EGraph,
    roots: Seq<ClassId>,
    objective: IlpObjective,
    vars: IlpVars,
    lp: Lp,
    sel: Map<ClassId, NodeId>,
    levels: Map<ClassId, usize>,
    times: Map<ClassId, Cost>,
    start: Map<Col, Cost>,
    c: int,
    row: RowModel,
)
    requires
        is_seeding(g, roots, objective, vars, lp, sel, levels, times, start),
        choice_row(g, vars.classes@, c, row),
    ensures
        row_holds(row, start_point(lp, start), ONE as int),
{
    let p = start_point(lp, start);
    let class = vars.classes@[c];
    let coeffs = choice_coeffs(class);
    vstd::std_specs::vec::axiom_spec_len(&g.classes);
    let a = class.active;
    assert(vars.roles@[a as int] == Role::Active(c as ClassId));
    lemma_at(g, roots, objective, vars, lp, sel, levels, times, start, a);
    let n = class.nodes@.len();
    let k0 = if seeded(g, sel, roots, c as ClassId) {
        lemma_chosen_member(g, sel, roots, c as ClassId)
    } else {
        0
    };
    lemma_seed_picks(g, roots, objective, vars, lp, sel, levels, times, start, c, k0, n);
    lemma_choice_distinct(g, roots, objective, vars, lp, c);
    lemma_row_of(0, 0, coeffs, p, ONE as int);
    lemma_choice_sum(class, p, n);
    assert(coeffs.len() == n + 1);
}

proof fn lemma_needs_holds(
    g: EGraph,
    roots: Seq<ClassId>,
    objective: IlpObjective,
    vars: IlpVars,
    lp: Lp,
    sel: Map<ClassId, NodeId>,
    levels: Map<ClassId, usize>,
    times: Map<ClassId, Cost>,
    start: Map<Col, Cost>,
    c: int,
    k: int,
    cc: ClassId,
    row: RowModel,
)
    requires
        is_seeding(g, roots, objective, vars, lp, sel, levels, times, start),
        needs_row(g, vars.classes@, c, k, cc, row),
    ensures
        row_holds(row, start_point(lp, start), ONE as int),
{
    let p = start_point(lp, start);
    vstd::std_specs::vec::axiom_spec_len(&g.classes);
    vstd::std_specs::vec::axiom_spec_len(&g.classes@[c].nodes);
    lemma_member(g, c, k);
    g.lemma_depends(member(g, c, k), cc);
    let x = vars.classes@[c].nodes@[k];
    let a = vars.classes@[cc as int].active;
    let coeffs = seq![(x, ONE), (a, MINUS_ONE)];
    assert(vars.roles@[x as int] == Role::Pick(c as ClassId, k as usize));
    assert(vars.roles@[a as int] == Role::Active(cc));
    lemma_at(g, roots, objective, vars, lp, sel, levels, times, start, x);
    lemma_at(g, roots, objective, vars, lp, sel, levels, times, start, a);
    if seeded_pick(g, sel, roots, c as ClassId, k as usize) {
        assert(edge(g, sel, c as ClassId, cc));
        selection::lemma_reaches_step(g, sel, roots, c as ClassId, cc);
        assert(sel.contains_key(cc));
    }
    assert(distinct_cols(coeffs, lp.cols.len()));
    lemma_row_of(NEG_INFINITY, 0, coeffs, p, ONE as int);
    lemma_sum_two(coeffs, p);
}

proof fn lemma_switch_holds(
    g: EGraph,
    roots: Seq<ClassId>,
    objective: IlpObjective,
    vars: IlpVars,
    lp: Lp,
    sel: Map<ClassId, NodeId>,
    levels: Map<ClassId, usize>,
    times: Map<ClassId, Cost>,
    start: Map<Col, Cost>,
    c: int,
    k: int,
    row: RowModel,
)
    requires
        is_seeding(g, roots, objective, vars, lp, sel, levels, times, start),
        switch_row(g, vars.classes@, vars.cycles.opposite@, c, k, row),
    ensures
        row_holds(row, start_point(lp, start), ONE as int),
{
    let p = start_point(lp, start);
    vstd::std_specs::vec::axiom_spec_len(&g.classes);
    vstd::std_specs::vec::axiom_spec_len(&g.classes@[c].nodes);
    let x = vars.classes@[c].nodes@[k];
    let o = vars.cycles.opposite@[c]@[k];
    let coeffs = seq![(o, ONE), (x, ONE)];
    assert(vars.roles@[x as int] == Role::Pick(c as ClassId, k as usize));
    assert(vars.roles@[o as int] == Role::Opposite(c as ClassId, k as usize));
    lemma_at(g, roots, objective, vars, lp, sel, levels, times, start, x);
    lemma_at(g, roots, objective, vars, lp, sel, levels, times, start, o);
    assert(distinct_cols(coeffs, lp.cols.len()));
    lemma_row_of(ONE, ONE, coeffs, p, ONE as int);
    lemma_sum_two(coeffs, p);
}

/// A valid extraction chooses no node that is below its own class.
proof fn lemma_no_loop(
    g: EGraph,
    sel: Map<ClassId, NodeId>,
    roots: Seq<ClassId>,
    c: ClassId,
    k: usize,
)
    requires
        valid(g, sel, roots),
        g.depends(member(g, c as int, k as int), c),
    ensures
        !seeded_pick(g, sel, roots, c, k),
{
    if seeded_pick(g, sel, roots, c, k) {
        let rank = choose|rank: Map<ClassId, nat>| ranked(g, sel, roots, rank);
        assert(edge(g, sel, c, c));
        assert(rank[c] < rank[c]);
    }
}

proof fn lemma_loop_holds(
    g: EGraph,
    roots: Seq<ClassId>,
    objective: IlpObjective,
    vars: IlpVars,
    lp: Lp,
    sel: Map<ClassId, NodeId>,
    levels: Map<ClassId, usize>,
    times: Map<ClassId, Cost>,
    start: Map<Col, Cost>,
    c: int,
    k: int,
    row: RowModel,
)
    requires
        is_seeding(g, roots, objective, vars, lp, sel, levels, times, start),
        loop_row(g, vars.classes@, c, k, row),
    ensures
        row_holds(row, start_point(lp, start), ONE as int),
{
    let p = start_point(lp, start);
    vstd::std_specs::vec::axiom_spec_len(&g.classes);
    vstd::std_specs::vec::axiom_spec_len(&g.classes@[c].nodes);
    let x = vars.classes@[c].nodes@[k];
    let coeffs = seq![(x, ONE)];
    assert(vars.roles@[x as int] == Role::Pick(c as ClassId, k as usize));
    lemma_at(g, roots, objective, vars, lp, sel, levels, times, start, x);
    lemma_no_loop(g, sel, roots, c as ClassId, k as usize);
    assert(distinct_cols(coeffs, lp.cols.len()));
    lemma_row_of(0, 0, coeffs, p, ONE as int);
    assert(coeff_sum(coeffs, p, 0) == 0);
    assert(coeff_sum(coeffs, p, 1) == ONE * p[x as int]);
}

proof fn lemma_level_holds(
    g: EGraph,
    roots: Seq<ClassId>,
    objective: IlpObjective,
    vars: IlpVars,
    lp: Lp,
    sel: Map<ClassId, NodeId>,
    levels: Map<ClassId, usize>,
    times: Map<ClassId, Cost>,
    start: Map<Col, Cost>,
    c: int,
    k: int,
    cc: ClassId,
    row: RowModel,
)
    requires
        is_seeding(g, roots, objective, vars, lp, sel, levels, times, start),
        level_row(
            g,
            vars.classes@,
            vars.cycles.levels@,
            vars.cycles.opposite@,
            c,
            k,
            cc,
            row,
        ),
    ensures
        row_holds(row, start_point(lp, start), ONE as int),
{
    let p = start_point(lp, start);
    vstd::std_specs::vec::axiom_spec_len(&g.classes);
    vstd::std_specs::vec::axiom_spec_len(&g.classes@[c].nodes);
    lemma_member(g, c, k);
    g.lemma_depends(member(g, c, k), cc);
    let o = vars.cycles.opposite@[c]@[k];
    let lc = vars.cycles.levels@[c];
    let lcc = vars.cycles.levels@[cc as int];
    let coeffs = seq![(lc, MINUS_ONE), (lcc, ONE), (o, level_step(g))];
    assert(vars.roles@[o as int] == Role::Opposite(c as ClassId, k as usize));
    assert(vars.roles@[lc as int] == Role::Level(c as ClassId));
    assert(vars.roles@[lcc as int] == Role::Level(cc));
    lemma_at(g, roots, objective, vars, lp, sel, levels, times, start, o);
    lemma_at(g, roots, objective, vars, lp, sel, levels, times, start, lc);
    lemma_at(g, roots, objective, vars, lp, sel, levels, times, start, lcc);
    assert(distinct_cols(coeffs, lp.cols.len()));
    lemma_row_of(ONE, INFINITY, coeffs, p, ONE as int);
    lemma_sum_three(coeffs, p);
    let cid = c as ClassId;
    if levels.contains_key(cid) {
        assert(levels[cid] < g.classes@.len());
    }
    if levels.contains_key(cc) {
        assert(levels[cc] < g.classes@.len());
    }
    if seeded_pick(g, sel, roots, cid, k as usize) {
        assert(edge(g, sel, cid, cc));
        selection::lemma_reaches_step(g, sel, roots, cid, cc);
        assert(levels.contains_key(cid) && levels.contains_key(cc));
        assert(levels[cid] < levels[cc]);
        assert(p[o as int] == 0);
        lemma_zero_product(coeffs[2].1 as int, p[o as int]);
        assert(p[lc as int] == levels[cid] * 1_000_000);
        assert(p[lcc as int] == levels[cc] * 1_000_000);
        assert(coeff_sum(coeffs, p, 3) >= 1_000_000int * 1_000_000);
    } else {
        assert(p[o as int] == 1_000_000);
        assert(level_step(g) == (g.classes@.len() + 1) * 1_000_000);
        assert(0 <= p[lc as int] <= g.classes@.len() * 1_000_000);
        assert(0 <= p[lcc as int]);
        let step = level_step(g) as int;
        assert(coeffs[2].1 * p[o as int] == step * 1_000_000);
        assert(coeffs[0].1 * p[lc as int] == -1_000_000 * p[lc as int]);
        assert(coeffs[1].1 * p[lcc as int] == 1_000_000 * p[lcc as int]);
        assert(step == (g.classes@.len() + 1) * 1_000_000);
        assert(coeff_sum(coeffs, p, 3) == -1_000_000 * p[lc as int] + 1_000_000 * p[lcc as int]
            + step * 1_000_000);
        let top = p[lc as int];
        let n = g.classes@.len() as int;
        assert(-1_000_000 * top + (n + 1) * 1_000_000 * 1_000_000 >= 1_000_000int * 1_000_000)
            by (nonlinear_arith)
            requires
                top <= n * 1_000_000,
        ;
        assert(coeff_sum(coeffs, p, 3) >= 1_000_000int * 1_000_000);
    }
    assert(coeffs.len() == 3);
    assert(within(ONE, INFINITY, coeff_sum(coeffs, p, coeffs.len()), ONE as int));
}

/// The arrival column of a class at the start.
proof fn lemma_arrival_at(
    g: EGraph,
    roots: Seq<ClassId>,
    objective: IlpObjective,
    vars: IlpVars,
    lp: Lp,
    sel: Map<ClassId, NodeId>,
    levels: Map<ClassId, usize>,
    times: Map<ClassId, Cost>,
    start: Map<Col, Cost>,
    c: ClassId,
)
    requires
        is_seeding(g, roots, objective, vars, lp, sel, levels, times, start),
        vars.depth is Some,
        c < g.classes@.len(),
    ensures
        ({
            let t = vars.depth->0.arrival@[c as int];
            let p = start_point(lp, start);
            &&& t < lp.cols.len()
            &&& vars.roles@[t as int] == Role::Arrival(c)
            &&& 0 <= p[t as int] <= cap_of(g, objective.limit())
            &&& reaches(g, sel, roots, c) ==> p[t as int] == times[c] && 0 <= times[c]
        }),
{
    let d = vars.depth->0;
    let t = d.arrival@[c as int];
    assert(vars.roles@[t as int] == Role::Arrival(c));
    lemma_at(g, roots, objective, vars, lp, sel, levels, times, start, t);
    assert(cap_in(vars) == cap_of(g, objective.limit()));
    assert(g.classes@[c as int].nodes@.len() > 0);
    lemma_member(g, c as int, 0);
    lemma_big_m(g, objective.limit(), member(g, c as int, 0));
    if reaches(g, sel, roots, c) {
        arrival_is_at_most_total(g, sel, roots, times, c);
        assert(times.contains_key(c));
        assert(times[c] <= cap_of(g, objective.limit()));
    }
}

/// The arrival time of a selected node is its depth on top of its children.
proof fn lemma_arrival_exact(
    g: EGraph,
    roots: Seq<ClassId>,
    objective: IlpObjective,
    vars: IlpVars,
    lp: Lp,
    sel: Map<ClassId, NodeId>,
    levels: Map<ClassId, usize>,
    times: Map<ClassId, Cost>,
    start: Map<Col, Cost>,
    c: ClassId,
)
    requires
        is_seeding(g, roots, objective, vars, lp, sel, levels, times, start),
        vars.depth is Some,
        reaches(g, sel, roots, c),
    ensures
        times[c] == g.nodes@[sel[c] as int].delay + latest_child(
            g,
            times,
            sel[c],
            g.nodes@[sel[c] as int].children@.len(),
        ),
{
    let n = sel[c];
    assert(sel.contains_key(c));
    arrival_is_at_most_total(g, sel, roots, times, c);
    lemma_delays_non_negative(g, g.nodes@.len());
    assert(is_weight(g.nodes@[n as int].delay));
    assert(times[c] == arrival(g, times, n));
    lemma_latest_at_least_zero(g, times, n, g.nodes@[n as int].children@.len());
}

proof fn lemma_latest_at_least_zero(g: EGraph, times: Map<ClassId, Cost>, n: NodeId, k: nat)
    ensures
        0 <= latest_child(g, times, n, k),
    decreases k,
{
    if k > 0 {
        lemma_latest_at_least_zero(g, times, n, (k - 1) as nat);
    }
}

proof fn lemma_leaf_holds(
    g: EGraph,
    roots: Seq<ClassId>,
    objective: IlpObjective,
    vars: IlpVars,
    lp: Lp,
    sel: Map<ClassId, NodeId>,
    levels: Map<ClassId, usize>,
    times: Map<ClassId, Cost>,
    start: Map<Col, Cost>,
    c: int,
    k: int,
    row: RowModel,
)
    requires
        is_seeding(g, roots, objective, vars, lp, sel, levels, times, start),
        vars.depth is Some,
        leaf_row(
            g,
            vars.classes@,
            vars.depth->0.arrival@,
            vars.depth->0.big_m,
            c,
            k,
            row,
        ),
    ensures
        row_holds(row, start_point(lp, start), ONE as int),
{
    let p = start_point(lp, start);
    let d = vars.depth->0;
    vstd::std_specs::vec::axiom_spec_len(&g.classes);
    vstd::std_specs::vec::axiom_spec_len(&g.classes@[c].nodes);
    lemma_member(g, c, k);
    let n = member(g, c, k);
    let cid = c as ClassId;
    let x = vars.classes@[c].nodes@[k];
    let t = d.arrival@[c];
    let m = d.big_m;
    lemma_big_m(g, objective.limit(), n);
    assert(m == big_m_of(g, objective.limit()));
    let coeffs = seq![(t, ONE), (x, (-m) as Cost)];
    assert(vars.roles@[x as int] == Role::Pick(cid, k as usize));
    lemma_arrival_at(g, roots, objective, vars, lp, sel, levels, times, start, cid);
    lemma_at(g, roots, objective, vars, lp, sel, levels, times, start, x);
    assert(distinct_cols(coeffs, lp.cols.len()));
    let lower = minus(g.nodes@[n as int].delay, m);
    lemma_row_of(lower, INFINITY, coeffs, p, ONE as int);
    lemma_sum_two(coeffs, p);
    let delay = g.nodes@[n as int].delay;
    if seeded_pick(g, sel, roots, cid, k as usize) {
        lemma_arrival_exact(g, roots, objective, vars, lp, sel, levels, times, start, cid);
        assert(p[t as int] == delay);
        assert(coeffs[1].1 * p[x as int] == (-m) * 1_000_000);
    } else {
        lemma_zero_product(coeffs[1].1 as int, p[x as int]);
    }
    assert(coeffs[0].1 * p[t as int] == 1_000_000 * p[t as int]);
    assert(coeff_sum(coeffs, p, 2) >= (delay - m) * 1_000_000);
    assert(within(lower, INFINITY, coeff_sum(coeffs, p, 2), ONE as int));
}

/// The row of a node below its own class: its second coefficient replaces the
/// first.
proof fn lemma_doubled_weights(t: Col, x: Col, m: Cost)
    requires
        m != 0,
    ensures
        weights_from(seq![(t, ONE), (t, MINUS_ONE), (x, m)], 3) == weights_from(
            seq![(t, MINUS_ONE), (x, m)],
            2,
        ),
{
    let a = seq![(t, ONE), (t, MINUS_ONE), (x, m)];
    let b = seq![(t, MINUS_ONE), (x, m)];
    assert(weights_from(a, 0) =~= Map::empty());
    assert(weights_from(b, 0) =~= Map::empty());
    assert(weights_from(a, 1) == reweighted(weights_from(a, 0), t, ONE));
    assert(weights_from(a, 2) == reweighted(weights_from(a, 1), t, MINUS_ONE));
    assert(weights_from(a, 3) == reweighted(weights_from(a, 2), x, m));
    assert(weights_from(b, 1) == reweighted(weights_from(b, 0), t, MINUS_ONE));
    assert(weights_from(b, 2) == reweighted(weights_from(b, 1), x, m));
    assert(weights_from(a, 2) =~= weights_from(b, 1));
}

proof fn lemma_after_holds(
    g: EGraph,
    roots: Seq<ClassId>,
    objective: IlpObjective,
    vars: IlpVars,
    lp: Lp,
    sel: Map<ClassId, NodeId>,
    levels: Map<ClassId, usize>,
    times: Map<ClassId, Cost>,
    start: Map<Col, Cost>,
    c: int,
    k: int,
    cc: ClassId,
    row: RowModel,
)
    requires
        is_seeding(g, roots, objective, vars, lp, sel, levels, times, start),
        vars.depth is Some,
        after_row(
            g,
            vars.classes@,
            vars.depth->0.arrival@,
            vars.depth->0.big_m,
            c,
            k,
            cc,
            row,
        ),
    ensures
        row_holds(row, start_point(lp, start), ONE as int),
{
    let p = start_point(lp, start);
    let d = vars.depth->0;
    vstd::std_specs::vec::axiom_spec_len(&g.classes);
    vstd::std_specs::vec::axiom_spec_len(&g.classes@[c].nodes);
    lemma_member(g, c, k);
    let n = member(g, c, k);
    g.lemma_depends(n, cc);
    let cid = c as ClassId;
    let x = vars.classes@[c].nodes@[k];
    let t = d.arrival@[c];
    let tt = d.arrival@[cc as int];
    let m = d.big_m;
    let off = (-m) as Cost;
    lemma_big_m(g, objective.limit(), n);
    assert(m == big_m_of(g, objective.limit()));
    assert(vars.roles@[x as int] == Role::Pick(cid, k as usize));
    lemma_arrival_at(g, roots, objective, vars, lp, sel, levels, times, start, cid);
    lemma_arrival_at(g, roots, objective, vars, lp, sel, levels, times, start, cc);
    lemma_at(g, roots, objective, vars, lp, sel, levels, times, start, x);
    let lower = minus(g.nodes@[n as int].delay, m);
    let delay = g.nodes@[n as int].delay;
    if cc == cid {
        lemma_no_loop(g, sel, roots, cid, k as usize);
        let coeffs = seq![(t, MINUS_ONE), (x, off)];
        lemma_doubled_weights(t, x, off);
        assert(row == row_of(lower, INFINITY, seq![(t, ONE), (t, MINUS_ONE), (x, off)]));
        assert(row == row_of(lower, INFINITY, coeffs));
        assert(distinct_cols(coeffs, lp.cols.len()));
        lemma_row_of(lower, INFINITY, coeffs, p, ONE as int);
        lemma_sum_two(coeffs, p);
        lemma_zero_product(coeffs[1].1 as int, p[x as int]);
        assert(within(lower, INFINITY, coeff_sum(coeffs, p, 2), ONE as int));
        return;
    }
    let coeffs = seq![(t, ONE), (tt, MINUS_ONE), (x, off)];
    assert(distinct_cols(coeffs, lp.cols.len()));
    lemma_row_of(lower, INFINITY, coeffs, p, ONE as int);
    lemma_sum_three(coeffs, p);
    if seeded_pick(g, sel, roots, cid, k as usize) {
        assert(edge(g, sel, cid, cc));
        selection::lemma_reaches_step(g, sel, roots, cid, cc);
        lemma_arrival_exact(g, roots, objective, vars, lp, sel, levels, times, start, cid);
        let j = choose|j: int|
            0 <= j < g.nodes@[n as int].children@.len() && g.child_class(n, j) == cc;
        selection::lemma_latest_child_bound(
            g,
            times,
            n,
            g.nodes@[n as int].children@.len(),
            j,
        );
        assert(p[t as int] >= delay + p[tt as int]);
        assert(coeffs[2].1 * p[x as int] == (-m) * 1_000_000);
    } else {
        lemma_zero_product(coeffs[2].1 as int, p[x as int]);
    }
    assert(within(lower, INFINITY, coeff_sum(coeffs, p, 3), ONE as int));
}

proof fn lemma_latest_of_bound(roots: Seq<ClassId>, times: Map<ClassId, Cost>, k: nat, i: int)
    requires
        0 <= i < k,
    ensures
        time_of(times, roots[i]) <= latest_of(roots, times, k),
    decreases k,
{
    if i < k - 1 {
        lemma_latest_of_bound(roots, times, (k - 1) as nat, i);
    }
}

proof fn lemma_root_holds(
    g: EGraph,
    roots: Seq<ClassId>,
    objective: IlpObjective,
    vars: IlpVars,
    lp: Lp,
    sel: Map<ClassId, NodeId>,
    levels: Map<ClassId, usize>,
    times: Map<ClassId, Cost>,
    start: Map<Col, Cost>,
    i: int,
    row: RowModel,
)
    requires
        is_seeding(g, roots, objective, vars, lp, sel, levels, times, start),
        roots_known(g, roots),
        vars.depth is Some,
        vars.depth->0.root_depth is Some,
        root_row(roots, vars.depth->0.arrival@, vars.depth->0.root_depth->0, i, row),
    ensures
        row_holds(row, start_point(lp, start), ONE as int),
{
    let p = start_point(lp, start);
    let d = vars.depth->0;
    let t = d.root_depth->0;
    let r = roots[i];
    let tr = d.arrival@[r as int];
    assert(vars.roles@[t as int] == Role::RootDepth);
    lemma_at(g, roots, objective, vars, lp, sel, levels, times, start, t);
    lemma_arrival_at(g, roots, objective, vars, lp, sel, levels, times, start, r);
    assert(roots.contains(r));
    selection::lemma_reaches_root(g, sel, roots, r);
    assert(times.contains_key(r));
    lemma_latest_of_bound(roots, times, roots.len(), i);
    let coeffs = seq![(t, ONE), (tr, MINUS_ONE)];
    assert(distinct_cols(coeffs, lp.cols.len()));
    lemma_row_of(0, INFINITY, coeffs, p, ONE as int);
    lemma_sum_two(coeffs, p);
    assert(cap_in(vars) == cap_of(g, objective.limit()));
    assert(p[t as int] >= p[tr as int]);
    assert(coeffs[0].1 * p[t as int] == 1_000_000 * p[t as int]);
    assert(coeffs[1].1 * p[tr as int] == -1_000_000 * p[tr as int]);
    assert(within(0, INFINITY, coeff_sum(coeffs, p, 2), ONE as int));
}

proof fn lemma_col_holds(
    g: EGraph,
    roots: Seq<ClassId>,
    objective: IlpObjective,
    vars: IlpVars,
    lp: Lp,
    sel: Map<ClassId, NodeId>,
    levels: Map<ClassId, usize>,
    times: Map<ClassId, Cost>,
    start: Map<Col, Cost>,
    j: Col,
)
    requires
        is_seeding(g, roots, objective, vars, lp, sel, levels, times, start),
        j < lp.cols.len(),
    ensures
        ({
            let p = start_point(lp, start);
            let col = lp.cols[j as int];
            &&& within(col.lower, col.upper, p[j as int] * ONE, ONE as int)
            &&& col.integral ==> p[j as int] % (ONE as int) == 0
        }),
{
    let p = start_point(lp, start);
    let col = lp.cols[j as int];
    assert(col == col_of(g, roots, objective, vars.roles@[j as int]));
    lemma_at(g, roots, objective, vars, lp, sel, levels, times, start, j);
    assert(crate::extract::ilp::model::is_handle(g, vars, j as int));
    match vars.roles@[j as int] {
        Role::Active(c) => {
            if roots.contains(c) {
                selection::lemma_reaches_root(g, sel, roots, c);
                assert(sel.contains_key(c));
            }
        },
        Role::Arrival(c) => {
            lemma_arrival_at(g, roots, objective, vars, lp, sel, levels, times, start, c);
        },
        Role::RootDepth => {
            assert(cap_in(vars) == cap_of(g, objective.limit()));
            lemma_delays_non_negative(g, g.nodes@.len());
            assert(0 <= cap_of(g, objective.limit()) <= total_delay(g));
        },
        _ => {},
    }
}

/// A valid extraction within the budget, pushed as a seed, is a feasible point
/// of the whole model: every row, bound and integrality holds there.
pub proof fn seed_is_feasible(
    g: EGraph,
    roots: Seq<ClassId>,
    objective: IlpObjective,
    vars: IlpVars,
    lp: Lp,
    sel: Map<ClassId, NodeId>,
    levels: Map<ClassId, usize>,
    times: Map<ClassId, Cost>,
    start: Map<Col, Cost>,
)
    requires
        is_seeding(g, roots, objective, vars, lp, sel, levels, times, start),
    ensures
        feasible(lp, start_point(lp, start), ONE as int),
{
    let p = start_point(lp, start);
    let den = ONE as int;
    crate::extract::measure::lemma_roots_of_valid(g, sel, roots);
    assert forall|j: int| 0 <= j < p.len() implies within(
        (#[trigger] lp.cols[j]).lower,
        lp.cols[j].upper,
        p[j] * ONE,
        den,
    ) && (lp.cols[j].integral ==> p[j] % den == 0) by {
        lemma_col_holds(g, roots, objective, vars, lp, sel, levels, times, start, j as Col);
    }
    assert forall|i: int| 0 <= i < lp.rows.len() implies row_holds(
        #[trigger] lp.rows[i],
        p,
        den,
    ) by {
        let row = lp.rows[i];
        assert(lp.rows.contains(row));
        assert(model_row(g, roots, vars, row));
        let classes = vars.classes@;
        let lv = vars.cycles.levels@;
        let op = vars.cycles.opposite@;
        if selection_row(g, classes, row) {
            let c = choose|c: int| #[trigger] class_row(g, classes, c, row);
            if choice_row(g, classes, c, row) {
                lemma_choice_holds(
                    g,
                    roots,
                    objective,
                    vars,
                    lp,
                    sel,
                    levels,
                    times,
                    start,
                    c,
                    row,
                );
            } else {
                let (k, cc) = choose|k: int, cc: ClassId| #[trigger]
                    needs_row(g, classes, c, k, cc, row);
                lemma_needs_holds(
                    g,
                    roots,
                    objective,
                    vars,
                    lp,
                    sel,
                    levels,
                    times,
                    start,
                    c,
                    k,
                    cc,
                    row,
                );
            }
        } else if vars.depth is Some && depth_row(g, roots, classes, vars.depth->0, row) {
            let d = vars.depth->0;
            if exists|c: int| #[trigger] timing_row(g, classes, d.arrival@, d.big_m, c, row) {
                let c = choose|c: int| #[trigger]
                    timing_row(g, classes, d.arrival@, d.big_m, c, row);
                if exists|k: int| #[trigger]
                    leaf_row(g, classes, d.arrival@, d.big_m, c, k, row) {
                    let k = choose|k: int| #[trigger]
                        leaf_row(g, classes, d.arrival@, d.big_m, c, k, row);
                    lemma_leaf_holds(
                        g,
                        roots,
                        objective,
                        vars,
                        lp,
                        sel,
                        levels,
                        times,
                        start,
                        c,
                        k,
                        row,
                    );
                } else {
                    let (k, cc) = choose|k: int, cc: ClassId| #[trigger]
                        after_row(g, classes, d.arrival@, d.big_m, c, k, cc, row);
                    lemma_after_holds(
                        g,
                        roots,
                        objective,
                        vars,
                        lp,
                        sel,
                        levels,
                        times,
                        start,
                        c,
                        k,
                        cc,
                        row,
                    );
                }
            } else {
                let t = d.root_depth->0;
                assert(roots_row(roots, d.arrival@, t, row));
                let q = choose|q: int| #[trigger] root_row(roots, d.arrival@, t, q, row);
                lemma_root_holds(
                    g,
                    roots,
                    objective,
                    vars,
                    lp,
                    sel,
                    levels,
                    times,
                    start,
                    q,
                    row,
                );
            }
        } else {
            assert(cycle_row(g, classes, lv, op, row));
            if exists|c: int, k: int| #[trigger] switch_row(g, classes, op, c, k, row) {
                let (c, k) = choose|c: int, k: int| #[trigger]
                    switch_row(g, classes, op, c, k, row);
                lemma_switch_holds(
                    g,
                    roots,
                    objective,
                    vars,
                    lp,
                    sel,
                    levels,
                    times,
                    start,
                    c,
                    k,
                    row,
                );
            } else {
                let c = choose|c: int| #[trigger] order_row(g, classes, lv, op, c, row);
                if exists|k: int| #[trigger] loop_row(g, classes, c, k, row) {
                    let k = choose|k: int| #[trigger] loop_row(g, classes, c, k, row);
                    lemma_loop_holds(
                        g,
                        roots,
                        objective,
                        vars,
                        lp,
                        sel,
                        levels,
                        times,
                        start,
                        c,
                        k,
                        row,
                    );
                } else {
                    let (k, cc) = choose|k: int, cc: ClassId| #[trigger]
                        level_row(g, classes, lv, op, c, k, cc, row);
                    lemma_level_holds(
                        g,
                        roots,
                        objective,
                        vars,
                        lp,
                        sel,
                        levels,
                        times,
                        start,
                        c,
                        k,
                        cc,
                        row,
                    );
                }
            }
        }
    }
}

} // verus!
