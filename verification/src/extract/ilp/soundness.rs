//! What the model promises: its feasible points are the extractions.
use crate::cost::{Cost, INFINITY, MINUS_ONE, NEG_INFINITY, ONE};
use crate::egraph::{ClassId, EGraph, NodeId};
use crate::extract::ilp::decode::{first_on, is_decoding, reads_as_chosen, HALF};
use crate::extract::ilp::model::{
    choice_coeffs, choice_row, class_row, col_of, cycle_row, is_member, is_model, lemma_member,
    level_row, level_step, loop_row, member, members, model_row, needs_row, order_row,
    selection_row, switch_row, ClassVars, IlpVars, Role,
};
use crate::extract::ilp::objective::IlpObjective;
use crate::extract::selection;
use crate::extract::selection::{acyclic, edge, ranked, reaches, roots_known, valid};
use crate::milp::point::{
    coeff_sum, distinct_cols, feasible, lemma_row_of, row_holds, row_of, within,
};
use crate::milp::stage::{Col, Lp, RowModel};
use crate::milp::MilpSolution;
use crate::sums::lemma_zero_product;
use vstd::prelude::*;

verus! {

/// Every integral column of `solution` is within less than one half of the
/// point whose columns are `p[j] / den`.
pub open spec fn rounds_to(lp: Lp, solution: MilpSolution, p: Seq<int>, den: int) -> bool {
    forall|j: Col|
        j < lp.cols.len() && (#[trigger] lp.cols[j as int]).integral ==> {
            &&& 2 * (solution.value_of(j) * den - p[j as int] * ONE) < ONE * den
            &&& 2 * (p[j as int] * ONE - solution.value_of(j) * den) < ONE * den
        }
}

/// Class `c` is selected at the point.
pub open spec fn on_at(vars: IlpVars, p: Seq<int>, den: int, c: int) -> bool {
    p[vars.classes@[c].active as int] == den
}

/// A row of the model holds at a feasible point of it.
pub(crate) proof fn lemma_model_row_holds(
    g: EGraph,
    roots: Seq<ClassId>,
    objective: IlpObjective,
    vars: IlpVars,
    lp: Lp,
    p: Seq<int>,
    den: int,
    row: RowModel,
)
    requires
        is_model(g, roots, objective, vars, lp),
        feasible(lp, p, den),
        model_row(g, roots, vars, row),
    ensures
        row_holds(row, p, den),
{
    assert(lp.rows.contains(row));
    let i = choose|i: int| 0 <= i < lp.rows.len() && lp.rows[i] == row;
    assert(row_holds(lp.rows[i], p, den));
}

/// A binary column of a feasible point is zero or one.
proof fn lemma_binary(
    g: EGraph,
    roots: Seq<ClassId>,
    objective: IlpObjective,
    vars: IlpVars,
    lp: Lp,
    p: Seq<int>,
    den: int,
    j: Col,
)
    requires
        is_model(g, roots, objective, vars, lp),
        feasible(lp, p, den),
        j < vars.roles@.len(),
        vars.roles@[j as int] is Active || vars.roles@[j as int] is Pick
            || vars.roles@[j as int] is Opposite,
    ensures
        p[j as int] == 0 || p[j as int] == den,
        lp.cols[j as int].integral,
{
    let col = lp.cols[j as int];
    assert(col == col_of(g, roots, objective, vars.roles@[j as int]));
    assert(within(col.lower, col.upper, p[j as int] * ONE, den));
    let x = p[j as int];
    assert(0 <= x <= den) by (nonlinear_arith)
        requires
            col.lower * den <= x * 1_000_000,
            x * 1_000_000 <= 1_000_000 * den,
            0 <= col.lower,
            den > 0,
    ;
    if x < den {
        vstd::arithmetic::div_mod::lemma_small_mod(x as nat, den as nat);
    }
}

/// The sum of the members' columns.
pub open spec fn picks_sum(class: ClassVars, p: Seq<int>, k: nat) -> int
    decreases k,
{
    if k == 0 {
        0
    } else {
        picks_sum(class, p, (k - 1) as nat) + p[class.nodes@[k - 1] as int]
    }
}

pub(crate) proof fn lemma_choice_sum(class: ClassVars, p: Seq<int>, k: nat)
    requires
        k <= class.nodes@.len(),
    ensures
        coeff_sum(choice_coeffs(class), p, k + 1) == 1_000_000 * picks_sum(class, p, k) - 1_000_000
            * p[class.active as int],
    decreases k,
{
    let coeffs = choice_coeffs(class);
    if k == 0 {
        assert(coeffs[0] == (class.active, MINUS_ONE));
        assert(coeff_sum(coeffs, p, 0) == 0);
    } else {
        lemma_choice_sum(class, p, (k - 1) as nat);
        assert(coeffs[k as int] == (class.nodes@[k - 1], ONE));
        assert(coeff_sum(coeffs, p, k + 1) == coeff_sum(coeffs, p, k) + ONE
            * p[class.nodes@[k - 1] as int]);
    }
}

proof fn lemma_some_pick(class: ClassVars, p: Seq<int>, den: int, k: nat) -> (r: int)
    requires
        k <= class.nodes@.len(),
        picks_sum(class, p, k) != 0,
        forall|q: int|
            0 <= q < k ==> p[(#[trigger] class.nodes@[q]) as int] == 0 || p[class.nodes@[q] as int]
                == den,
    ensures
        0 <= r < k,
        p[class.nodes@[r] as int] == den,
    decreases k,
{
    if p[class.nodes@[k - 1] as int] == 0 {
        lemma_some_pick(class, p, den, (k - 1) as nat)
    } else {
        assert(p[class.nodes@[k - 1] as int] == den);
        k - 1
    }
}

/// The columns of a class are different.
pub(crate) proof fn lemma_choice_distinct(
    g: EGraph,
    roots: Seq<ClassId>,
    objective: IlpObjective,
    vars: IlpVars,
    lp: Lp,
    c: int,
)
    requires
        is_model(g, roots, objective, vars, lp),
        0 <= c < g.classes@.len(),
    ensures
        distinct_cols(choice_coeffs(vars.classes@[c]), lp.cols.len()),
{
    let class = vars.classes@[c];
    let coeffs = choice_coeffs(class);
    assert forall|i: int| 0 <= i < coeffs.len() implies (#[trigger] coeffs[i]).0 < lp.cols.len() by {
        if i > 0 {
            assert(is_member(g, c, i - 1));
            assert(coeffs[i].0 == class.nodes@[i - 1]);
        }
    }
    assert forall|i: int, j: int| 0 <= i < j < coeffs.len() implies (#[trigger] coeffs[i]).0 != (
    #[trigger] coeffs[j]).0 by {
        assert(is_member(g, c, j - 1));
        assert(coeffs[j].0 == class.nodes@[j - 1]);
        assert(vars.roles@[class.nodes@[j - 1] as int] == Role::Pick(
            c as ClassId,
            (j - 1) as usize,
        ));
        if i == 0 {
            assert(vars.roles@[class.active as int] == Role::Active(c as ClassId));
        } else {
            assert(is_member(g, c, i - 1));
            assert(coeffs[i].0 == class.nodes@[i - 1]);
            assert(vars.roles@[class.nodes@[i - 1] as int] == Role::Pick(
                c as ClassId,
                (i - 1) as usize,
            ));
            lemma_members_fit(g, roots, objective, vars, lp, c);
        }
    }
}

/// No class has more members than a position can count.
proof fn lemma_members_fit(
    g: EGraph,
    roots: Seq<ClassId>,
    objective: IlpObjective,
    vars: IlpVars,
    lp: Lp,
    c: int,
)
    requires
        is_model(g, roots, objective, vars, lp),
        0 <= c < g.classes@.len(),
    ensures
        members(g, c) <= usize::MAX,
        g.classes@.len() <= usize::MAX,
{
    vstd::std_specs::vec::axiom_spec_len(&g.classes@[c].nodes);
    vstd::std_specs::vec::axiom_spec_len(&g.classes);
}

/// Where a class is selected, so is one of its members.
proof fn lemma_active_has_pick(
    g: EGraph,
    roots: Seq<ClassId>,
    objective: IlpObjective,
    vars: IlpVars,
    lp: Lp,
    p: Seq<int>,
    den: int,
    c: int,
) -> (k: int)
    requires
        is_model(g, roots, objective, vars, lp),
        feasible(lp, p, den),
        0 <= c < g.classes@.len(),
        on_at(vars, p, den, c),
    ensures
        0 <= k < members(g, c),
        p[vars.classes@[c].nodes@[k] as int] == den,
{
    let class = vars.classes@[c];
    let coeffs = choice_coeffs(class);
    let row = row_of(0, 0, coeffs);
    assert(choice_row(g, vars.classes@, c, row));
    assert(class_row(g, vars.classes@, c, row));
    assert(selection_row(g, vars.classes@, row));
    lemma_model_row_holds(g, roots, objective, vars, lp, p, den, row);
    lemma_choice_distinct(g, roots, objective, vars, lp, c);
    lemma_row_of(0, 0, coeffs, p, den);
    let n = class.nodes@.len();
    lemma_choice_sum(class, p, n);
    assert(coeffs.len() == n + 1);
    assert(within(0, 0, coeff_sum(coeffs, p, coeffs.len()), den));
    assert(0 * den == 0);
    assert(picks_sum(class, p, n) == p[class.active as int]);
    assert forall|q: int| 0 <= q < n implies p[(#[trigger] class.nodes@[q]) as int] == 0
        || p[class.nodes@[q] as int] == den by {
        assert(is_member(g, c, q));
        lemma_binary(g, roots, objective, vars, lp, p, den, class.nodes@[q]);
    }
    lemma_some_pick(class, p, den, n)
}

/// Where a member is selected, so is every class it depends on.
proof fn lemma_pick_needs(
    g: EGraph,
    roots: Seq<ClassId>,
    objective: IlpObjective,
    vars: IlpVars,
    lp: Lp,
    p: Seq<int>,
    den: int,
    c: int,
    k: int,
    cc: ClassId,
)
    requires
        g.wf(),
        is_model(g, roots, objective, vars, lp),
        feasible(lp, p, den),
        is_member(g, c, k),
        g.depends(member(g, c, k), cc),
        p[vars.classes@[c].nodes@[k] as int] == den,
    ensures
        cc < g.classes@.len(),
        on_at(vars, p, den, cc as int),
{
    lemma_member(g, c, k);
    g.lemma_depends(member(g, c, k), cc);
    let x = vars.classes@[c].nodes@[k];
    let a = vars.classes@[cc as int].active;
    let coeffs = seq![(x, ONE), (a, MINUS_ONE)];
    let row = row_of(NEG_INFINITY, 0, coeffs);
    assert(needs_row(g, vars.classes@, c, k, cc, row));
    assert(class_row(g, vars.classes@, c, row));
    assert(selection_row(g, vars.classes@, row));
    lemma_model_row_holds(g, roots, objective, vars, lp, p, den, row);
    assert(vars.roles@[x as int] == Role::Pick(c as ClassId, k as usize));
    assert(vars.roles@[a as int] == Role::Active(cc));
    assert(distinct_cols(coeffs, lp.cols.len()));
    lemma_row_of(NEG_INFINITY, 0, coeffs, p, den);
    lemma_sum_two(coeffs, p);
    lemma_binary(g, roots, objective, vars, lp, p, den, a);
    assert(0 * den == 0);
}

pub(crate) proof fn lemma_sum_two(coeffs: Seq<(Col, Cost)>, p: Seq<int>)
    requires
        coeffs.len() == 2,
    ensures
        coeff_sum(coeffs, p, 2) == coeffs[0].1 * p[coeffs[0].0 as int] + coeffs[1].1
            * p[coeffs[1].0 as int],
{
    assert(coeff_sum(coeffs, p, 0) == 0);
    assert(coeff_sum(coeffs, p, 1) == coeffs[0].1 * p[coeffs[0].0 as int]);
}

pub(crate) proof fn lemma_sum_three(coeffs: Seq<(Col, Cost)>, p: Seq<int>)
    requires
        coeffs.len() == 3,
    ensures
        coeff_sum(coeffs, p, 3) == coeffs[0].1 * p[coeffs[0].0 as int] + coeffs[1].1
            * p[coeffs[1].0 as int] + coeffs[2].1 * p[coeffs[2].0 as int],
{
    assert(coeff_sum(coeffs, p, 0) == 0);
    assert(coeff_sum(coeffs, p, 1) == coeffs[0].1 * p[coeffs[0].0 as int]);
    assert(coeff_sum(coeffs, p, 2) == coeff_sum(coeffs, p, 1) + coeffs[1].1
        * p[coeffs[1].0 as int]);
}

/// Along every selected edge the level rises by one.
pub(crate) proof fn lemma_level_rises(
    g: EGraph,
    roots: Seq<ClassId>,
    objective: IlpObjective,
    vars: IlpVars,
    lp: Lp,
    p: Seq<int>,
    den: int,
    c: int,
    k: int,
    cc: ClassId,
)
    requires
        g.wf(),
        is_model(g, roots, objective, vars, lp),
        feasible(lp, p, den),
        is_member(g, c, k),
        g.depends(member(g, c, k), cc),
        p[vars.classes@[c].nodes@[k] as int] == den,
    ensures
        cc < g.classes@.len(),
        cc != c,
        p[vars.cycles.levels@[c] as int] + den <= p[vars.cycles.levels@[cc as int] as int],
{
    lemma_member(g, c, k);
    g.lemma_depends(member(g, c, k), cc);
    let classes = vars.classes@;
    let levels = vars.cycles.levels@;
    let opposite = vars.cycles.opposite@;
    let x = classes[c].nodes@[k];
    let o = opposite[c]@[k];
    assert(vars.roles@[x as int] == Role::Pick(c as ClassId, k as usize));
    assert(vars.roles@[o as int] == Role::Opposite(c as ClassId, k as usize));
    assert(0 * den == 0);
    lemma_members_fit(g, roots, objective, vars, lp, c);
    // A node below its own class is never selected.
    if g.depends(member(g, c, k), c as ClassId) {
        let coeffs = seq![(x, ONE)];
        let row = row_of(0, 0, coeffs);
        assert(loop_row(g, classes, c, k, row));
        assert(order_row(g, classes, levels, opposite, c, row));
        assert(cycle_row(g, classes, levels, opposite, row));
        lemma_model_row_holds(g, roots, objective, vars, lp, p, den, row);
        assert(distinct_cols(coeffs, lp.cols.len()));
        lemma_row_of(0, 0, coeffs, p, den);
        assert(coeff_sum(coeffs, p, 0) == 0);
        assert(coeff_sum(coeffs, p, 1) == ONE * p[x as int]);
        assert(false);
    }
    let coeffs = seq![(o, ONE), (x, ONE)];
    let row = row_of(ONE, ONE, coeffs);
    assert(switch_row(g, classes, opposite, c, k, row));
    assert(cycle_row(g, classes, levels, opposite, row));
    lemma_model_row_holds(g, roots, objective, vars, lp, p, den, row);
    assert(distinct_cols(coeffs, lp.cols.len()));
    lemma_row_of(ONE, ONE, coeffs, p, den);
    lemma_sum_two(coeffs, p);
    assert(p[o as int] == 0);
    let lc = levels[c];
    let lcc = levels[cc as int];
    assert(vars.roles@[lc as int] == Role::Level(c as ClassId));
    assert(vars.roles@[lcc as int] == Role::Level(cc));
    let coeffs = seq![(lc, MINUS_ONE), (lcc, ONE), (o, level_step(g))];
    let row = row_of(ONE, INFINITY, coeffs);
    assert(level_row(g, classes, levels, opposite, c, k, cc, row));
    assert(order_row(g, classes, levels, opposite, c, row));
    assert(cycle_row(g, classes, levels, opposite, row));
    lemma_model_row_holds(g, roots, objective, vars, lp, p, den, row);
    assert(distinct_cols(coeffs, lp.cols.len()));
    lemma_row_of(ONE, INFINITY, coeffs, p, den);
    lemma_sum_three(coeffs, p);
    lemma_zero_product(coeffs[2].1 as int, p[o as int]);
}

/// The largest level of the first `n` classes.
spec fn top_level(vars: IlpVars, p: Seq<int>, n: nat) -> int
    decreases n,
{
    if n == 0 {
        0
    } else {
        let below = top_level(vars, p, (n - 1) as nat);
        let here = p[vars.cycles.levels@[n - 1] as int];
        if here > below {
            here
        } else {
            below
        }
    }
}

proof fn lemma_top_level(vars: IlpVars, p: Seq<int>, n: nat, c: int)
    requires
        0 <= c < n,
    ensures
        p[vars.cycles.levels@[c] as int] <= top_level(vars, p, n),
    decreases n,
{
    if c < n - 1 {
        lemma_top_level(vars, p, (n - 1) as nat, c);
    }
}

/// What a decoding of a feasible point chooses is selected there.
pub(crate) proof fn lemma_decoded(
    g: EGraph,
    roots: Seq<ClassId>,
    objective: IlpObjective,
    vars: IlpVars,
    lp: Lp,
    p: Seq<int>,
    den: int,
    solution: MilpSolution,
    sel: Map<ClassId, NodeId>,
    c: ClassId,
)
    requires
        g.wf(),
        is_model(g, roots, objective, vars, lp),
        feasible(lp, p, den),
        rounds_to(lp, solution, p, den),
        is_decoding(g, vars.classes@, solution, sel),
        c < g.classes@.len(),
    ensures
        sel.contains_key(c) <==> on_at(vars, p, den, c as int),
        sel.contains_key(c) ==> exists|k: int| #[trigger]
            is_member(g, c as int, k) && sel[c] == member(g, c as int, k)
                && p[vars.classes@[c as int].nodes@[k] as int] == den,
{
    let class = vars.classes@[c as int];
    lemma_rounding(g, roots, objective, vars, lp, p, den, solution, class.active);
    assert forall|k: int| 0 <= k < class.nodes@.len() implies (solution.value_of(
        #[trigger] class.nodes@[k],
    ) > HALF <==> p[class.nodes@[k] as int] == den) by {
        assert(is_member(g, c as int, k));
        lemma_rounding(g, roots, objective, vars, lp, p, den, solution, class.nodes@[k]);
    }
    if on_at(vars, p, den, c as int) {
        let k = lemma_active_has_pick(g, roots, objective, vars, lp, p, den, c as int);
        assert(solution.value_of(class.nodes@[k]) > HALF);
        lemma_first_on(solution, class, k);
        assert(reads_as_chosen(solution, class));
    }
    if sel.contains_key(c) {
        let k = choose|k: int| #[trigger]
            first_on(solution, vars.classes@[c as int], k) && sel[c] == member(g, c as int, k);
        assert(is_member(g, c as int, k));
    }
}

/// If some member is on, one is the first.
proof fn lemma_first_on(solution: MilpSolution, class: ClassVars, k: int)
    requires
        0 <= k < class.nodes@.len(),
        solution.value_of(class.nodes@[k]) > HALF,
    ensures
        exists|q: int| #[trigger] first_on(solution, class, q),
    decreases k,
{
    if exists|q: int| 0 <= q < k && solution.value_of(#[trigger] class.nodes@[q]) > HALF {
        let q = choose|q: int|
            0 <= q < k && solution.value_of(#[trigger] class.nodes@[q]) > HALF;
        lemma_first_on(solution, class, q);
    } else {
        assert(first_on(solution, class, k));
    }
}

/// A binary column reads as it is at the point.
proof fn lemma_rounding(
    g: EGraph,
    roots: Seq<ClassId>,
    objective: IlpObjective,
    vars: IlpVars,
    lp: Lp,
    p: Seq<int>,
    den: int,
    solution: MilpSolution,
    j: Col,
)
    requires
        is_model(g, roots, objective, vars, lp),
        feasible(lp, p, den),
        rounds_to(lp, solution, p, den),
        j < vars.roles@.len(),
        vars.roles@[j as int] is Active || vars.roles@[j as int] is Pick,
    ensures
        p[j as int] == 0 || p[j as int] == den,
        solution.value_of(j) > HALF <==> p[j as int] == den,
        solution.value_of(j) >= HALF <==> p[j as int] == den,
{
    lemma_binary(g, roots, objective, vars, lp, p, den, j);
    let v = solution.value_of(j) as int;
    let x = p[j as int];
    assert(lp.cols[j as int].integral);
    if x == den {
        assert(v > 500_000) by (nonlinear_arith)
            requires
                2 * (x * 1_000_000 - v * den) < 1_000_000 * den,
                x == den,
                den > 0,
        ;
    } else {
        assert(v < 500_000) by (nonlinear_arith)
            requires
                2 * (v * den - x * 1_000_000) < 1_000_000 * den,
                x == 0,
                den > 0,
        ;
    }
}

/// Every feasible point of the model is a valid extraction: reading its
/// binaries, even ones that a solver has left up to one half off, gives a
/// complete acyclic choice for the roots.
pub proof fn feasible_is_valid(
    g: EGraph,
    roots: Seq<ClassId>,
    objective: IlpObjective,
    vars: IlpVars,
    lp: Lp,
    p: Seq<int>,
    den: int,
    solution: MilpSolution,
    sel: Map<ClassId, NodeId>,
)
    requires
        g.wf(),
        roots_known(g, roots),
        is_model(g, roots, objective, vars, lp),
        feasible(lp, p, den),
        rounds_to(lp, solution, p, den),
        is_decoding(g, vars.classes@, solution, sel),
    ensures
        valid(g, sel, roots),
{
    let n = g.classes@.len();
    let on = Set::new(|c: ClassId| c < n && on_at(vars, p, den, c as int));
    assert forall|c: ClassId| #[trigger] sel.contains_key(c) implies sel[c] < g.nodes@.len()
        && g.nodes@[sel[c] as int].eclass == c by {
        lemma_decoded(g, roots, objective, vars, lp, p, den, solution, sel, c);
        let k = choose|k: int| #[trigger]
            is_member(g, c as int, k) && sel[c] == member(g, c as int, k)
                && p[vars.classes@[c as int].nodes@[k] as int] == den;
        lemma_member(g, c as int, k);
    }
    assert forall|r: ClassId| #[trigger] roots.contains(r) implies on.contains(r) by {
        let i = choose|i: int| 0 <= i < roots.len() && roots[i] == r;
        assert(roots[i] < n);
        let a = vars.classes@[r as int].active;
        assert(vars.roles@[a as int] == Role::Active(r));
        let col = lp.cols[a as int];
        assert(col == col_of(g, roots, objective, vars.roles@[a as int]));
        assert(within(col.lower, col.upper, p[a as int] * ONE, den));
        lemma_binary(g, roots, objective, vars, lp, p, den, a);
        assert(ONE * den <= p[a as int] * ONE);
    }
    assert forall|a: ClassId, b: ClassId|
        on.contains(a) && #[trigger] edge(g, sel, a, b) implies on.contains(b) && p[vars.cycles.levels@[a as int] as int]
        + den <= p[vars.cycles.levels@[b as int] as int] by {
        lemma_decoded(g, roots, objective, vars, lp, p, den, solution, sel, a);
        let k = choose|k: int| #[trigger]
            is_member(g, a as int, k) && sel[a] == member(g, a as int, k)
                && p[vars.classes@[a as int].nodes@[k] as int] == den;
        lemma_pick_needs(g, roots, objective, vars, lp, p, den, a as int, k, b);
        lemma_level_rises(g, roots, objective, vars, lp, p, den, a as int, k, b);
    }
    assert forall|c: ClassId| #[trigger] reaches(g, sel, roots, c) implies on.contains(c) by {
        selection::lemma_reaches_closed(g, sel, roots, on, c);
    }
    assert forall|c: ClassId| #[trigger] reaches(g, sel, roots, c) implies sel.contains_key(c) by {
        assert(on.contains(c));
        lemma_decoded(g, roots, objective, vars, lp, p, den, solution, sel, c);
    }
    let top = top_level(vars, p, n);
    let rank = Map::total(|c: ClassId| (top - p[vars.cycles.levels@[c as int] as int]) as nat);
    assert forall|a: ClassId, b: ClassId|
        reaches(g, sel, roots, a) && #[trigger] edge(g, sel, a, b) implies Seq::<
        ClassId,
    >::empty().contains(b) || rank[b] < rank[a] by {
        assert(on.contains(a));
        assert(on.contains(b));
        lemma_top_level(vars, p, n, a as int);
        lemma_top_level(vars, p, n, b as int);
    }
    assert(ranked(g, sel, roots, rank));
}

} // verus!
