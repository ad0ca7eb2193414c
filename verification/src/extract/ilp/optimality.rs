//! What minimising over the model's points means for the extractions.
use crate::cost::{
    is_weight, plus, product, product_is_exact, saturate, Cost, INFINITY, MINUS_ONE, ONE,
};
use crate::egraph::{ClassId, EGraph, NodeId};
use crate::extract::ilp::decode::is_decoding;
use crate::extract::ilp::model::{
    after_row, cap_of, col_of, depth_row, is_handle, is_member, is_model, leaf_row, lemma_member,
    member, root_row, roots_row, timing_row, IlpVars, Role,
};
use crate::extract::ilp::objective::IlpObjective;
use crate::extract::ilp::seeding::{
    arrival_is_at_most_total, figures_fit, is_seeding, seed_is_feasible, start_point, weights_valid,
};
use crate::extract::ilp::soundness::{
    feasible_is_valid, lemma_decoded, lemma_level_rises, lemma_model_row_holds, lemma_sum_three,
    lemma_sum_two, rounds_to,
};
use crate::extract::ilp::warm::{
    cap_in, latest_of, levels_rise, seed_value, seeded_pick, starts_from,
};
use crate::extract::measure::{lemma_reached_known, lemma_roots_of_valid};
use crate::extract::selection;
use crate::extract::selection::{
    arrival, dag_depth_of, dag_size, edge, infinite_below, is_timing, latest_child, latest_root,
    ranked, reaches, roots_known, size_below, timing, valid, NEG_LIMIT,
};
use crate::milp::point::{distinct_cols, feasible, lemma_row_of, row_of, within};
use crate::milp::stage::{Col, Lp};
use crate::milp::MilpSolution;
use crate::sums::{
    lemma_part_below, lemma_part_empty, lemma_part_insert, lemma_part_whole, lemma_zero_product,
    part_of, total_of,
};
use vstd::prelude::*;

verus! {

// ---------------------------------------------------------------------------
// Depth
// ---------------------------------------------------------------------------

/// A selected node's class arrives at the node's depth at least, and at its
/// depth after each of its children.
proof fn lemma_arrival_row(
    g: EGraph,
    roots: Seq<ClassId>,
    objective: IlpObjective,
    vars: IlpVars,
    lp: Lp,
    p: Seq<int>,
    den: int,
    c: int,
    k: int,
)
    requires
        g.wf(),
        weights_valid(g),
        is_model(g, roots, objective, vars, lp),
        vars.depth is Some,
        feasible(lp, p, den),
        is_member(g, c, k),
        p[vars.classes@[c].nodes@[k] as int] == den,
    ensures
        ({
            let d = vars.depth->0;
            let n = member(g, c, k);
            let t = p[d.arrival@[c] as int];
            &&& g.nodes@[n as int].delay * den <= t * 1_000_000
            &&& forall|cc: ClassId| #[trigger]
                g.depends(n, cc) ==> g.nodes@[n as int].delay * den + p[d.arrival@[cc as int] as int]
                    * 1_000_000 <= t * 1_000_000
        }),
{
    let d = vars.depth->0;
    let n = member(g, c, k);
    let t = d.arrival@[c];
    let x = vars.classes@[c].nodes@[k];
    let m = d.big_m;
    let off = (-m) as Cost;
    let delay = g.nodes@[n as int].delay;
    let classes = vars.classes@;
    lemma_member(g, c, k);
    assert(is_weight(delay));
    assert(m > 0);
    vstd::std_specs::vec::axiom_spec_len(&g.classes);
    assert(vars.roles@[x as int] == Role::Pick(c as ClassId, k as usize));
    assert(vars.roles@[t as int] == Role::Arrival(c as ClassId));
    let lower = crate::cost::minus(delay, m);
    assert(lower == delay - m);
    assert((delay - m) * den == delay * den - m * den) by (nonlinear_arith);
    assert((-m) * den == -(m * den)) by (nonlinear_arith);
    if g.nodes@[n as int].children@.len() == 0 {
        let coeffs = seq![(t, ONE), (x, off)];
        let row = row_of(lower, INFINITY, coeffs);
        assert(leaf_row(g, classes, d.arrival@, m, c, k, row));
        assert(timing_row(g, classes, d.arrival@, m, c, row));
        assert(depth_row(g, roots, classes, d, row));
        lemma_model_row_holds(g, roots, objective, vars, lp, p, den, row);
        assert(distinct_cols(coeffs, lp.cols.len()));
        lemma_row_of(lower, INFINITY, coeffs, p, den);
        lemma_sum_two(coeffs, p);
        assert(coeffs[1].1 * p[x as int] == (-m) * den);
        assert(coeffs[0].1 * p[t as int] == 1_000_000 * p[t as int]);
    }
    assert forall|cc: ClassId| #[trigger] g.depends(n, cc) implies delay * den + p[d.arrival@[cc as int] as int]
        * 1_000_000 <= p[t as int] * 1_000_000 by {
        lemma_level_rises(g, roots, objective, vars, lp, p, den, c, k, cc);
        let tt = d.arrival@[cc as int];
        assert(vars.roles@[tt as int] == Role::Arrival(cc));
        let coeffs = seq![(t, ONE), (tt, MINUS_ONE), (x, off)];
        let row = row_of(lower, INFINITY, coeffs);
        assert(after_row(g, classes, d.arrival@, m, c, k, cc, row));
        assert(timing_row(g, classes, d.arrival@, m, c, row));
        assert(depth_row(g, roots, classes, d, row));
        lemma_model_row_holds(g, roots, objective, vars, lp, p, den, row);
        assert(distinct_cols(coeffs, lp.cols.len()));
        lemma_row_of(lower, INFINITY, coeffs, p, den);
        lemma_sum_three(coeffs, p);
        assert(coeffs[2].1 * p[x as int] == (-m) * den);
        assert(coeffs[0].1 * p[t as int] == 1_000_000 * p[t as int]);
        assert(coeffs[1].1 * p[tt as int] == -1_000_000 * p[tt as int]);
    }
    if g.nodes@[n as int].children@.len() > 0 {
        let cc = g.child_class(n, 0);
        assert(g.depends(n, cc));
        g.lemma_depends(n, cc);
        lemma_arrival_col(g, roots, objective, vars, lp, p, den, cc as int);
    }
}

/// An arrival column lies between zero and the cap.
proof fn lemma_arrival_col(
    g: EGraph,
    roots: Seq<ClassId>,
    objective: IlpObjective,
    vars: IlpVars,
    lp: Lp,
    p: Seq<int>,
    den: int,
    c: int,
)
    requires
        is_model(g, roots, objective, vars, lp),
        vars.depth is Some,
        feasible(lp, p, den),
        0 <= c < g.classes@.len(),
    ensures
        ({
            let cap = cap_of(g, objective.limit());
            let t = p[vars.depth->0.arrival@[c] as int];
            &&& 0 <= t
            &&& cap != INFINITY ==> t * 1_000_000 <= cap * den
        }),
{
    let t = vars.depth->0.arrival@[c];
    assert(vars.roles@[t as int] == Role::Arrival(c as ClassId));
    let col = lp.cols[t as int];
    assert(col == col_of(g, roots, objective, vars.roles@[t as int]));
    assert(within(col.lower, col.upper, p[t as int] * ONE, den));
    lemma_zero_product(den, 0);
    assert(0 * den == 0);
}

proof fn lemma_latest_scaled(
    g: EGraph,
    ts: Map<ClassId, Cost>,
    n: NodeId,
    k: nat,
    den: int,
    bound: int,
)
    requires
        den > 0,
        bound >= 0,
        forall|j: int| 0 <= j < k ==> ts[#[trigger] g.child_class(n, j)] * den <= bound,
    ensures
        latest_child(g, ts, n, k) * den <= bound,
        0 <= latest_child(g, ts, n, k),
    decreases k,
{
    if k > 0 {
        lemma_latest_scaled(g, ts, n, (k - 1) as nat, den, bound);
        let b = g.child_class(n, k - 1);
        assert(ts[b] * den <= bound);
    } else {
        assert(0 * den == 0) by (nonlinear_arith);
    }
}

/// At a feasible point no class below the roots is timed before it arrives.
proof fn lemma_times_cover(
    g: EGraph,
    roots: Seq<ClassId>,
    objective: IlpObjective,
    vars: IlpVars,
    lp: Lp,
    p: Seq<int>,
    den: int,
    solution: MilpSolution,
    sel: Map<ClassId, NodeId>,
    rank: Map<ClassId, nat>,
    ts: Map<ClassId, Cost>,
    c: ClassId,
)
    requires
        g.wf(),
        weights_valid(g),
        roots_known(g, roots),
        is_model(g, roots, objective, vars, lp),
        vars.depth is Some,
        feasible(lp, p, den),
        rounds_to(lp, solution, p, den),
        is_decoding(g, vars.classes@, solution, sel),
        valid(g, sel, roots),
        ranked(g, sel, roots, rank),
        is_timing(g, sel, roots, ts),
        reaches(g, sel, roots, c),
    ensures
        ts[c] * den <= p[vars.depth->0.arrival@[c as int] as int] * 1_000_000,
        0 <= ts[c],
    decreases rank[c],
{
    let d = vars.depth->0;
    let n = sel[c];
    assert(sel.contains_key(c));
    lemma_reached_known(g, sel, roots, c);
    lemma_decoded(g, roots, objective, vars, lp, p, den, solution, sel, c);
    let k = choose|k: int| #[trigger]
        is_member(g, c as int, k) && sel[c] == member(g, c as int, k)
            && p[vars.classes@[c as int].nodes@[k] as int] == den;
    lemma_member(g, c as int, k);
    lemma_arrival_row(g, roots, objective, vars, lp, p, den, c as int, k);
    let delay = g.nodes@[n as int].delay;
    assert(is_weight(delay));
    let t = p[d.arrival@[c as int] as int];
    let bound = t * 1_000_000 - delay * den;
    let kk = g.nodes@[n as int].children@.len();
    assert forall|j: int| 0 <= j < kk implies ts[#[trigger] g.child_class(n, j)] * den
        <= bound by {
        let b = g.child_class(n, j);
        assert(g.depends(n, b));
        assert(edge(g, sel, c, b));
        selection::lemma_reaches_step(g, sel, roots, c, b);
        lemma_times_cover(g, roots, objective, vars, lp, p, den, solution, sel, rank, ts, b);
    }
    lemma_latest_scaled(g, ts, n, kk, den, bound);
    let latest = latest_child(g, ts, n, kk);
    assert(ts[c] == plus(delay, latest));
    assert(ts[c] <= delay + latest);
    assert(ts[c] * den <= (delay + latest) * den) by (nonlinear_arith)
        requires
            ts[c] <= delay + latest,
            den > 0,
    ;
    assert((delay + latest) * den == delay * den + latest * den) by (nonlinear_arith);
}

/// The depth of what a feasible point decodes to is under the cap of the
/// arrival times.
pub proof fn feasible_is_within_cap(
    g: EGraph,
    roots: Seq<ClassId>,
    objective: IlpObjective,
    vars: IlpVars,
    lp: Lp,
    p: Seq<int>,
    den: int,
    solution: MilpSolution,
    sel: Map<ClassId, NodeId>,
)
    requires
        g.wf(),
        weights_valid(g),
        roots_known(g, roots),
        is_model(g, roots, objective, vars, lp),
        objective != IlpObjective::Size,
        feasible(lp, p, den),
        rounds_to(lp, solution, p, den),
        is_decoding(g, vars.classes@, solution, sel),
    ensures
        valid(g, sel, roots),
        dag_depth_of(g, sel, roots) <= cap_of(g, objective.limit()),
        forall|c: ClassId| #[trigger]
            reaches(g, sel, roots, c) ==> timing(g, sel, roots)[c] <= cap_of(
                g,
                objective.limit(),
            ),
{
    feasible_is_valid(g, roots, objective, vars, lp, p, den, solution, sel);
    selection::timing_exists(g, sel, roots);
    let ts = timing(g, sel, roots);
    let rank = choose|rank: Map<ClassId, nat>| ranked(g, sel, roots, rank);
    let cap = cap_of(g, objective.limit());
    assert forall|c: ClassId| #[trigger] reaches(g, sel, roots, c) implies ts[c] <= cap by {
        lemma_roots_of_valid(g, sel, roots);
        lemma_reached_known(g, sel, roots, c);
        lemma_times_cover(g, roots, objective, vars, lp, p, den, solution, sel, rank, ts, c);
        lemma_arrival_col(g, roots, objective, vars, lp, p, den, c as int);
        if cap != INFINITY {
            assert(ts[c] <= cap) by (nonlinear_arith)
                requires
                    ts[c] * den <= cap * den,
                    den > 0,
            ;
        }
    }
    lemma_latest_root_below(g, sel, roots, ts, cap, roots.len());
}

proof fn lemma_latest_root_below(
    g: EGraph,
    sel: Map<ClassId, NodeId>,
    roots: Seq<ClassId>,
    ts: Map<ClassId, Cost>,
    cap: Cost,
    k: nat,
)
    requires
        k <= roots.len(),
        forall|c: ClassId| #[trigger] reaches(g, sel, roots, c) ==> ts[c] <= cap,
    ensures
        latest_root(roots, ts, NEG_LIMIT, k) <= cap,
    decreases k,
{
    if k > 0 {
        lemma_latest_root_below(g, sel, roots, ts, cap, (k - 1) as nat);
        let r = roots[k - 1];
        assert(roots.contains(r));
        selection::lemma_reaches_root(g, sel, roots, r);
    }
}

/// With a depth budget, every feasible point is an extraction that meets it.
pub proof fn budget_is_met(
    g: EGraph,
    roots: Seq<ClassId>,
    objective: IlpObjective,
    budget: Cost,
    vars: IlpVars,
    lp: Lp,
    p: Seq<int>,
    den: int,
    solution: MilpSolution,
    sel: Map<ClassId, NodeId>,
)
    requires
        g.wf(),
        weights_valid(g),
        roots_known(g, roots),
        objective.limit() == Some(budget),
        budget >= 0,
        is_model(g, roots, objective, vars, lp),
        feasible(lp, p, den),
        rounds_to(lp, solution, p, den),
        is_decoding(g, vars.classes@, solution, sel),
    ensures
        valid(g, sel, roots),
        dag_depth_of(g, sel, roots) <= budget,
{
    feasible_is_within_cap(g, roots, objective, vars, lp, p, den, solution, sel);
}

// ---------------------------------------------------------------------------
// The objective
// ---------------------------------------------------------------------------

/// What column `j` adds to the objective at the point `p`.
pub open spec fn objective_term(lp: Lp, p: Seq<int>) -> spec_fn(int) -> int {
    |j: int| lp.cols[j].cost * p[j]
}

/// The objective at the point `p`.
pub open spec fn objective_at(lp: Lp, p: Seq<int>) -> int {
    total_of(objective_term(lp, p), lp.cols.len())
}

/// The weighted sizes of the nodes chosen for those of the first `n` classes
/// that are below the roots.
pub open spec fn priced_below(
    g: EGraph,
    size_weight: Cost,
    sel: Map<ClassId, NodeId>,
    roots: Seq<ClassId>,
    n: nat,
) -> int
    decreases n,
{
    if n == 0 {
        0
    } else {
        let c = (n - 1) as ClassId;
        priced_below(g, size_weight, sel, roots, (n - 1) as nat) + (if reaches(g, sel, roots, c) {
            product(size_weight, g.nodes@[sel[c] as int].cost) as int
        } else {
            0
        })
    }
}

/// What the model minimises, of an extraction, in millionths of millionths:
/// its weighted size and its weighted depth.
pub open spec fn model_value(
    g: EGraph,
    objective: IlpObjective,
    sel: Map<ClassId, NodeId>,
    roots: Seq<ClassId>,
) -> int {
    let (size_weight, depth_weight) = objective.weighting();
    priced_below(g, size_weight, sel, roots, g.classes@.len()) + depth_weight * dag_depth_of(
        g,
        sel,
        roots,
    )
}

/// The weights of the objective are not negative.
pub open spec fn weighting_valid(objective: IlpObjective) -> bool {
    is_weight(objective.weighting().0) && is_weight(objective.weighting().1)
}

/// The column of the node chosen for class `c`.
spec fn chosen_col(g: EGraph, vars: IlpVars, sel: Map<ClassId, NodeId>, c: ClassId) -> Col {
    let k = choose|k: int| #[trigger] is_member(g, c as int, k) && member(g, c as int, k) == sel[c];
    vars.classes@[c as int].nodes@[k]
}

/// The columns of the nodes chosen for those of the first `n` classes that are
/// below the roots.
spec fn chosen_cols(
    g: EGraph,
    vars: IlpVars,
    sel: Map<ClassId, NodeId>,
    roots: Seq<ClassId>,
    n: nat,
) -> Set<int> {
    Set::new(
        |j: int|
            exists|c: ClassId|
                c < n && #[trigger] reaches(g, sel, roots, c) && chosen_col(g, vars, sel, c)
                    as int == j,
    )
}

/// Member positions of a class are told apart by their nodes.
proof fn lemma_member_unique(g: EGraph, c: int, k: int, q: int)
    requires
        g.wf(),
        is_member(g, c, k),
        is_member(g, c, q),
        member(g, c, k) == member(g, c, q),
    ensures
        k == q,
{
    let list = g.classes@[c].nodes@;
    assert(crate::egraph::lists_members(g.nodes@, c, list));
    if k < q {
        assert(list[k] < list[q]);
    } else if q < k {
        assert(list[q] < list[k]);
    }
}

/// The chosen column stands for the chosen node.
proof fn lemma_chosen_col(
    g: EGraph,
    roots: Seq<ClassId>,
    objective: IlpObjective,
    vars: IlpVars,
    lp: Lp,
    sel: Map<ClassId, NodeId>,
    c: ClassId,
) -> (k: int)
    requires
        g.wf(),
        is_model(g, roots, objective, vars, lp),
        valid(g, sel, roots),
        reaches(g, sel, roots, c),
    ensures
        is_member(g, c as int, k),
        member(g, c as int, k) == sel[c],
        chosen_col(g, vars, sel, c) == vars.classes@[c as int].nodes@[k],
        chosen_col(g, vars, sel, c) < lp.cols.len(),
        vars.roles@[chosen_col(g, vars, sel, c) as int] == Role::Pick(c, k as usize),
        lp.cols[chosen_col(g, vars, sel, c) as int].cost == product(
            objective.weighting().0,
            g.nodes@[sel[c] as int].cost,
        ),
{
    assert(sel.contains_key(c));
    let n = sel[c];
    let list = g.classes@[c as int].nodes@;
    assert(g.nodes@[n as int].eclass < g.classes@.len());
    assert(crate::egraph::lists_members(g.nodes@, c as int, list));
    assert(list.contains(n));
    let q = choose|q: int| 0 <= q < list.len() && list[q] == n;
    assert(is_member(g, c as int, q) && member(g, c as int, q) == sel[c]);
    let k = choose|k: int| #[trigger] is_member(g, c as int, k) && member(g, c as int, k) == sel[c];
    vstd::std_specs::vec::axiom_spec_len(&g.classes@[c as int].nodes);
    let col = vars.classes@[c as int].nodes@[k];
    assert(vars.roles@[col as int] == Role::Pick(c, k as usize));
    assert(lp.cols[col as int] == col_of(g, roots, objective, vars.roles@[col as int]));
    k
}

/// The chosen columns alone add up to the weighted size, where each is `den`.
proof fn lemma_chosen_sum(
    g: EGraph,
    roots: Seq<ClassId>,
    objective: IlpObjective,
    vars: IlpVars,
    lp: Lp,
    p: Seq<int>,
    den: int,
    sel: Map<ClassId, NodeId>,
    n: nat,
)
    requires
        g.wf(),
        is_model(g, roots, objective, vars, lp),
        valid(g, sel, roots),
        n <= g.classes@.len(),
        forall|c: ClassId| #[trigger]
            reaches(g, sel, roots, c) ==> p[chosen_col(g, vars, sel, c) as int] == den,
    ensures
        part_of(
            objective_term(lp, p),
            chosen_cols(g, vars, sel, roots, n),
            lp.cols.len(),
        ) == priced_below(g, objective.weighting().0, sel, roots, n) * den,
    decreases n,
{
    let w = objective_term(lp, p);
    let size_weight = objective.weighting().0;
    if n == 0 {
        assert(chosen_cols(g, vars, sel, roots, 0) =~= Set::empty());
        lemma_part_empty(w, lp.cols.len());
        assert(0 * den == 0) by (nonlinear_arith);
    } else {
        let m = (n - 1) as nat;
        lemma_chosen_sum(g, roots, objective, vars, lp, p, den, sel, m);
        vstd::std_specs::vec::axiom_spec_len(&g.classes);
        let c = m as ClassId;
        let before = chosen_cols(g, vars, sel, roots, m);
        let after = chosen_cols(g, vars, sel, roots, n);
        let sum = priced_below(g, size_weight, sel, roots, m);
        if reaches(g, sel, roots, c) {
            let col = chosen_col(g, vars, sel, c);
            let k = lemma_chosen_col(g, roots, objective, vars, lp, sel, c);
            assert(!before.contains(col as int)) by {
                if before.contains(col as int) {
                    let b = choose|b: ClassId|
                        b < m && #[trigger] reaches(g, sel, roots, b) && chosen_col(
                            g,
                            vars,
                            sel,
                            b,
                        ) as int == col as int;
                    let q = lemma_chosen_col(g, roots, objective, vars, lp, sel, b);
                    assert(vars.roles@[col as int] == Role::Pick(b, q as usize));
                }
            }
            assert(after =~= before.insert(col as int)) by {
                assert forall|j: int| after.contains(j) <==> before.insert(col as int).contains(
                    j,
                ) by {
                    if after.contains(j) {
                        let b = choose|b: ClassId|
                            b < n && #[trigger] reaches(g, sel, roots, b) && chosen_col(
                                g,
                                vars,
                                sel,
                                b,
                            ) as int == j;
                        if b != c {
                            assert(b < m && reaches(g, sel, roots, b));
                        }
                    }
                    if before.contains(j) {
                        let b = choose|b: ClassId|
                            b < m && #[trigger] reaches(g, sel, roots, b) && chosen_col(
                                g,
                                vars,
                                sel,
                                b,
                            ) as int == j;
                        assert(b < n && reaches(g, sel, roots, b));
                    }
                    if j == col as int {
                        assert(c < n && reaches(g, sel, roots, c));
                    }
                }
            }
            lemma_part_insert(w, before, col as int, lp.cols.len());
            let term = product(size_weight, g.nodes@[sel[c] as int].cost) as int;
            assert(w(col as int) == term * den);
            assert((sum + term) * den == sum * den + term * den) by (nonlinear_arith);
        } else {
            assert(after =~= before) by {
                assert forall|j: int| after.contains(j) <==> before.contains(j) by {
                    if after.contains(j) {
                        let b = choose|b: ClassId|
                            b < n && #[trigger] reaches(g, sel, roots, b) && chosen_col(
                                g,
                                vars,
                                sel,
                                b,
                            ) as int == j;
                        assert(b < m && reaches(g, sel, roots, b));
                    }
                    if before.contains(j) {
                        let b = choose|b: ClassId|
                            b < m && #[trigger] reaches(g, sel, roots, b) && chosen_col(
                                g,
                                vars,
                                sel,
                                b,
                            ) as int == j;
                        assert(b < n && reaches(g, sel, roots, b));
                    }
                }
            }
        }
    }
}

proof fn lemma_product_non_negative(a: Cost, b: Cost)
    requires
        a >= 0,
        b >= 0,
    ensures
        product(a, b) >= 0,
{
    product_is_exact(a, b);
    assert((a as int) * (b as int) >= 0) by (nonlinear_arith)
        requires
            a >= 0,
            b >= 0,
    ;
}

/// No column takes anything away from the objective of a feasible point.
proof fn lemma_terms_non_negative(
    g: EGraph,
    roots: Seq<ClassId>,
    objective: IlpObjective,
    vars: IlpVars,
    lp: Lp,
    p: Seq<int>,
    den: int,
    j: int,
)
    requires
        g.wf(),
        weights_valid(g),
        weighting_valid(objective),
        is_model(g, roots, objective, vars, lp),
        feasible(lp, p, den),
        0 <= j < lp.cols.len(),
    ensures
        objective_term(lp, p)(j) >= 0,
        p[j] >= 0,
{
    let col = lp.cols[j];
    assert(col == col_of(g, roots, objective, vars.roles@[j]));
    assert(is_handle(g, vars, j));
    assert(within(col.lower, col.upper, p[j] * ONE, den));
    if let Role::Pick(c, k) = vars.roles@[j] {
        lemma_member(g, c as int, k as int);
        let n = member(g, c as int, k as int);
        assert(is_weight(g.nodes@[n as int].cost));
        lemma_product_non_negative(objective.weighting().0, g.nodes@[n as int].cost);
    }
    assert(col.cost >= 0);
    assert(col.lower >= 0);
    assert(p[j] >= 0) by (nonlinear_arith)
        requires
            col.lower * den <= p[j] * 1_000_000,
            col.lower >= 0,
            den > 0,
    ;
    let cost = col.cost as int;
    let x = p[j];
    assert(cost * x >= 0) by (nonlinear_arith)
        requires
            cost >= 0,
            x >= 0,
    ;
}

/// The objective of a feasible point is no less than what the extraction it
/// decodes to is worth.
pub proof fn objective_bounds_value(
    g: EGraph,
    roots: Seq<ClassId>,
    objective: IlpObjective,
    vars: IlpVars,
    lp: Lp,
    p: Seq<int>,
    den: int,
    solution: MilpSolution,
    sel: Map<ClassId, NodeId>,
)
    requires
        g.wf(),
        weights_valid(g),
        weighting_valid(objective),
        roots_known(g, roots),
        is_model(g, roots, objective, vars, lp),
        feasible(lp, p, den),
        rounds_to(lp, solution, p, den),
        is_decoding(g, vars.classes@, solution, sel),
    ensures
        valid(g, sel, roots),
        model_value(g, objective, sel, roots) * den <= objective_at(lp, p),
{
    feasible_is_valid(g, roots, objective, vars, lp, p, den, solution, sel);
    let w = objective_term(lp, p);
    let (size_weight, depth_weight) = objective.weighting();
    let n = g.classes@.len();
    let cols = chosen_cols(g, vars, sel, roots, n);
    lemma_roots_of_valid(g, sel, roots);
    assert forall|c: ClassId| #[trigger] reaches(g, sel, roots, c) implies p[chosen_col(
        g,
        vars,
        sel,
        c,
    ) as int] == den by {
        lemma_reached_known(g, sel, roots, c);
        lemma_decoded(g, roots, objective, vars, lp, p, den, solution, sel, c);
        assert(sel.contains_key(c));
        let q = choose|q: int| #[trigger]
            is_member(g, c as int, q) && sel[c] == member(g, c as int, q)
                && p[vars.classes@[c as int].nodes@[q] as int] == den;
        let k = lemma_chosen_col(g, roots, objective, vars, lp, sel, c);
        lemma_member_unique(g, c as int, k, q);
    }
    lemma_chosen_sum(g, roots, objective, vars, lp, p, den, sel, n);
    assert forall|j: int| 0 <= j < lp.cols.len() implies #[trigger] w(j) >= 0 by {
        lemma_terms_non_negative(g, roots, objective, vars, lp, p, den, j);
    }
    let priced = priced_below(g, size_weight, sel, roots, n);
    let depth = dag_depth_of(g, sel, roots) as int;
    let dw = depth_weight as int;
    let scaled = priced * den;
    let weighted = dw * depth;
    let obj = objective_at(lp, p);
    assert((priced + weighted) * den == scaled + weighted * den) by (nonlinear_arith)
        requires
            scaled == priced * den,
    ;
    if depth_weight == 0 {
        lemma_part_below(w, cols, lp.cols.len());
        assert(scaled <= obj);
        assert(weighted == 0 && weighted * den == 0) by (nonlinear_arith)
            requires
                dw == 0,
                weighted == dw * depth,
        ;
    } else {
        let d = vars.depth->0;
        assert(d.root_depth is Some);
        let t = d.root_depth->0;
        assert(vars.roles@[t as int] == Role::RootDepth);
        assert(!cols.contains(t as int)) by {
            if cols.contains(t as int) {
                let c = choose|c: ClassId|
                    c < n && #[trigger] reaches(g, sel, roots, c) && chosen_col(
                        g,
                        vars,
                        sel,
                        c,
                    ) as int == t as int;
                let k = lemma_chosen_col(g, roots, objective, vars, lp, sel, c);
            }
        }
        lemma_part_insert(w, cols, t as int, lp.cols.len());
        lemma_part_below(w, cols.insert(t as int), lp.cols.len());
        lemma_root_depth_covers(g, roots, objective, vars, lp, p, den, solution, sel);
        assert(lp.cols[t as int] == col_of(g, roots, objective, vars.roles@[t as int]));
        let x = p[t as int];
        let term = dw * 1_000_000 * x;
        assert(w(t as int) == term);
        assert(scaled + term <= obj);
        assert(weighted * den <= term) by (nonlinear_arith)
            requires
                depth * den <= x * 1_000_000,
                dw >= 0,
                weighted == dw * depth,
                term == dw * 1_000_000 * x,
        ;
    }
    assert(model_value(g, objective, sel, roots) == priced + weighted);
}

/// The column of the roots' depth is no less than the depth.
proof fn lemma_root_depth_covers(
    g: EGraph,
    roots: Seq<ClassId>,
    objective: IlpObjective,
    vars: IlpVars,
    lp: Lp,
    p: Seq<int>,
    den: int,
    solution: MilpSolution,
    sel: Map<ClassId, NodeId>,
)
    requires
        g.wf(),
        weights_valid(g),
        roots_known(g, roots),
        is_model(g, roots, objective, vars, lp),
        vars.depth is Some,
        vars.depth->0.root_depth is Some,
        feasible(lp, p, den),
        rounds_to(lp, solution, p, den),
        is_decoding(g, vars.classes@, solution, sel),
        valid(g, sel, roots),
    ensures
        dag_depth_of(g, sel, roots) * den <= p[vars.depth->0.root_depth->0 as int] * 1_000_000,
{
    let d = vars.depth->0;
    let t = d.root_depth->0;
    selection::timing_exists(g, sel, roots);
    let ts = timing(g, sel, roots);
    let rank = choose|rank: Map<ClassId, nat>| ranked(g, sel, roots, rank);
    assert(vars.roles@[t as int] == Role::RootDepth);
    let col = lp.cols[t as int];
    assert(col == col_of(g, roots, objective, vars.roles@[t as int]));
    assert(within(col.lower, col.upper, p[t as int] * ONE, den));
    assert(0 * den == 0) by (nonlinear_arith);
    assert forall|i: int| 0 <= i < roots.len() implies ts[#[trigger] roots[i]] * den <= p[t as int]
        * 1_000_000 by {
        let r = roots[i];
        assert(roots.contains(r));
        selection::lemma_reaches_root(g, sel, roots, r);
        lemma_times_cover(g, roots, objective, vars, lp, p, den, solution, sel, rank, ts, r);
        let tr = d.arrival@[r as int];
        assert(vars.roles@[tr as int] == Role::Arrival(r));
        let coeffs = seq![(t, ONE), (tr, MINUS_ONE)];
        let row = row_of(0, INFINITY, coeffs);
        assert(root_row(roots, d.arrival@, t, i, row));
        assert(roots_row(roots, d.arrival@, t, row));
        assert(depth_row(g, roots, vars.classes@, d, row));
        lemma_model_row_holds(g, roots, objective, vars, lp, p, den, row);
        assert(distinct_cols(coeffs, lp.cols.len()));
        lemma_row_of(0, INFINITY, coeffs, p, den);
        lemma_sum_two(coeffs, p);
        assert(coeffs[0].1 * p[t as int] == 1_000_000 * p[t as int]);
        assert(coeffs[1].1 * p[tr as int] == -1_000_000 * p[tr as int]);
    }
    if roots.len() > 0 {
        lemma_latest_root_scaled(roots, ts, den, p[t as int] * 1_000_000, roots.len());
    }
}

proof fn lemma_latest_root_scaled(
    roots: Seq<ClassId>,
    ts: Map<ClassId, Cost>,
    den: int,
    bound: int,
    k: nat,
)
    requires
        0 < k <= roots.len(),
        den > 0,
        forall|i: int| 0 <= i < roots.len() ==> ts[#[trigger] roots[i]] * den <= bound,
    ensures
        latest_root(roots, ts, NEG_LIMIT, k) * den <= bound,
    decreases k,
{
    let r = roots[k - 1];
    assert(ts[r] * den <= bound);
    if k > 1 {
        lemma_latest_root_scaled(roots, ts, den, bound, (k - 1) as nat);
    } else {
        assert(latest_root(roots, ts, NEG_LIMIT, 0) == NEG_LIMIT);
    }
}

// ---------------------------------------------------------------------------
// Seeds
// ---------------------------------------------------------------------------

/// The objective of a seed is what the extraction is worth.
pub proof fn seed_attains_value(
    g: EGraph,
    roots: Seq<ClassId>,
    objective: IlpObjective,
    vars: IlpVars,
    lp: Lp,
    sel: Map<ClassId, NodeId>,
    levels: Map<ClassId, usize>,
    ts: Map<ClassId, Cost>,
    start: Map<Col, Cost>,
)
    requires
        is_seeding(g, roots, objective, vars, lp, sel, levels, ts, start),
    ensures
        objective_at(lp, start_point(lp, start)) == model_value(g, objective, sel, roots) * ONE,
{
    let p = start_point(lp, start);
    let den = ONE as int;
    let w = objective_term(lp, p);
    let (size_weight, depth_weight) = objective.weighting();
    let n = g.classes@.len();
    let cols = chosen_cols(g, vars, sel, roots, n);
    lemma_roots_of_valid(g, sel, roots);
    assert forall|c: ClassId| #[trigger] reaches(g, sel, roots, c) implies p[chosen_col(
        g,
        vars,
        sel,
        c,
    ) as int] == den by {
        let k = lemma_chosen_col(g, roots, objective, vars, lp, sel, c);
        assert(sel.contains_key(c));
        let col = chosen_col(g, vars, sel, c);
        vstd::std_specs::vec::axiom_spec_len(&g.classes@[c as int].nodes);
        assert(start.contains_key(col));
        assert(seeded_pick(g, sel, roots, c, k as usize));
    }
    lemma_chosen_sum(g, roots, objective, vars, lp, p, den, sel, n);
    let priced = priced_below(g, size_weight, sel, roots, n);
    let depth = dag_depth_of(g, sel, roots);
    // Columns that are neither chosen nor the roots' depth add nothing.
    assert forall|j: int|
        0 <= j < lp.cols.len() && !cols.contains(j)
            && !(vars.roles@[j] is RootDepth) implies #[trigger] w(j) == 0 by {
        assert(lp.cols[j] == col_of(g, roots, objective, vars.roles@[j]));
        assert(is_handle(g, vars, j));
        assert(start.contains_key(j as Col));
        if let Role::Pick(c, k) = vars.roles@[j] {
            if seeded_pick(g, sel, roots, c, k) {
                let q = lemma_chosen_col(g, roots, objective, vars, lp, sel, c);
                lemma_member_unique(g, c as int, k as int, q);
                assert(c < n && reaches(g, sel, roots, c));
                assert(cols.contains(j));
            }
            assert(p[j] == 0);
            lemma_zero_product(lp.cols[j].cost as int, p[j]);
        } else {
            assert(lp.cols[j].cost == 0);
            lemma_zero_product(p[j], lp.cols[j].cost as int);
            assert(lp.cols[j].cost * p[j] == 0) by (nonlinear_arith)
                requires
                    lp.cols[j].cost == 0,
            ;
        }
    }
    if vars.depth is Some && vars.depth->0.root_depth is Some {
        let t = vars.depth->0.root_depth->0;
        assert(vars.roles@[t as int] == Role::RootDepth);
        assert(!cols.contains(t as int)) by {
            if cols.contains(t as int) {
                let c = choose|c: ClassId|
                    c < n && #[trigger] reaches(g, sel, roots, c) && chosen_col(
                        g,
                        vars,
                        sel,
                        c,
                    ) as int == t as int;
                let k = lemma_chosen_col(g, roots, objective, vars, lp, sel, c);
            }
        }
        lemma_part_insert(w, cols, t as int, lp.cols.len());
        assert forall|j: int|
            0 <= j < lp.cols.len() && !cols.insert(t as int).contains(j) implies #[trigger] w(j)
            == 0 by {
            assert(is_handle(g, vars, j));
        }
        lemma_part_whole(w, cols.insert(t as int), lp.cols.len());
        assert(lp.cols[t as int] == col_of(g, roots, objective, vars.roles@[t as int]));
        lemma_seed_depth(g, roots, objective, vars, lp, sel, levels, ts, start);
        assert(w(t as int) == depth_weight * ONE * depth);
        assert(depth_weight * ONE * depth == depth_weight * depth * ONE) by (nonlinear_arith);
    } else {
        assert forall|j: int| 0 <= j < lp.cols.len() && !cols.contains(j) implies #[trigger] w(j)
            == 0 by {
            assert(is_handle(g, vars, j));
        }
        lemma_part_whole(w, cols, lp.cols.len());
        assert(depth_weight == 0);
        assert(depth_weight * depth == 0) by (nonlinear_arith)
            requires
                depth_weight == 0,
        ;
    }
}

/// The column of the roots' depth starts at the depth.
proof fn lemma_seed_depth(
    g: EGraph,
    roots: Seq<ClassId>,
    objective: IlpObjective,
    vars: IlpVars,
    lp: Lp,
    sel: Map<ClassId, NodeId>,
    levels: Map<ClassId, usize>,
    ts: Map<ClassId, Cost>,
    start: Map<Col, Cost>,
)
    requires
        is_seeding(g, roots, objective, vars, lp, sel, levels, ts, start),
        vars.depth is Some,
        vars.depth->0.root_depth is Some,
    ensures
        start_point(lp, start)[vars.depth->0.root_depth->0 as int] == dag_depth_of(g, sel, roots),
{
    let t = vars.depth->0.root_depth->0;
    assert(vars.roles@[t as int] == Role::RootDepth);
    assert(start.contains_key(t));
    selection::lemma_timing_is(g, sel, roots, ts);
    let tm = timing(g, sel, roots);
    let cap = cap_of(g, objective.limit());
    assert(cap_in(vars) == cap);
    assert forall|i: int| 0 <= i < roots.len() implies tm[#[trigger] roots[i]] == ts[roots[i]] && 0
        <= ts[roots[i]] <= cap && ts.contains_key(roots[i]) by {
        assert(roots.contains(roots[i]));
        selection::lemma_reaches_root(g, sel, roots, roots[i]);
        arrival_is_at_most_total(g, sel, roots, ts, roots[i]);
    }
    assert(cap >= 0);
    lemma_latest_of_is(roots, tm, ts, cap, roots.len());
}

proof fn lemma_latest_of_is(
    roots: Seq<ClassId>,
    tm: Map<ClassId, Cost>,
    ts: Map<ClassId, Cost>,
    cap: Cost,
    k: nat,
)
    requires
        k <= roots.len(),
        cap >= 0,
        forall|i: int|
            0 <= i < roots.len() ==> tm[#[trigger] roots[i]] == ts[roots[i]] && 0 <= ts[roots[i]]
                <= cap && ts.contains_key(roots[i]),
    ensures
        0 <= latest_of(roots, ts, k) <= cap,
        k > 0 ==> latest_of(roots, ts, k) == latest_root(roots, tm, NEG_LIMIT, k),
    decreases k,
{
    if k > 0 {
        lemma_latest_of_is(roots, tm, ts, cap, (k - 1) as nat);
        let r = roots[k - 1];
        assert(tm[r] == ts[r] && 0 <= ts[r] <= cap && ts.contains_key(r));
        if k == 1 {
            assert(latest_root(roots, tm, NEG_LIMIT, 0) == NEG_LIMIT);
        }
    }
}

/// The classes below the roots that rank above class `c`.
spec fn ranked_above(
    g: EGraph,
    sel: Map<ClassId, NodeId>,
    roots: Seq<ClassId>,
    rank: Map<ClassId, nat>,
    c: ClassId,
) -> Set<ClassId> {
    Set::new(|x: ClassId| reaches(g, sel, roots, x) && rank[x] > rank[c])
}

proof fn lemma_ranked_above(
    g: EGraph,
    sel: Map<ClassId, NodeId>,
    roots: Seq<ClassId>,
    rank: Map<ClassId, nat>,
    c: ClassId,
)
    requires
        g.wf(),
        valid(g, sel, roots),
        reaches(g, sel, roots, c),
    ensures
        ranked_above(g, sel, roots, rank, c).finite(),
        ranked_above(g, sel, roots, rank, c).len() < g.classes@.len(),
{
    lemma_roots_of_valid(g, sel, roots);
    let n = g.classes@.len();
    let known = Set::new(|x: ClassId| x < n);
    let above = ranked_above(g, sel, roots, rank, c);
    crate::extract::measure::lemma_below_finite(n);
    crate::extract::ilp::warm::lemma_below_len(n);
    lemma_reached_known(g, sel, roots, c);
    assert(above.subset_of(known.remove(c))) by {
        assert forall|x: ClassId| above.contains(x) implies known.remove(c).contains(x) by {
            lemma_reached_known(g, sel, roots, x);
        }
    }
    vstd::set_lib::lemma_len_subset(above, known.remove(c));
    assert(known.contains(c));
}

/// Every valid extraction whose classes arrive under the cap can be staged as
/// a seed.
pub proof fn seeding_exists(
    g: EGraph,
    roots: Seq<ClassId>,
    objective: IlpObjective,
    vars: IlpVars,
    lp: Lp,
    sel: Map<ClassId, NodeId>,
) -> (r: (Map<ClassId, usize>, Map<ClassId, Cost>, Map<Col, Cost>))
    requires
        g.wf(),
        weights_valid(g),
        figures_fit(g),
        is_model(g, roots, objective, vars, lp),
        valid(g, sel, roots),
        objective != IlpObjective::Size ==> forall|c: ClassId| #[trigger]
            reaches(g, sel, roots, c) ==> timing(g, sel, roots)[c] <= cap_of(g, objective.limit()),
    ensures
        is_seeding(g, roots, objective, vars, lp, sel, r.0, r.1, r.2),
{
    let rank = choose|rank: Map<ClassId, nat>| ranked(g, sel, roots, rank);
    let levels = Map::new(
        |c: ClassId| reaches(g, sel, roots, c),
        |c: ClassId| ranked_above(g, sel, roots, rank, c).len() as usize,
    );
    vstd::std_specs::vec::axiom_spec_len(&g.classes);
    assert forall|c: ClassId| #[trigger] levels.contains_key(c) implies levels[c]
        < g.classes@.len() && levels[c] == ranked_above(g, sel, roots, rank, c).len() by {
        lemma_ranked_above(g, sel, roots, rank, c);
    }
    assert(levels_rise(g, sel, roots, levels)) by {
        assert forall|a: ClassId, b: ClassId|
            reaches(g, sel, roots, a) && #[trigger] edge(g, sel, a, b) implies levels[a]
            < levels[b] by {
            selection::lemma_reaches_step(g, sel, roots, a, b);
            assert(levels.contains_key(a) && levels.contains_key(b));
            lemma_ranked_above(g, sel, roots, rank, a);
            lemma_ranked_above(g, sel, roots, rank, b);
            let small = ranked_above(g, sel, roots, rank, a);
            let large = ranked_above(g, sel, roots, rank, b);
            assert(rank[b] < rank[a]);
            assert(small.insert(a).subset_of(large));
            assert(!small.contains(a));
            vstd::set_lib::lemma_len_subset(small.insert(a), large);
        }
    }
    selection::timing_exists(g, sel, roots);
    let tm = timing(g, sel, roots);
    let ts = Map::new(|c: ClassId| reaches(g, sel, roots, c), |c: ClassId| tm[c]);
    assert(is_timing(g, sel, roots, ts)) by {
        assert forall|c: ClassId| #[trigger] reaches(g, sel, roots, c) implies ts[c] == arrival(
            g,
            ts,
            sel[c],
        ) by {
            assert(sel.contains_key(c));
            assert forall|b: ClassId| #[trigger] g.depends(sel[c], b) implies ts[b] == tm[b] by {
                assert(edge(g, sel, c, b));
                selection::lemma_reaches_step(g, sel, roots, c, b);
            }
            selection::lemma_arrival_agree(g, ts, tm, sel[c]);
        }
    }
    let start = Map::new(
        |i: Col| i < vars.roles@.len(),
        |i: Col|
            seed_value(g, sel, roots, levels, ts, cap_in(vars), vars.roles@[i as int]),
    );
    assert(starts_from(g, roots, vars, sel, levels, ts, start));
    (levels, ts, start)
}

/// No class below the roots arrives later than the whole.
pub proof fn depth_bounds_arrival(
    g: EGraph,
    sel: Map<ClassId, NodeId>,
    roots: Seq<ClassId>,
    c: ClassId,
)
    requires
        g.wf(),
        weights_valid(g),
        valid(g, sel, roots),
        reaches(g, sel, roots, c),
    ensures
        timing(g, sel, roots)[c] <= dag_depth_of(g, sel, roots),
{
    selection::timing_exists(g, sel, roots);
    let ts = timing(g, sel, roots);
    let (r, n) = choose|r: ClassId, n: nat|
        roots.contains(r) && #[trigger] selection::walk(g, sel, r, c, n);
    selection::lemma_reaches_root(g, sel, roots, r);
    lemma_walk_arrival(g, sel, roots, ts, r, c, n);
    let i = choose|i: int| 0 <= i < roots.len() && roots[i] == r;
    lemma_latest_root_bound(roots, ts, roots.len(), i);
}

proof fn lemma_latest_root_bound(roots: Seq<ClassId>, ts: Map<ClassId, Cost>, k: nat, i: int)
    requires
        0 <= i < k <= roots.len(),
    ensures
        ts[roots[i]] <= latest_root(roots, ts, NEG_LIMIT, k),
    decreases k,
{
    if i < k - 1 {
        lemma_latest_root_bound(roots, ts, (k - 1) as nat, i);
    }
}

proof fn lemma_walk_arrival(
    g: EGraph,
    sel: Map<ClassId, NodeId>,
    roots: Seq<ClassId>,
    ts: Map<ClassId, Cost>,
    a: ClassId,
    c: ClassId,
    n: nat,
)
    requires
        g.wf(),
        weights_valid(g),
        valid(g, sel, roots),
        is_timing(g, sel, roots, ts),
        reaches(g, sel, roots, a),
        selection::walk(g, sel, a, c, n),
    ensures
        ts[c] <= ts[a],
    decreases n,
{
    if n > 0 {
        let m = choose|m: ClassId|
            selection::walk(g, sel, a, m, (n - 1) as nat) && #[trigger] edge(g, sel, m, c);
        lemma_walk_arrival(g, sel, roots, ts, a, m, (n - 1) as nat);
        selection::lemma_reaches_walk(g, sel, roots, a, m, (n - 1) as nat);
        let nid = sel[m];
        assert(sel.contains_key(m));
        assert(is_weight(g.nodes@[nid as int].delay));
        let k = g.nodes@[nid as int].children@.len();
        let j = choose|j: int| 0 <= j < k && g.child_class(nid, j) == c;
        selection::lemma_latest_child_bound(g, ts, nid, k, j);
        assert(ts[m] == plus(g.nodes@[nid as int].delay, latest_child(g, ts, nid, k)));
    }
}

// ---------------------------------------------------------------------------
// Optimality
// ---------------------------------------------------------------------------

/// The point is feasible and no feasible point has a lower objective.
pub open spec fn is_optimal_point(lp: Lp, p: Seq<int>, den: int) -> bool {
    &&& feasible(lp, p, den)
    &&& forall|q: Seq<int>, e: int| #[trigger]
        feasible(lp, q, e) ==> objective_at(lp, p) * e <= objective_at(lp, q) * den
}

/// The extraction meets the budget of the objective, if there is one.
pub open spec fn meets_budget(
    g: EGraph,
    objective: IlpObjective,
    sel: Map<ClassId, NodeId>,
    roots: Seq<ClassId>,
) -> bool {
    match objective.limit() {
        Some(budget) => dag_depth_of(g, sel, roots) <= budget,
        None => true,
    }
}

/// An optimal point of the model is an optimal extraction: of all valid
/// extractions that meet the budget, none is worth less.
pub proof fn optimal_point_is_optimal(
    g: EGraph,
    roots: Seq<ClassId>,
    objective: IlpObjective,
    vars: IlpVars,
    lp: Lp,
    p: Seq<int>,
    den: int,
    solution: MilpSolution,
    sel: Map<ClassId, NodeId>,
    other: Map<ClassId, NodeId>,
)
    requires
        g.wf(),
        weights_valid(g),
        figures_fit(g),
        weighting_valid(objective),
        objective.resolved(),
        roots_known(g, roots),
        is_model(g, roots, objective, vars, lp),
        is_optimal_point(lp, p, den),
        rounds_to(lp, solution, p, den),
        is_decoding(g, vars.classes@, solution, sel),
        valid(g, other, roots),
        meets_budget(g, objective, other, roots),
    ensures
        valid(g, sel, roots),
        model_value(g, objective, sel, roots) <= model_value(g, objective, other, roots),
{
    objective_bounds_value(g, roots, objective, vars, lp, p, den, solution, sel);
    selection::timing_exists(g, other, roots);
    assert forall|c: ClassId| #[trigger] reaches(g, other, roots, c) implies timing(
        g,
        other,
        roots,
    )[c] <= cap_of(g, objective.limit()) by {
        depth_bounds_arrival(g, other, roots, c);
        arrival_is_at_most_total(g, other, roots, timing(g, other, roots), c);
    }
    let (levels, ts, start) = seeding_exists(g, roots, objective, vars, lp, other);
    let q = start_point(lp, start);
    let e = ONE as int;
    seed_is_feasible(g, roots, objective, vars, lp, other, levels, ts, start);
    seed_attains_value(g, roots, objective, vars, lp, other, levels, ts, start);
    assert(objective_at(lp, p) * e <= objective_at(lp, q) * den);
    let ours = model_value(g, objective, sel, roots);
    let theirs = model_value(g, objective, other, roots);
    let reached = objective_at(lp, p);
    assert(ours <= theirs) by (nonlinear_arith)
        requires
            ours * den <= reached,
            reached * 1_000_000 <= theirs * 1_000_000 * den,
            den > 0,
    ;
}

proof fn lemma_priced_is_size(
    g: EGraph,
    size_weight: Cost,
    sel: Map<ClassId, NodeId>,
    roots: Seq<ClassId>,
    n: nat,
)
    requires
        g.wf(),
        weights_valid(g),
        valid(g, sel, roots),
    ensures
        priced_below(g, size_weight, sel, roots, n) == size_weight * size_below(g, sel, roots, n),
    decreases n,
{
    if n == 0 {
        assert(size_weight * 0 == 0);
    } else {
        lemma_priced_is_size(g, size_weight, sel, roots, (n - 1) as nat);
        let c = (n - 1) as ClassId;
        let before = size_below(g, sel, roots, (n - 1) as nat);
        if reaches(g, sel, roots, c) {
            assert(sel.contains_key(c));
            let cost = g.nodes@[sel[c] as int].cost;
            assert(is_weight(cost));
            product_is_exact(size_weight, cost);
            assert(size_weight * (before + cost) == size_weight * before + size_weight * cost)
                by (nonlinear_arith);
        }
    }
}

proof fn lemma_size_is_finite(g: EGraph, sel: Map<ClassId, NodeId>, roots: Seq<ClassId>)
    requires
        g.wf(),
        weights_valid(g),
        valid(g, sel, roots),
    ensures
        dag_size(g, sel, roots) == saturate(size_below(g, sel, roots, g.classes@.len())),
{
    if infinite_below(g, sel, roots) {
        let c = choose|c: ClassId| #[trigger]
            reaches(g, sel, roots, c) && g.nodes@[sel[c] as int].cost == INFINITY;
        assert(sel.contains_key(c));
        assert(is_weight(g.nodes@[sel[c] as int].cost));
    }
}

/// Minimising size, with or without a depth budget, an optimal point is a
/// smallest extraction among those that meet the budget.
pub proof fn optimal_size_is_smallest(
    g: EGraph,
    roots: Seq<ClassId>,
    objective: IlpObjective,
    vars: IlpVars,
    lp: Lp,
    p: Seq<int>,
    den: int,
    solution: MilpSolution,
    sel: Map<ClassId, NodeId>,
    other: Map<ClassId, NodeId>,
)
    requires
        g.wf(),
        weights_valid(g),
        figures_fit(g),
        objective == IlpObjective::Size || objective is SizeConstrainedDepth,
        objective.resolved(),
        roots_known(g, roots),
        is_model(g, roots, objective, vars, lp),
        is_optimal_point(lp, p, den),
        rounds_to(lp, solution, p, den),
        is_decoding(g, vars.classes@, solution, sel),
        valid(g, other, roots),
        meets_budget(g, objective, other, roots),
    ensures
        valid(g, sel, roots),
        dag_size(g, sel, roots) <= dag_size(g, other, roots),
{
    optimal_point_is_optimal(g, roots, objective, vars, lp, p, den, solution, sel, other);
    lemma_priced_is_size(g, ONE, sel, roots, g.classes@.len());
    lemma_priced_is_size(g, ONE, other, roots, g.classes@.len());
    lemma_size_is_finite(g, sel, roots);
    lemma_size_is_finite(g, other, roots);
    let a = dag_depth_of(g, sel, roots) as int;
    let b = dag_depth_of(g, other, roots) as int;
    assert(0 * a == 0 && 0 * b == 0) by (nonlinear_arith);
}

/// What an extraction of finite size is worth, in millionths, is what the model
/// minimises, but for rounding.
proof fn lemma_value_is(
    g: EGraph,
    objective: IlpObjective,
    sel: Map<ClassId, NodeId>,
    roots: Seq<ClassId>,
)
    requires
        g.wf(),
        weights_valid(g),
        weighting_valid(objective),
        valid(g, sel, roots),
    ensures
        model_value(g, objective, sel, roots) >= 0,
        objective.value_of(g, sel, roots) <= saturate(
            model_value(g, objective, sel, roots) / 1_000_000,
        ),
        dag_size(g, sel, roots) < INFINITY ==> saturate(
            model_value(g, objective, sel, roots) / 1_000_000,
        ) <= objective.value_of(g, sel, roots) + 1,
{
    let (size_weight, depth_weight) = objective.weighting();
    let exact = size_below(g, sel, roots, g.classes@.len());
    let size = dag_size(g, sel, roots) as int;
    let depth = dag_depth_of(g, sel, roots) as int;
    let sw = size_weight as int;
    let dw = depth_weight as int;
    lemma_priced_is_size(g, size_weight, sel, roots, g.classes@.len());
    lemma_size_is_finite(g, sel, roots);
    lemma_size_non_negative(g, sel, roots, g.classes@.len());
    lemma_depth_non_negative(g, sel, roots);
    assert(0 <= sw * size <= sw * exact) by (nonlinear_arith)
        requires
            0 <= size <= exact,
            sw >= 0,
    ;
    assert(0 <= dw * depth) by (nonlinear_arith)
        requires
            0 <= depth,
            dw >= 0,
    ;
    if sw == 0 {
        assert(sw * size == 0) by (nonlinear_arith)
            requires
                sw == 0,
        ;
    }
    if dw == 0 {
        assert(dw * depth == 0) by (nonlinear_arith)
            requires
                dw == 0,
        ;
    }
}

proof fn lemma_depth_non_negative(g: EGraph, sel: Map<ClassId, NodeId>, roots: Seq<ClassId>)
    requires
        g.wf(),
        weights_valid(g),
        valid(g, sel, roots),
    ensures
        dag_depth_of(g, sel, roots) >= 0,
{
    if roots.len() > 0 {
        let r = roots[0];
        assert(roots.contains(r));
        selection::lemma_reaches_root(g, sel, roots, r);
        selection::timing_exists(g, sel, roots);
        arrival_is_at_most_total(g, sel, roots, timing(g, sel, roots), r);
        depth_bounds_arrival(g, sel, roots, r);
    }
}

proof fn lemma_size_non_negative(
    g: EGraph,
    sel: Map<ClassId, NodeId>,
    roots: Seq<ClassId>,
    n: nat,
)
    requires
        weights_valid(g),
        g.wf(),
        valid(g, sel, roots),
    ensures
        size_below(g, sel, roots, n) >= 0,
    decreases n,
{
    if n > 0 {
        lemma_size_non_negative(g, sel, roots, (n - 1) as nat);
        let c = (n - 1) as ClassId;
        if reaches(g, sel, roots, c) {
            assert(sel.contains_key(c));
            assert(is_weight(g.nodes@[sel[c] as int].cost));
        }
    }
}

/// An optimal point of the model is an optimal extraction: of all valid
/// extractions of finite size that meet the budget, none is worth less by more
/// than a millionth, by which the two may be rounded differently.
pub proof fn optimal_value_is_least(
    g: EGraph,
    roots: Seq<ClassId>,
    objective: IlpObjective,
    vars: IlpVars,
    lp: Lp,
    p: Seq<int>,
    den: int,
    solution: MilpSolution,
    sel: Map<ClassId, NodeId>,
    other: Map<ClassId, NodeId>,
)
    requires
        g.wf(),
        weights_valid(g),
        figures_fit(g),
        weighting_valid(objective),
        objective.resolved(),
        roots_known(g, roots),
        is_model(g, roots, objective, vars, lp),
        is_optimal_point(lp, p, den),
        rounds_to(lp, solution, p, den),
        is_decoding(g, vars.classes@, solution, sel),
        valid(g, other, roots),
        meets_budget(g, objective, other, roots),
        dag_size(g, other, roots) < INFINITY,
    ensures
        objective.value_of(g, sel, roots) <= objective.value_of(g, other, roots) + 1,
        objective matches IlpObjective::WeightedSizeDepth { size_weight, depth_weight }
            ==> size_weight * dag_size(g, sel, roots) + depth_weight * dag_depth_of(g, sel, roots)
            <= size_weight * dag_size(g, other, roots) + depth_weight * dag_depth_of(
            g,
            other,
            roots,
        ),
{
    optimal_point_is_optimal(g, roots, objective, vars, lp, p, den, solution, sel, other);
    if let IlpObjective::WeightedSizeDepth { size_weight, depth_weight } = objective {
        lemma_priced_is_size(g, size_weight, sel, roots, g.classes@.len());
        lemma_priced_is_size(g, size_weight, other, roots, g.classes@.len());
        lemma_size_is_finite(g, sel, roots);
        lemma_size_is_finite(g, other, roots);
        lemma_size_non_negative(g, sel, roots, g.classes@.len());
        lemma_size_non_negative(g, other, roots, g.classes@.len());
        let a = dag_size(g, sel, roots) as int;
        let b = size_below(g, sel, roots, g.classes@.len());
        assert(size_weight * a <= size_weight * b) by (nonlinear_arith)
            requires
                a <= b,
                size_weight >= 0,
        ;
    }
    lemma_value_is(g, objective, sel, roots);
    lemma_value_is(g, objective, other, roots);
}

/// The objective of an optimal point is what its extraction is worth, but for
/// rounding.
pub proof fn optimal_objective_is_value(
    g: EGraph,
    roots: Seq<ClassId>,
    objective: IlpObjective,
    vars: IlpVars,
    lp: Lp,
    p: Seq<int>,
    den: int,
    solution: MilpSolution,
    sel: Map<ClassId, NodeId>,
)
    requires
        g.wf(),
        weights_valid(g),
        figures_fit(g),
        weighting_valid(objective),
        objective.resolved(),
        roots_known(g, roots),
        is_model(g, roots, objective, vars, lp),
        is_optimal_point(lp, p, den),
        rounds_to(lp, solution, p, den),
        is_decoding(g, vars.classes@, solution, sel),
        objective.limit() matches Some(b) ==> b >= 0,
        dag_size(g, sel, roots) < INFINITY,
    ensures
        objective.value_of(g, sel, roots) <= saturate(objective_at(lp, p) / (den * ONE))
            <= objective.value_of(g, sel, roots) + 1,
{
    objective_bounds_value(g, roots, objective, vars, lp, p, den, solution, sel);
    if let Some(budget) = objective.limit() {
        budget_is_met(g, roots, objective, budget, vars, lp, p, den, solution, sel);
    }
    selection::timing_exists(g, sel, roots);
    assert forall|c: ClassId| #[trigger] reaches(g, sel, roots, c) implies timing(
        g,
        sel,
        roots,
    )[c] <= cap_of(g, objective.limit()) by {
        depth_bounds_arrival(g, sel, roots, c);
        arrival_is_at_most_total(g, sel, roots, timing(g, sel, roots), c);
    }
    let (levels, ts, start) = seeding_exists(g, roots, objective, vars, lp, sel);
    let q = start_point(lp, start);
    let e = ONE as int;
    seed_is_feasible(g, roots, objective, vars, lp, sel, levels, ts, start);
    seed_attains_value(g, roots, objective, vars, lp, sel, levels, ts, start);
    assert(objective_at(lp, p) * e <= objective_at(lp, q) * den);
    let value = model_value(g, objective, sel, roots);
    let reached = objective_at(lp, p);
    assert(reached == value * den) by (nonlinear_arith)
        requires
            value * den <= reached,
            reached * 1_000_000 <= value * 1_000_000 * den,
    ;
    lemma_value_is(g, objective, sel, roots);
    assert((value * den) / (den * 1_000_000) == value / 1_000_000) by {
        assert(value * den >= 0) by (nonlinear_arith)
            requires
                value >= 0,
                den > 0,
        ;
        vstd::arithmetic::div_mod::lemma_div_denominator(value * den, den, 1_000_000);
        vstd::arithmetic::div_mod::lemma_div_by_multiple(value, den);
    }
}

/// Minimising depth, an optimal point is a shallowest extraction.
pub proof fn optimal_depth_is_shallowest(
    g: EGraph,
    roots: Seq<ClassId>,
    vars: IlpVars,
    lp: Lp,
    p: Seq<int>,
    den: int,
    solution: MilpSolution,
    sel: Map<ClassId, NodeId>,
    other: Map<ClassId, NodeId>,
)
    requires
        g.wf(),
        weights_valid(g),
        figures_fit(g),
        roots_known(g, roots),
        is_model(g, roots, IlpObjective::Depth, vars, lp),
        is_optimal_point(lp, p, den),
        rounds_to(lp, solution, p, den),
        is_decoding(g, vars.classes@, solution, sel),
        valid(g, other, roots),
    ensures
        valid(g, sel, roots),
        dag_depth_of(g, sel, roots) <= dag_depth_of(g, other, roots),
{
    let objective = IlpObjective::Depth;
    optimal_point_is_optimal(g, roots, objective, vars, lp, p, den, solution, sel, other);
    lemma_priced_zero(g, sel, roots, g.classes@.len());
    lemma_priced_zero(g, other, roots, g.classes@.len());
}

proof fn lemma_priced_zero(g: EGraph, sel: Map<ClassId, NodeId>, roots: Seq<ClassId>, n: nat)
    ensures
        priced_below(g, 0, sel, roots, n) == 0,
    decreases n,
{
    if n > 0 {
        lemma_priced_zero(g, sel, roots, (n - 1) as nat);
        let c = (n - 1) as ClassId;
        let cost = g.nodes@[sel[c] as int].cost as int;
        assert(0 * cost == 0) by (nonlinear_arith);
    }
}

} // verus!
