//! Rows that rule out a cycle, and why they rule out nothing else.
use crate::collections::id_set_contains;
use crate::cost::{saturate, saturate_wide, Cost, MINUS_ONE, NEG_INFINITY, ONE};
use crate::egraph::{ClassId, NodeId};
use crate::extract::faster_ilp_cbc::cycles::step;
use crate::extract::faster_ilp_cbc::encoding::{
    encodes, is_closed_under, lemma_implies_holds, lemma_point_of, lemma_rows_hold,
    lemma_solution_objective, point_of,
};
use crate::extract::faster_ilp_cbc::problem::{
    choice_of, choices_in, lemma_offered, lemma_place, place, price, solves, solves_with, sound,
    sound_class, Choice, NodeIlp, Problem, Vars,
};
use crate::extract::faster_ilp_cbc::rows::{columns_apart, implies_row, is_closed, owned, rows_to};
use crate::extract::faster_ilp_cbc::Config;
use crate::extract::ilp::optimality::{objective_at, objective_term};
use crate::milp::point::{
    add_constraint, coeff_sum, distinct_cols, feasible, lemma_row_of, row_holds, row_of, row_sum,
    within,
};
use crate::milp::stage::{fresh_binary, weight_of, Col, Lp, RowModel, Staged};
use crate::sums::total_of;
use vstd::prelude::*;

verus! {

/// The columns of those of the first `k` choices that need class `d`.
pub open spec fn level_to(list: Seq<Choice>, d: ClassId, k: nat) -> Seq<Col>
    decreases k,
{
    if k == 0 {
        Seq::empty()
    } else if list[k - 1].kids.contains(d) {
        level_to(list, d, (k - 1) as nat).push(list[k - 1].variable)
    } else {
        level_to(list, d, (k - 1) as nat)
    }
}

/// The columns of the choices for the `i`th class of a cycle that need the
/// next.
pub open spec fn level(p: Problem, cycle: Seq<ClassId>, i: int) -> Seq<Col> {
    let list = p.classes[cycle[i]];
    level_to(list, next_in(cycle, i), list.len())
}

pub open spec fn next_in(cycle: Seq<ClassId>, i: int) -> ClassId {
    if i + 1 < cycle.len() {
        cycle[i + 1]
    } else {
        cycle[0]
    }
}

/// Each of the first `k` of `cols` implies `b`.
pub open spec fn link_rows(cols: Seq<Col>, b: Col, k: nat) -> Seq<RowModel>
    decreases k,
{
    if k == 0 {
        Seq::empty()
    } else {
        link_rows(cols, b, (k - 1) as nat).push(implies_row(cols[k - 1], b))
    }
}

/// The model with a column for each of the first `i` edges of the cycle, and
/// these columns: the choice's own where one alone has the edge, else a new
/// one that all of them imply.
pub open spec fn edges_to(p: Problem, cycle: Seq<ClassId>, lp: Lp, i: nat) -> (Lp, Seq<Col>)
    decreases i,
{
    if i == 0 {
        (lp, Seq::empty())
    } else {
        let (before, cols) = edges_to(p, cycle, lp, (i - 1) as nat);
        let own = level(p, cycle, i - 1);
        if own.len() == 1 {
            (before, cols.push(own[0]))
        } else {
            let fresh = before.cols.len() as Col;
            (
                Lp {
                    cols: before.cols.push(fresh_binary()),
                    rows: before.rows + link_rows(own, fresh, own.len()),
                    ..before
                },
                cols.push(fresh),
            )
        }
    }
}

/// The first `k` of `cols`, each with `1`.
pub open spec fn unit_coeffs(cols: Seq<Col>, k: nat) -> Seq<(Col, Cost)>
    decreases k,
{
    if k == 0 {
        Seq::empty()
    } else {
        unit_coeffs(cols, (k - 1) as nat).push((cols[k - 1], ONE))
    }
}

/// At most all but one of `cols`.
pub open spec fn not_all_row(cols: Seq<Col>) -> RowModel {
    row_of(NEG_INFINITY, saturate((cols.len() - 1) * ONE), unit_coeffs(cols, cols.len()))
}

/// The model with the cycle ruled out.
pub open spec fn blocked(p: Problem, cycle: Seq<ClassId>, lp: Lp) -> Lp {
    let (edges, cols) = edges_to(p, cycle, lp, cycle.len());
    Lp { rows: edges.rows.push(not_all_row(cols)), ..edges }
}

/// The model with the first `k` of the cycles ruled out.
pub open spec fn blocked_all(p: Problem, cycles: Seq<Vec<ClassId>>, lp: Lp, k: nat) -> Lp
    decreases k,
{
    if k == 0 {
        lp
    } else {
        blocked(p, cycles[k - 1]@, blocked_all(p, cycles, lp, (k - 1) as nat))
    }
}

/// Blocking a cycle keeps the direction of the objective.
pub proof fn lemma_blocked_sense(p: Problem, cycle: Seq<ClassId>, lp: Lp)
    ensures
        blocked(p, cycle, lp).sense == lp.sense,
{
    lemma_edges_sense(p, cycle, lp, cycle.len());
}

proof fn lemma_edges_sense(p: Problem, cycle: Seq<ClassId>, lp: Lp, k: nat)
    ensures
        edges_to(p, cycle, lp, k).0.sense == lp.sense,
    decreases k,
{
    if k > 0 {
        lemma_edges_sense(p, cycle, lp, (k - 1) as nat);
    }
}

/// The columns of the problem are those of the choices.
pub open spec fn shows(
    p: Problem,
    actives: Seq<Col>,
    sel: Map<ClassId, NodeId>,
    x: Seq<int>,
) -> bool {
    &&& forall|c: ClassId| #[trigger]
        p.classes.contains_key(c) ==> x[actives[c as int] as int] == (if sel.contains_key(c) {
            1int
        } else {
            0
        })
    &&& forall|c: ClassId, i: int|
        p.classes.contains_key(c) && 0 <= i < p.classes[c].len() ==> x[(
        #[trigger] p.classes[c][i]).variable as int] == (if sel.contains_key(c) && sel[c]
            == p.classes[c][i].node {
            1int
        } else {
            0
        })
}

/// A point of the model is the solution, at its cost.
pub open spec fn is_point_of(
    lp: Lp,
    p: Problem,
    actives: Seq<Col>,
    n: nat,
    sel: Map<ClassId, NodeId>,
    x: Seq<int>,
) -> bool {
    &&& feasible(lp, x, 1)
    &&& shows(p, actives, sel, x)
    &&& objective_at(lp, x) == price(p, sel, n) * ONE
}

/// The solution is a point of the model.
pub open spec fn has_point(
    lp: Lp,
    p: Problem,
    actives: Seq<Col>,
    n: nat,
    sel: Map<ClassId, NodeId>,
) -> bool {
    exists|x: Seq<int>| is_point_of(lp, p, actives, n, sel, x)
}

/// Every solution is a point of the model.
pub open spec fn admits(lp: Lp, p: Problem, actives: Seq<Col>, n: nat) -> bool {
    forall|sel: Map<ClassId, NodeId>| #[trigger]
        solves(p, sel) ==> has_point(lp, p, actives, n, sel)
}

/// The choices use the `i`th edge of the cycle.
pub open spec fn uses(p: Problem, sel: Map<ClassId, NodeId>, cycle: Seq<ClassId>, i: int) -> bool {
    step(p, sel, cycle[i], next_in(cycle, i))
}

/// A point of the solution at which the first `i` of `cols` say which edges
/// are used.
pub open spec fn is_edge_point(
    lp: Lp,
    p: Problem,
    actives: Seq<Col>,
    n: nat,
    sel: Map<ClassId, NodeId>,
    cycle: Seq<ClassId>,
    cols: Seq<Col>,
    x: Seq<int>,
) -> bool {
    &&& is_point_of(lp, p, actives, n, sel, x)
    &&& forall|k: int|
        0 <= k < cols.len() ==> x[(#[trigger] cols[k]) as int] == (if uses(p, sel, cycle, k) {
            1int
        } else {
            0
        })
}

pub open spec fn has_edge_point(
    lp: Lp,
    p: Problem,
    actives: Seq<Col>,
    n: nat,
    sel: Map<ClassId, NodeId>,
    cycle: Seq<ClassId>,
    cols: Seq<Col>,
) -> bool {
    exists|x: Seq<int>| is_edge_point(lp, p, actives, n, sel, cycle, cols, x)
}

pub open spec fn admits_edges(
    lp: Lp,
    p: Problem,
    actives: Seq<Col>,
    n: nat,
    cycle: Seq<ClassId>,
    cols: Seq<Col>,
) -> bool {
    forall|sel: Map<ClassId, NodeId>| #[trigger]
        solves(p, sel) ==> has_edge_point(lp, p, actives, n, sel, cycle, cols)
}

/// No row has a coefficient of an unknown column.
pub open spec fn rows_within(lp: Lp) -> bool {
    forall|r: int, c: Col|
        0 <= r < lp.rows.len() && (#[trigger] lp.rows[r].weights.contains_key(c)) ==> c
            < lp.cols.len()
}

/// The columns of the first edges are apart.
pub open spec fn edges_apart(
    p: Problem,
    cycle: Seq<ClassId>,
    width: nat,
    lp: Lp,
    cols: Seq<Col>,
) -> bool {
    &&& width <= lp.cols.len()
    &&& forall|k: int|
        0 <= k < cols.len() ==> (#[trigger] cols[k]) < lp.cols.len() && (cols[k] < width
            ==> is_choice_column(p, cycle[k], cols[k]))
    &&& forall|k: int, m: int|
        0 <= k < m < cols.len() ==> (#[trigger] cols[k]) != (#[trigger] cols[m])
}

/// A choice for class `c` has the column.
pub open spec fn is_choice_column(p: Problem, c: ClassId, col: Col) -> bool {
    exists|i: int| 0 <= i < p.classes[c].len() && (#[trigger] p.classes[c][i]).variable == col
}

// ---------------------------------------------------------------------------
// Points
// ---------------------------------------------------------------------------

proof fn lemma_row_sum_prefix(weights: Map<Col, Cost>, x: Seq<int>, y: Seq<int>, n: nat)
    requires
        n <= x.len(),
        n <= y.len(),
        forall|j: int| 0 <= j < n ==> #[trigger] x[j] == y[j],
    ensures
        row_sum(weights, x, n) == row_sum(weights, y, n),
    decreases n,
{
    if n > 0 {
        lemma_row_sum_prefix(weights, x, y, (n - 1) as nat);
        assert(x[n - 1] == y[n - 1]);
    }
}

proof fn lemma_total_prefix(f: spec_fn(int) -> int, h: spec_fn(int) -> int, n: nat)
    requires
        forall|j: int| 0 <= j < n ==> #[trigger] f(j) == h(j),
    ensures
        total_of(f, n) == total_of(h, n),
    decreases n,
{
    if n > 0 {
        lemma_total_prefix(f, h, (n - 1) as nat);
        assert(f(n - 1) == h(n - 1));
    }
}

/// One binary column more, of no cost and in no row.
proof fn lemma_wider(lp: Lp, x: Seq<int>, v: int)
    requires
        rows_within(lp),
        lp.cols.len() < usize::MAX,
        feasible(lp, x, 1),
        v == 0 || v == 1,
    ensures
        feasible(Lp { cols: lp.cols.push(fresh_binary()), ..lp }, x.push(v), 1),
        objective_at(Lp { cols: lp.cols.push(fresh_binary()), ..lp }, x.push(v)) == objective_at(
            lp,
            x,
        ),
{
    let wide = Lp { cols: lp.cols.push(fresh_binary()), ..lp };
    let y = x.push(v);
    assert forall|j: int| 0 <= j < y.len() implies within(
        (#[trigger] wide.cols[j]).lower,
        wide.cols[j].upper,
        y[j] * ONE,
        1,
    ) && (wide.cols[j].integral ==> y[j] % 1 == 0) by {
        if j < x.len() {
            assert(wide.cols[j] == lp.cols[j]);
            assert(y[j] == x[j]);
        } else {
            assert(wide.cols[j] == fresh_binary());
        }
    }
    assert forall|i: int| 0 <= i < wide.rows.len() implies row_holds(
        #[trigger] wide.rows[i],
        y,
        1,
    ) by {
        let row = lp.rows[i];
        assert(row_holds(lp.rows[i], x, 1));
        lemma_row_sum_prefix(row.weights, y, x, x.len());
        let j = x.len() as Col;
        assert(!row.weights.contains_key(j)) by {
            if row.weights.contains_key(j) {
                assert(lp.rows[i].weights.contains_key(j));
            }
        }
        assert(weight_of(row.weights, j) == 0);
        assert(row_sum(row.weights, y, y.len()) == row_sum(row.weights, y, x.len()) + 0 * y[x.len()
            as int]);
        assert(0 * v == 0) by (nonlinear_arith);
    }
    let f = objective_term(wide, y);
    let h = objective_term(lp, x);
    assert forall|j: int| 0 <= j < lp.cols.len() implies #[trigger] f(j) == h(j) by {
        assert(wide.cols[j] == lp.cols[j]);
        assert(y[j] == x[j]);
    }
    lemma_total_prefix(f, h, lp.cols.len());
    assert(f(lp.cols.len() as int) == 0 * v);
    assert(0 * v == 0) by (nonlinear_arith);
}

/// What is in a level.
pub proof fn lemma_level_to(list: Seq<Choice>, d: ClassId, k: nat, j: int)
    requires
        k <= list.len(),
        0 <= j < level_to(list, d, k).len(),
    ensures
        exists|i: int|
            0 <= i < k && (#[trigger] list[i]).kids.contains(d) && list[i].variable == level_to(
                list,
                d,
                k,
            )[j],
    decreases k,
{
    let before = level_to(list, d, (k - 1) as nat);
    if list[k - 1].kids.contains(d) && j == before.len() {
        assert(list[k - 1].kids.contains(d));
    } else {
        lemma_level_to(list, d, (k - 1) as nat, j);
        let i = choose|i: int|
            0 <= i < k - 1 && (#[trigger] list[i]).kids.contains(d) && list[i].variable
                == before[j];
        assert(list[i].kids.contains(d));
    }
}

/// Every choice with the edge is in the level.
pub proof fn lemma_in_level(list: Seq<Choice>, d: ClassId, k: nat, i: int)
    requires
        0 <= i < k <= list.len(),
        list[i].kids.contains(d),
    ensures
        level_to(list, d, k).contains(list[i].variable),
    decreases k,
{
    let before = level_to(list, d, (k - 1) as nat);
    if i == k - 1 {
        assert(level_to(list, d, k)[before.len() as int] == list[i].variable);
    } else {
        lemma_in_level(list, d, (k - 1) as nat, i);
        let j = choose|j: int| 0 <= j < before.len() && before[j] == list[i].variable;
        assert(level_to(list, d, k)[j] == list[i].variable);
    }
}

/// The columns of a level at a point of a solution: none is on unless the edge
/// is used, and then one is.
proof fn lemma_level_at(
    p: Problem,
    actives: Seq<Col>,
    n: nat,
    sel: Map<ClassId, NodeId>,
    cycle: Seq<ClassId>,
    i: int,
    x: Seq<int>,
)
    requires
        sound(p, n),
        solves(p, sel),
        shows(p, actives, sel, x),
        0 <= i < cycle.len(),
        p.classes.contains_key(cycle[i]),
    ensures
        forall|j: int|
            0 <= j < level(p, cycle, i).len() ==> x[(#[trigger] level(p, cycle, i)[j]) as int] <= (
            if uses(p, sel, cycle, i) {
                1int
            } else {
                0
            }),
        level(p, cycle, i).len() == 1 ==> x[level(p, cycle, i)[0] as int] == (if uses(
            p,
            sel,
            cycle,
            i,
        ) {
            1int
        } else {
            0
        }),
{
    let c = cycle[i];
    let d = next_in(cycle, i);
    let list = p.classes[c];
    let own = level(p, cycle, i);
    let rank = choose|rank: Map<ClassId, nat>| solves_with(p, sel, rank);
    assert(sound_class(p, list));
    assert forall|j: int| 0 <= j < own.len() implies x[(#[trigger] own[j]) as int] <= (if uses(
        p,
        sel,
        cycle,
        i,
    ) {
        1int
    } else {
        0
    }) by {
        lemma_level_to(list, d, list.len(), j);
        let m = choose|m: int|
            0 <= m < list.len() && (#[trigger] list[m]).kids.contains(d) && list[m].variable
                == own[j];
        assert(p.classes[c][m].variable == own[j]);
        if sel.contains_key(c) && sel[c] == list[m].node {
            lemma_place(list, m);
            assert(uses(p, sel, cycle, i));
        }
    }
    if own.len() == 1 && uses(p, sel, cycle, i) {
        lemma_offered(list, sel[c]);
        let m = place(list, sel[c]);
        lemma_in_level(list, d, list.len(), m);
        assert(own.contains(list[m].variable));
        assert(own[0] == list[m].variable);
        assert(p.classes[c][m].variable == own[0]);
    } else if own.len() == 1 {
        lemma_level_to(list, d, list.len(), 0);
        let m = choose|m: int|
            0 <= m < list.len() && (#[trigger] list[m]).kids.contains(d) && list[m].variable
                == own[0];
        assert(p.classes[c][m].variable == own[0]);
        if sel.contains_key(c) && sel[c] == list[m].node {
            lemma_place(list, m);
        }
    }
}

/// The rows of a level hold where no column of it exceeds the new one.
proof fn lemma_links_hold(cols: Seq<Col>, b: Col, k: nat, x: Seq<int>, i: int)
    requires
        k <= cols.len(),
        0 <= i < link_rows(cols, b, k).len(),
        b < x.len() <= usize::MAX,
        forall|j: int|
            0 <= j < cols.len() ==> (#[trigger] cols[j]) < x.len() && cols[j] != b && x[cols[j] as int]
                <= x[b as int],
    ensures
        row_holds(link_rows(cols, b, k)[i], x, 1),
    decreases k,
{
    let before = link_rows(cols, b, (k - 1) as nat);
    if i == before.len() {
        assert(cols[k - 1] < x.len());
        lemma_implies_holds(cols[k - 1], b, x, 1);
    } else {
        lemma_links_hold(cols, b, (k - 1) as nat, x, i);
    }
}

/// One edge more.
proof fn lemma_edge_step(
    lp: Lp,
    p: Problem,
    actives: Seq<Col>,
    n: nat,
    cycle: Seq<ClassId>,
    cols: Seq<Col>,
    width: nat,
    i: int,
    after: (Lp, Seq<Col>),
)
    requires
        sound(p, n),
        columns_apart(p, actives, width),
        rows_within(lp),
        level(p, cycle, i).len() != 1 ==> lp.cols.len() < usize::MAX,
        0 <= i < cycle.len(),
        cols.len() == i,
        cycle.no_duplicates(),
        forall|k: int| 0 <= k < cycle.len() ==> p.classes.contains_key(#[trigger] cycle[k]),
        edges_apart(p, cycle, width, lp, cols),
        admits_edges(lp, p, actives, n, cycle, cols),
        after == ({
            let own = level(p, cycle, i);
            if own.len() == 1 {
                (lp, cols.push(own[0]))
            } else {
                let fresh = lp.cols.len() as Col;
                (
                    Lp {
                        cols: lp.cols.push(fresh_binary()),
                        rows: lp.rows + link_rows(own, fresh, own.len()),
                        ..lp
                    },
                    cols.push(fresh),
                )
            }
        }),
    ensures
        edges_apart(p, cycle, width, after.0, after.1),
        admits_edges(after.0, p, actives, n, cycle, after.1),
{
    let own = level(p, cycle, i);
    let c = cycle[i];
    let d = next_in(cycle, i);
    let list = p.classes[c];
    let (next, all) = after;
    assert(p.classes.contains_key(c));
    assert forall|j: int| 0 <= j < own.len() implies (#[trigger] own[j]) < width
        && is_choice_column(p, c, own[j]) by {
        lemma_level_to(list, d, list.len(), j);
        let m = choose|m: int|
            0 <= m < list.len() && (#[trigger] list[m]).kids.contains(d) && list[m].variable
                == own[j];
        assert(p.classes[c][m].variable == own[j]);
    }
    assert(edges_apart(p, cycle, width, next, all)) by {
        assert forall|k: int| 0 <= k < all.len() implies (#[trigger] all[k]) < next.cols.len() && (
        all[k] < width ==> is_choice_column(p, cycle[k], all[k])) by {
            if k < i {
                assert(all[k] == cols[k]);
            } else if own.len() == 1 {
                assert(all[k] == own[0]);
            }
        }
        assert forall|k: int, m: int| 0 <= k < m < all.len() implies (#[trigger] all[k]) != (
        #[trigger] all[m]) by {
            assert(all[k] == cols[k]);
            if m < i {
                assert(all[m] == cols[m]);
                assert(cols[k] != cols[m]);
            } else if own.len() == 1 {
                assert(all[m] == own[0]);
                if cols[k] < width {
                    assert(is_choice_column(p, cycle[k], cols[k]));
                    let a = choose|a: int|
                        0 <= a < p.classes[cycle[k]].len() && (
                        #[trigger] p.classes[cycle[k]][a]).variable == cols[k];
                    assert(is_choice_column(p, c, own[0]));
                    let b = choose|b: int|
                        0 <= b < p.classes[c].len() && (#[trigger] p.classes[c][b]).variable
                            == own[0];
                    assert(cycle[k] != cycle[i]);
                    assert(p.classes.contains_key(cycle[k]));
                }
            }
        }
    }
    assert forall|sel: Map<ClassId, NodeId>| #[trigger] solves(p, sel) implies has_edge_point(
        next,
        p,
        actives,
        n,
        sel,
        cycle,
        all,
    ) by {
        assert(has_edge_point(lp, p, actives, n, sel, cycle, cols));
        let x = choose|x: Seq<int>| is_edge_point(lp, p, actives, n, sel, cycle, cols, x);
        lemma_level_at(p, actives, n, sel, cycle, i, x);
        let v = if uses(p, sel, cycle, i) {
            1int
        } else {
            0
        };
        if own.len() == 1 {
            assert forall|k: int| 0 <= k < all.len() implies x[(#[trigger] all[k]) as int] == (
            if uses(p, sel, cycle, k) {
                1int
            } else {
                0
            }) by {
                if k < i {
                    assert(all[k] == cols[k]);
                }
            }
            assert(is_edge_point(next, p, actives, n, sel, cycle, all, x));
        } else {
            let fresh = lp.cols.len() as Col;
            let wide = Lp { cols: lp.cols.push(fresh_binary()), ..lp };
            let y = x.push(v);
            lemma_wider(lp, x, v);
            assert(next.cols == wide.cols);
            assert forall|r: int| 0 <= r < next.rows.len() implies row_holds(
                #[trigger] next.rows[r],
                y,
                1,
            ) by {
                if r < lp.rows.len() {
                    assert(next.rows[r] == wide.rows[r]);
                } else {
                    let k = r - lp.rows.len();
                    assert forall|j: int| 0 <= j < own.len() implies (#[trigger] own[j]) < y.len()
                        && own[j] != fresh && y[own[j] as int] <= y[fresh as int] by {
                        assert(own[j] < width);
                        assert(y[own[j] as int] == x[own[j] as int]);
                    }
                    lemma_links_hold(own, fresh, own.len(), y, k);
                }
            }
            assert forall|j: int| 0 <= j < y.len() implies within(
                (#[trigger] next.cols[j]).lower,
                next.cols[j].upper,
                y[j] * ONE,
                1,
            ) && (next.cols[j].integral ==> y[j] % 1 == 0) by {
                assert(next.cols[j] == wide.cols[j]);
            }
            assert(feasible(next, y, 1));
            assert(objective_at(next, y) == objective_at(wide, y)) by {
                let f = objective_term(next, y);
                let h = objective_term(wide, y);
                assert forall|j: int| 0 <= j < next.cols.len() implies #[trigger] f(j) == h(j) by {}
                lemma_total_prefix(f, h, next.cols.len());
            }
            assert(shows(p, actives, sel, y)) by {
                assert forall|a: ClassId| #[trigger]
                    p.classes.contains_key(a) implies y[actives[a as int] as int] == (
                if sel.contains_key(a) {
                    1int
                } else {
                    0
                }) by {
                    assert(y[actives[a as int] as int] == x[actives[a as int] as int]);
                }
                assert forall|a: ClassId, m: int|
                    p.classes.contains_key(a) && 0 <= m < p.classes[a].len() implies y[(
                #[trigger] p.classes[a][m]).variable as int] == (if sel.contains_key(a) && sel[a]
                    == p.classes[a][m].node {
                    1int
                } else {
                    0
                }) by {
                    assert(y[p.classes[a][m].variable as int]
                        == x[p.classes[a][m].variable as int]);
                }
            }
            assert forall|k: int| 0 <= k < all.len() implies y[(#[trigger] all[k]) as int] == (
            if uses(p, sel, cycle, k) {
                1int
            } else {
                0
            }) by {
                if k < i {
                    assert(all[k] == cols[k]);
                    assert(y[all[k] as int] == x[cols[k] as int]);
                } else {
                    assert(all[k] == fresh);
                }
            }
            assert(is_edge_point(next, p, actives, n, sel, cycle, all, y));
        }
    }
}

pub proof fn lemma_unit_coeffs(cols: Seq<Col>, x: Seq<int>, k: nat)
    requires
        k <= cols.len(),
    ensures
        unit_coeffs(cols, k).len() == k,
        forall|i: int| 0 <= i < k ==> (#[trigger] unit_coeffs(cols, k)[i]).0 == cols[i],
        coeff_sum(unit_coeffs(cols, k), x, k) == ONE * ones_sum(cols, x, k),
    decreases k,
{
    let coeffs = unit_coeffs(cols, k);
    if k == 0 {
        assert(ONE * 0 == 0);
    } else {
        lemma_unit_coeffs(cols, x, (k - 1) as nat);
        let before = unit_coeffs(cols, (k - 1) as nat);
        lemma_prefix(before, coeffs[k - 1], x, (k - 1) as nat);
        let s = ones_sum(cols, x, (k - 1) as nat);
        let v = x[cols[k - 1] as int];
        assert(ONE * s + ONE * v == ONE * (s + v)) by (nonlinear_arith);
        assert forall|i: int| 0 <= i < k implies (#[trigger] coeffs[i]).0 == cols[i] by {
            if i < k - 1 {
                assert(coeffs[i] == before[i]);
            }
        }
    }
}

proof fn lemma_prefix(coeffs: Seq<(Col, Cost)>, last: (Col, Cost), x: Seq<int>, k: nat)
    requires
        k <= coeffs.len(),
    ensures
        coeff_sum(coeffs.push(last), x, k) == coeff_sum(coeffs, x, k),
    decreases k,
{
    if k > 0 {
        lemma_prefix(coeffs, last, x, (k - 1) as nat);
    }
}

/// The sum of the first `k` of `cols`.
pub open spec fn ones_sum(cols: Seq<Col>, x: Seq<int>, k: nat) -> int
    decreases k,
{
    if k == 0 {
        0
    } else {
        ones_sum(cols, x, (k - 1) as nat) + x[cols[k - 1] as int]
    }
}

/// If an edge is not used, not all columns are on.
proof fn lemma_not_all(
    p: Problem,
    sel: Map<ClassId, NodeId>,
    cycle: Seq<ClassId>,
    cols: Seq<Col>,
    x: Seq<int>,
    k: nat,
)
    requires
        k <= cols.len(),
        forall|j: int|
            0 <= j < cols.len() ==> x[(#[trigger] cols[j]) as int] == (if uses(p, sel, cycle, j) {
                1int
            } else {
                0
            }),
    ensures
        ones_sum(cols, x, k) <= k,
        (exists|j: int| 0 <= j < k && !#[trigger] uses(p, sel, cycle, j)) ==> ones_sum(cols, x, k)
            <= k - 1,
    decreases k,
{
    if k > 0 {
        lemma_not_all(p, sel, cycle, cols, x, (k - 1) as nat);
        assert(x[cols[k - 1] as int] == (if uses(p, sel, cycle, k - 1) {
            1int
        } else {
            0
        }));
        if exists|j: int| 0 <= j < k && !#[trigger] uses(p, sel, cycle, j) {
            let j = choose|j: int| 0 <= j < k && !#[trigger] uses(p, sel, cycle, j);
            if j < k - 1 {
                assert(!uses(p, sel, cycle, j));
            }
        }
    }
}

/// No solution uses every edge of a cycle.
proof fn lemma_some_unused(p: Problem, sel: Map<ClassId, NodeId>, cycle: Seq<ClassId>)
    requires
        solves(p, sel),
        cycle.len() > 0,
    ensures
        exists|j: int| 0 <= j < cycle.len() && !#[trigger] uses(p, sel, cycle, j),
{
    if forall|j: int| 0 <= j < cycle.len() ==> #[trigger] uses(p, sel, cycle, j) {
        let rank = choose|rank: Map<ClassId, nat>| solves_with(p, sel, rank);
        lemma_falls(p, sel, rank, cycle, (cycle.len() - 1) as nat);
        let i = cycle.len() - 1;
        assert(uses(p, sel, cycle, i));
        let c = cycle[i];
        assert(choice_of(p, c, sel[c]).kids.contains(cycle[0]));
    }
}

proof fn lemma_falls(
    p: Problem,
    sel: Map<ClassId, NodeId>,
    rank: Map<ClassId, nat>,
    cycle: Seq<ClassId>,
    i: nat,
)
    requires
        solves_with(p, sel, rank),
        i < cycle.len(),
        forall|j: int| 0 <= j < cycle.len() ==> #[trigger] uses(p, sel, cycle, j),
    ensures
        rank[cycle[i as int]] <= rank[cycle[0]],
    decreases i,
{
    if i > 0 {
        lemma_falls(p, sel, rank, cycle, (i - 1) as nat);
        assert(uses(p, sel, cycle, i - 1));
        let c = cycle[i - 1];
        assert(choice_of(p, c, sel[c]).kids.contains(cycle[i as int]));
    }
}

/// The last row rules out no solution.
proof fn lemma_not_all_row(
    lp: Lp,
    p: Problem,
    actives: Seq<Col>,
    n: nat,
    cycle: Seq<ClassId>,
    cols: Seq<Col>,
    width: nat,
)
    requires
        lp.cols.len() <= usize::MAX,
        cycle.len() > 0,
        cols.len() == cycle.len(),
        edges_apart(p, cycle, width, lp, cols),
        admits_edges(lp, p, actives, n, cycle, cols),
    ensures
        admits(Lp { rows: lp.rows.push(not_all_row(cols)), ..lp }, p, actives, n),
{
    let next = Lp { rows: lp.rows.push(not_all_row(cols)), ..lp };
    assert forall|sel: Map<ClassId, NodeId>| #[trigger] solves(p, sel) implies has_point(
        next,
        p,
        actives,
        n,
        sel,
    ) by {
        assert(has_edge_point(lp, p, actives, n, sel, cycle, cols));
        let x = choose|x: Seq<int>| is_edge_point(lp, p, actives, n, sel, cycle, cols, x);
        let coeffs = unit_coeffs(cols, cols.len());
        lemma_unit_coeffs(cols, x, cols.len());
        lemma_not_all(p, sel, cycle, cols, x, cols.len());
        lemma_some_unused(p, sel, cycle);
        assert(distinct_cols(coeffs, x.len())) by {
            assert forall|i: int| 0 <= i < coeffs.len() implies (#[trigger] coeffs[i]).0
                < x.len() by {
                assert(coeffs[i].0 == cols[i]);
            }
            assert forall|i: int, j: int| 0 <= i < j < coeffs.len() implies (
            #[trigger] coeffs[i]).0 != (#[trigger] coeffs[j]).0 by {
                assert(cols[i] != cols[j]);
            }
        }
        let upper = saturate((cols.len() - 1) * ONE);
        lemma_row_of(NEG_INFINITY, upper, coeffs, x, 1);
        let s = ones_sum(cols, x, cols.len());
        let most = cols.len() - 1;
        assert(ONE * s <= most * ONE) by (nonlinear_arith)
            requires
                s <= most,
        ;
        assert(row_holds(not_all_row(cols), x, 1));
        assert forall|r: int| 0 <= r < next.rows.len() implies row_holds(
            #[trigger] next.rows[r],
            x,
            1,
        ) by {
            if r < lp.rows.len() {
                assert(next.rows[r] == lp.rows[r]);
            }
        }
        assert(feasible(next, x, 1));
        assert(objective_at(next, x) == objective_at(lp, x)) by {
            let f = objective_term(next, x);
            let h = objective_term(lp, x);
            assert forall|j: int| 0 <= j < next.cols.len() implies #[trigger] f(j) == h(j) by {}
            lemma_total_prefix(f, h, next.cols.len());
        }
        assert(is_point_of(next, p, actives, n, sel, x));
    }
}

/// A model that has the rows and columns of the problem, and more of no cost,
/// is a model of the problem.
proof fn lemma_still_encodes(
    lp: Lp,
    next: Lp,
    p: Problem,
    actives: Seq<Col>,
    config: Config,
    n: nat,
)
    requires
        encodes(lp, p, actives, config, n),
        next.cols.len() <= usize::MAX,
        lp.cols.len() <= next.cols.len(),
        lp.rows.len() <= next.rows.len(),
        forall|j: int| 0 <= j < lp.cols.len() ==> #[trigger] next.cols[j] == lp.cols[j],
        forall|j: int| lp.cols.len() <= j < next.cols.len() ==> #[trigger] next.cols[j]
            == fresh_binary(),
        forall|r: int| 0 <= r < lp.rows.len() ==> #[trigger] next.rows[r] == lp.rows[r],
    ensures
        encodes(next, p, actives, config, n),
{
    assert forall|row: RowModel| #[trigger] rows_to(p, actives, config, n).contains(row) implies next.rows.contains(
    row) by {
        assert(lp.rows.contains(row));
        let r = choose|r: int| 0 <= r < lp.rows.len() && lp.rows[r] == row;
        assert(next.rows[r] == row);
    }
    assert forall|c: ClassId, i: int|
        p.classes.contains_key(c) && 0 <= i < p.classes[c].len() implies (
    #[trigger] p.classes[c][i]).variable < next.cols.len() by {
        assert(p.classes[c][i].variable < lp.cols.len());
    }
    assert forall|j: int| 0 <= j < next.cols.len() && !owned(p, actives, j) implies #[trigger] next.cols[j]
        == fresh_binary() by {
        if j < lp.cols.len() {
            assert(lp.cols[j] == fresh_binary());
        }
    }
}

/// The model of a problem admits every solution of it.
pub proof fn lemma_model_admits(lp: Lp, p: Problem, actives: Seq<Col>, config: Config, n: nat)
    requires
        sound(p, n),
        n <= usize::MAX,
        encodes(lp, p, actives, config, n),
        forall|r: int|
            0 <= r < lp.rows.len() ==> rows_to(p, actives, config, n).contains(
                #[trigger] lp.rows[r],
            ),
    ensures
        admits(lp, p, actives, n),
{
    assert forall|sel: Map<ClassId, NodeId>| #[trigger] solves(p, sel) implies has_point(
        lp,
        p,
        actives,
        n,
        sel,
    ) by {
        let rank = choose|rank: Map<ClassId, nat>| solves_with(p, sel, rank);
        let width = lp.cols.len();
        let x = point_of(p, actives, sel, n, width);
        lemma_point_of(p, actives, n, sel, width);
        assert(shows(p, actives, sel, x));
        assert(is_closed_under(p, sel));
        assert forall|j: int| 0 <= j < x.len() implies within(
            (#[trigger] lp.cols[j]).lower,
            lp.cols[j].upper,
            x[j] * ONE,
            1,
        ) && (lp.cols[j].integral ==> x[j] % 1 == 0) by {
            if owned(p, actives, j) {
                if exists|c: ClassId| #[trigger]
                    p.classes.contains_key(c) && actives[c as int] == j {
                    let c = choose|c: ClassId| #[trigger]
                        p.classes.contains_key(c) && actives[c as int] == j;
                    if is_closed(p, c) && sel.contains_key(c) {
                        lemma_offered(p.classes[c], sel[c]);
                    }
                    if p.roots.contains(c) {
                        assert(sel.contains_key(c));
                    }
                } else {
                    let (c, i) = choose|c: ClassId, i: int|
                        p.classes.contains_key(c) && 0 <= i < p.classes[c].len() && (
                        #[trigger] p.classes[c][i]).variable == j;
                    assert(x[p.classes[c][i].variable as int] == 0
                        || x[p.classes[c][i].variable as int] == 1);
                }
            } else {
                assert(lp.cols[j] == fresh_binary());
            }
        }
        assert forall|r: int| 0 <= r < lp.rows.len() implies row_holds(
            #[trigger] lp.rows[r],
            x,
            1,
        ) by {
            assert(rows_to(p, actives, config, n).contains(lp.rows[r]));
            lemma_rows_hold(p, actives, config, n, sel, x, lp.rows[r]);
        }
        assert(feasible(lp, x, 1));
        lemma_solution_objective(lp, p, actives, config, n, sel);
        assert(is_point_of(lp, p, actives, n, sel, x));
    }
}

// ---------------------------------------------------------------------------
// Blocking
// ---------------------------------------------------------------------------

/// [`level_to`] of all nodes.
fn level_of(nodes: &Vec<NodeIlp>, d: ClassId) -> (r: Vec<Col>)
    ensures
        r@ == level_to(choices_in(nodes@), d, nodes@.len()),
{
    let ghost list = choices_in(nodes@);
    let mut cols: Vec<Col> = Vec::new();
    let mut i: usize = 0;
    while i < nodes.len()
        invariant
            list == choices_in(nodes@),
            i <= nodes@.len(),
            cols@ == level_to(list, d, i as nat),
        decreases nodes@.len() - i,
    {
        assert(list[i as int] == nodes@[i as int]@);
        if id_set_contains(&nodes[i].children_classes, d) {
            cols.push(nodes[i].variable);
        }
        i += 1;
    }
    cols
}

/// Adds rows by which the classes of a cycle are no longer all chosen so that
/// each needs the next. Nothing that solves the problem is lost.
pub(crate) fn block_cycle(
    vars: &Vars,
    cycle: &Vec<ClassId>,
    config: &Config,
    model: &mut Staged,
)
    requires
        vars.wf(),
        old(model).wf(),
        cycle@.len() > 0,
        cycle@.no_duplicates(),
        forall|k: int|
            0 <= k < cycle@.len() ==> vars@.classes.contains_key(#[trigger] cycle@[k]),
        encodes(old(model).lp(), vars@, vars.actives(), *config, vars.size()),
        admits(old(model).lp(), vars@, vars.actives(), vars.size()),
    ensures
        final(model).wf(),
        final(model).lp() == blocked(vars@, cycle@, old(model).lp()),
        final(model).start() == old(model).start(),
        final(model).sent() == old(model).sent(),
        old(model).delta().kept_by(final(model).delta()),
        encodes(final(model).lp(), vars@, vars.actives(), *config, vars.size()),
        admits(final(model).lp(), vars@, vars.actives(), vars.size()),
{
    let ghost p = vars@;
    let ghost n = vars.size();
    let ghost actives = vars.actives();
    let ghost lp0 = model.lp();
    let ghost width = lp0.cols.len();
    let mut blocking: Vec<Col> = Vec::new();
    let len: usize = cycle.len();
    let mut i: usize = 0;
    proof {
        assert(edges_to(p, cycle@, lp0, 0) == (lp0, Seq::<Col>::empty()));
        assert(blocking@ =~= Seq::empty());
        assert forall|sel: Map<ClassId, NodeId>| #[trigger] solves(p, sel) implies has_edge_point(
            lp0,
            p,
            actives,
            n,
            sel,
            cycle@,
            Seq::<Col>::empty(),
        ) by {
            assert(has_point(lp0, p, actives, n, sel));
            let x = choose|x: Seq<int>| is_point_of(lp0, p, actives, n, sel, x);
            assert(is_edge_point(
                lp0,
                p,
                actives,
                n,
                sel,
                cycle@,
                Seq::<Col>::empty(),
                x,
            ));
        }
    }
    while i < len
        invariant
            vars.wf(),
            p == vars@,
            n == vars.size(),
            actives == vars.actives(),
            width == lp0.cols.len(),
            encodes(lp0, p, actives, *config, n),
            len == cycle@.len(),
            cycle@.len() > 0,
            cycle@.no_duplicates(),
            forall|k: int| 0 <= k < cycle@.len() ==> p.classes.contains_key(#[trigger] cycle@[k]),
            i <= len,
            model.wf(),
            model.start() == old(model).start(),
            model.sent() == old(model).sent(),
            old(model).delta().kept_by(model.delta()),
            (model.lp(), blocking@) == edges_to(p, cycle@, lp0, i as nat),
            blocking@.len() == i,
            edges_apart(p, cycle@, width, model.lp(), blocking@),
            admits_edges(model.lp(), p, actives, n, cycle@, blocking@),
            model.lp().rows.len() >= lp0.rows.len(),
            forall|j: int| 0 <= j < width ==> #[trigger] model.lp().cols[j] == lp0.cols[j],
            forall|j: int|
                width <= j < model.lp().cols.len() ==> #[trigger] model.lp().cols[j]
                    == fresh_binary(),
            forall|r: int|
                0 <= r < lp0.rows.len() ==> #[trigger] model.lp().rows[r] == lp0.rows[r],
        decreases len - i,
    {
        let current: ClassId = cycle[i];
        let next: ClassId = if i + 1 < len {
            cycle[i + 1]
        } else {
            cycle[0]
        };
        assert(p.classes.contains_key(cycle@[i as int]));
        let nodes: &Vec<NodeIlp> = &vars.classes[current].nodes;
        assert(p.classes[current] == choices_in(nodes@));
        let this_level: Vec<Col> = level_of(nodes, next);
        let ghost own = level(p, cycle@, i as int);
        let ghost before = model.lp();
        let ghost cols = blocking@;
        assert(this_level@ == own);
        assert(rows_within(before));
        if this_level.len() == 1 {
            blocking.push(this_level[0]);
            proof {
                assert(edges_to(p, cycle@, lp0, (i + 1) as nat) == (model.lp(), blocking@));
                lemma_edge_step(
                    before,
                    p,
                    actives,
                    n,
                    cycle@,
                    cols,
                    width,
                    i as int,
                    (model.lp(), blocking@),
                );
            }
        } else {
            let fresh: Col = model.add_binary();
            let n_cols: usize = model.num_cols();
            blocking.push(fresh);
            let mut k: usize = 0;
            let ghost wide = model.lp();
            proof {
                assert(before.rows + link_rows(own, fresh, 0) =~= before.rows);
                assert forall|j: int| 0 <= j < own.len() implies (#[trigger] own[j])
                    < wide.cols.len() by {
                    lemma_level_to(p.classes[current], next, p.classes[current].len(), j);
                    let m = choose|m: int|
                        0 <= m < p.classes[current].len() && (
                        #[trigger] p.classes[current][m]).kids.contains(next)
                            && p.classes[current][m].variable == own[j];
                    assert(p.classes[current][m].variable < width);
                }
            }
            while k < this_level.len()
                invariant
                    this_level@ == own,
                    k <= own.len(),
                    fresh < wide.cols.len(),
                    forall|j: int| 0 <= j < own.len() ==> (#[trigger] own[j]) < wide.cols.len(),
                    model.wf(),
                    model.start() == old(model).start(),
                    model.sent() == old(model).sent(),
                    old(model).delta().kept_by(model.delta()),
                    model.lp() == (Lp {
                        rows: before.rows + link_rows(own, fresh, k as nat),
                        ..wide
                    }),
                decreases own.len() - k,
            {
                let coeffs: Vec<(Col, Cost)> = vec![(this_level[k], ONE), (fresh, MINUS_ONE)];
                proof {
                    assert(coeffs@ =~= seq![(own[k as int], ONE), (fresh, MINUS_ONE)]);
                    assert(own[k as int] < wide.cols.len());
                }
                add_constraint(model, NEG_INFINITY, 0, &coeffs);
                assert(model.lp().rows =~= before.rows + link_rows(own, fresh, (k + 1) as nat));
                k += 1;
            }
            proof {
                assert(fresh == before.cols.len());
                assert(model.lp() == (Lp {
                    cols: before.cols.push(fresh_binary()),
                    rows: before.rows + link_rows(own, fresh, own.len()),
                    ..before
                }));
                assert(edges_to(p, cycle@, lp0, (i + 1) as nat) == (model.lp(), blocking@));
                lemma_edge_step(
                    before,
                    p,
                    actives,
                    n,
                    cycle@,
                    cols,
                    width,
                    i as int,
                    (model.lp(), blocking@),
                );
            }
        }
        i += 1;
    }
    // One of the edges of the cycle is not to be used.
    let mut coeffs: Vec<(Col, Cost)> = Vec::new();
    let mut k: usize = 0;
    let ghost edges = model.lp();
    assert(coeffs@ =~= unit_coeffs(blocking@, 0));
    while k < blocking.len()
        invariant
            k <= blocking@.len(),
            coeffs@ == unit_coeffs(blocking@, k as nat),
            forall|j: int| 0 <= j < blocking@.len() ==> (#[trigger] blocking@[j]) < edges.cols.len(),
            forall|j: int| 0 <= j < coeffs@.len() ==> (#[trigger] coeffs@[j]).0 < edges.cols.len(),
        decreases blocking@.len() - k,
    {
        assert(blocking@[k as int] < edges.cols.len());
        coeffs.push((blocking[k], ONE));
        k += 1;
    }
    proof {
        assert((len - 1) * ONE <= 0x7fff_ffff_ffff_ffff_ffff_ffff_ffff_ffff) by (nonlinear_arith)
            requires
                1 <= len <= 0xffff_ffff_ffff_ffff,
        ;
        assert((len - 1) * ONE >= 0) by (nonlinear_arith)
            requires
                1 <= len,
        ;
    }
    let upper: Cost = saturate_wide((len - 1) as i128 * ONE as i128);
    add_constraint(model, NEG_INFINITY, upper, &coeffs);
    let n_cols: usize = model.num_cols();
    proof {
        lemma_not_all_row(edges, p, actives, n, cycle@, blocking@, width);
        lemma_still_encodes(lp0, model.lp(), p, actives, *config, n);
    }
}

} // verus!
