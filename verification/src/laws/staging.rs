//! What becomes of a model that is described step by step, and what a solver is told
//! of it.
use crate::cost::{Cost, Wide, INFINITY, NEG_INFINITY};
use crate::laws::backends::{is_nearest_whole, snapping_goes_to_the_nearest};
use crate::milp::gurobi;
use crate::milp::gurobi::{GurobiDelta, RowKind};
use crate::milp::highs;
use crate::milp::highs::HighsDelta;
use crate::milp::stage::{
    snap_integral, weight_of, Col, ColDef, Lp, Row, RowModel, Staged,
};
use crate::milp::MilpSense;
use vstd::prelude::*;

verus! {

/// What is described in `after` is what is in `before`, but for column `col`.
pub open spec fn only_col_changed(before: Lp, after: Lp, col: Col) -> bool {
    &&& after.sense == before.sense
    &&& after.rows == before.rows
    &&& after.cols.len() == before.cols.len()
    &&& forall|j: int| 0 <= j < before.cols.len() && j != col ==> #[trigger] after.cols[j]
        == before.cols[j]
}

/// What is described in `after` is what is in `before`, but for row `row`.
pub open spec fn only_row_changed(before: Lp, after: Lp, row: Row) -> bool {
    &&& after.sense == before.sense
    &&& after.cols == before.cols
    &&& after.rows.len() == before.rows.len()
    &&& forall|r: int| 0 <= r < before.rows.len() && r != row ==> #[trigger] after.rows[r]
        == before.rows[r]
}

/// A new model is empty and to be minimised, and nothing is pending.
pub proof fn new_models_are_empty(s: Staged)
    requires
        call_ensures(Staged::new, (), s),
    ensures
        s.lp().cols.len() == 0,
        s.lp().rows.len() == 0,
        s.lp().sense == MilpSense::Minimize,
        s.start() == Map::<Col, Cost>::empty(),
        s.in_sync(s.lp()),
{
}

/// Columns and rows are added last: a continuous column of bounds zero and infinity, a
/// binary one, and a row that constrains nothing. They cost nothing, and the rest stays.
pub proof fn additions_come_last(n: usize)
    ensures
        forall|s: &mut Staged| #[trigger]
            call_ensures(Staged::add_col, (s,), n) ==> n == s.lp().cols.len()
                && final(s).lp().cols == s.lp().cols.push(
                ColDef { lower: 0, upper: INFINITY, cost: 0, integral: false },
            ) && final(s).lp().rows == s.lp().rows && final(s).lp().sense == s.lp().sense
                && final(s).start() == s.start(),
        forall|s: &mut Staged| #[trigger]
            call_ensures(Staged::add_binary, (s,), n) ==> n == s.lp().cols.len()
                && final(s).lp().cols == s.lp().cols.push(
                ColDef { lower: 0, upper: 1_000_000, cost: 0, integral: true },
            ) && final(s).lp().rows == s.lp().rows && final(s).lp().sense == s.lp().sense
                && final(s).start() == s.start(),
        forall|s: &mut Staged| #[trigger]
            call_ensures(Staged::add_row, (s,), n) ==> n == s.lp().rows.len()
                && final(s).lp().rows == s.lp().rows.push(
                RowModel { lower: NEG_INFINITY, upper: INFINITY, weights: Map::empty() },
            ) && final(s).lp().cols == s.lp().cols && final(s).lp().sense == s.lp().sense
                && final(s).start() == s.start(),
{
}

/// Setting a bound or the cost of a column sets that and nothing else.
pub proof fn columns_are_set(col: Col, value: Cost, cost: Wide)
    ensures
        forall|s: &mut Staged| #[trigger]
            call_ensures(Staged::set_col_lower, (s, col, value), ()) && col < s.lp().cols.len() ==> {
                let (a, b) = (s.lp().cols[col as int], final(s).lp().cols[col as int]);
                only_col_changed(s.lp(), final(s).lp(), col) && b.lower == value && b.upper
                    == a.upper && b.cost == a.cost && b.integral == a.integral && final(s).start()
                    == s.start()
            },
        forall|s: &mut Staged| #[trigger]
            call_ensures(Staged::set_col_upper, (s, col, value), ()) && col < s.lp().cols.len() ==> {
                let (a, b) = (s.lp().cols[col as int], final(s).lp().cols[col as int]);
                only_col_changed(s.lp(), final(s).lp(), col) && b.upper == value && b.lower
                    == a.lower && b.cost == a.cost && b.integral == a.integral && final(s).start()
                    == s.start()
            },
        forall|s: &mut Staged| #[trigger]
            call_ensures(Staged::set_obj_coeff, (s, col, cost), ()) && col < s.lp().cols.len() ==> {
                let (a, b) = (s.lp().cols[col as int], final(s).lp().cols[col as int]);
                only_col_changed(s.lp(), final(s).lp(), col) && b.cost == cost && b.lower == a.lower
                    && b.upper == a.upper && b.integral == a.integral && final(s).start()
                    == s.start()
            },
{
}

/// Setting a bound of a row sets that and nothing else; setting it equal sets both.
pub proof fn rows_are_set(row: Row, value: Cost)
    ensures
        forall|s: &mut Staged| #[trigger]
            call_ensures(Staged::set_row_lower, (s, row, value), ()) && row < s.lp().rows.len() ==> {
                let (a, b) = (s.lp().rows[row as int], final(s).lp().rows[row as int]);
                only_row_changed(s.lp(), final(s).lp(), row) && b.lower == value && b.upper
                    == a.upper && b.weights == a.weights && final(s).start() == s.start()
            },
        forall|s: &mut Staged| #[trigger]
            call_ensures(Staged::set_row_upper, (s, row, value), ()) && row < s.lp().rows.len() ==> {
                let (a, b) = (s.lp().rows[row as int], final(s).lp().rows[row as int]);
                only_row_changed(s.lp(), final(s).lp(), row) && b.upper == value && b.lower
                    == a.lower && b.weights == a.weights && final(s).start() == s.start()
            },
        forall|s: &mut Staged| #[trigger]
            call_ensures(Staged::set_row_equal, (s, row, value), ()) && row < s.lp().rows.len() ==> {
                let (a, b) = (s.lp().rows[row as int], final(s).lp().rows[row as int]);
                only_row_changed(s.lp(), final(s).lp(), row) && b.lower == value && b.upper == value
                    && b.weights == a.weights && final(s).start() == s.start()
            },
{
}

/// A coefficient is the last one that was set, and none if that was zero; the other
/// coefficients and the bounds stay.
pub proof fn weights_are_set(row: Row, col: Col, weight: Cost)
    ensures
        forall|s: &mut Staged| #[trigger]
            call_ensures(Staged::set_weight, (s, row, col, weight), ()) && row < s.lp().rows.len()
                ==> {
                let (a, b) = (s.lp().rows[row as int], final(s).lp().rows[row as int]);
                only_row_changed(s.lp(), final(s).lp(), row) && b.lower == a.lower && b.upper
                    == a.upper && (b.weights.contains_key(col) <==> weight != 0) && (weight != 0
                    ==> b.weights[col] == weight) && (forall|c: Col|
                    c != col ==> (#[trigger] b.weights.contains_key(c) <==> a.weights.contains_key(
                        c,
                    )) && (a.weights.contains_key(c) ==> b.weights[c] == a.weights[c]))
                    && final(s).start() == s.start()
            },
{
}

/// Setting the direction sets that alone, and a start is what was set last for each
/// column, until all of it is replaced.
pub proof fn directions_and_starts_are_set(
    sense: MilpSense,
    col: Col,
    value: Cost,
    values: Vec<Cost>,
)
    ensures
        forall|s: &mut Staged| #[trigger]
            call_ensures(Staged::set_obj_sense, (s, sense), ()) ==> final(s).lp().sense == sense
                && final(s).lp().cols == s.lp().cols && final(s).lp().rows == s.lp().rows,
        forall|s: &mut Staged| #[trigger]
            call_ensures(Staged::set_warm, (s, col, value), ()) ==> final(s).lp() == s.lp()
                && final(s).start() == s.start().insert(col, value),
        forall|s: &mut Staged| #[trigger]
            call_ensures(Staged::set_warm_all, (s, &values), ()) ==> final(s).lp() == s.lp()
                && forall|c: Col| #[trigger]
                final(s).start().contains_key(c) <==> c < values@.len(),
        forall|s: &mut Staged, c: Col|
            call_ensures(Staged::set_warm_all, (s, &values), ()) && c < values@.len()
                ==> #[trigger] final(s).start()[c] == values@[c as int],
{
}

/// No change is lost on a solver: one that knew everything but what was pending still
/// does after any change, and after a flush it is one that holds the whole model.
pub proof fn no_change_is_lost(
    solver: Lp,
    col: Col,
    row: Row,
    value: Cost,
    cost: Wide,
    sense: MilpSense,
    n: usize,
)
    ensures
        forall|s: &mut Staged| #[trigger]
            call_ensures(Staged::add_col, (s,), n) && s.in_sync(solver) ==> final(s).in_sync(
                solver,
            ),
        forall|s: &mut Staged| #[trigger]
            call_ensures(Staged::add_binary, (s,), n) && s.in_sync(solver) ==> final(s).in_sync(
                solver,
            ),
        forall|s: &mut Staged| #[trigger]
            call_ensures(Staged::add_row, (s,), n) && s.in_sync(solver) ==> final(s).in_sync(
                solver,
            ),
        forall|s: &mut Staged| #[trigger]
            call_ensures(Staged::set_col_lower, (s, col, value), ()) && s.in_sync(solver)
                ==> final(s).in_sync(solver),
        forall|s: &mut Staged| #[trigger]
            call_ensures(Staged::set_col_upper, (s, col, value), ()) && s.in_sync(solver)
                ==> final(s).in_sync(solver),
        forall|s: &mut Staged| #[trigger]
            call_ensures(Staged::set_obj_coeff, (s, col, cost), ()) && s.in_sync(solver)
                ==> final(s).in_sync(solver),
        forall|s: &mut Staged| #[trigger]
            call_ensures(Staged::set_row_lower, (s, row, value), ()) && s.in_sync(solver)
                ==> final(s).in_sync(solver),
        forall|s: &mut Staged| #[trigger]
            call_ensures(Staged::set_row_upper, (s, row, value), ()) && s.in_sync(solver)
                ==> final(s).in_sync(solver),
        forall|s: &mut Staged| #[trigger]
            call_ensures(Staged::set_row_equal, (s, row, value), ()) && s.in_sync(solver)
                ==> final(s).in_sync(solver),
        forall|s: &mut Staged| #[trigger]
            call_ensures(Staged::set_weight, (s, row, col, value), ()) && s.in_sync(solver)
                ==> final(s).in_sync(solver),
        forall|s: &mut Staged| #[trigger]
            call_ensures(Staged::set_obj_sense, (s, sense), ()) && s.in_sync(solver)
                ==> final(s).in_sync(solver),
        forall|s: &mut Staged| #[trigger]
            call_ensures(Staged::mark_flushed, (s,), ()) ==> final(s).lp() == s.lp()
                && final(s).in_sync(s.lp()) && final(s).start() == Map::<Col, Cost>::empty(),
{
}

/// What is pending is what a solver lacks: its columns are those of the model but for
/// the ones listed as changed and the new ones, and so are its rows' bounds, its
/// coefficients and its direction.
pub proof fn what_is_pending_is_what_a_solver_lacks(
    s: Staged,
    solver: Lp,
    new_cols: usize,
    new_rows: usize,
    cols: Vec<Col>,
    rows: Vec<Row>,
    coeffs: Vec<(Row, Col, Cost)>,
    sense: bool,
    c: Col,
    r: Row,
)
    requires
        s.in_sync(solver),
        call_ensures(Staged::num_new_cols, (&s,), new_cols),
        call_ensures(Staged::num_new_rows, (&s,), new_rows),
        call_ensures(Staged::dirty_cols, (&s,), cols),
        call_ensures(Staged::dirty_rows, (&s,), rows),
        call_ensures(Staged::dirty_coeffs, (&s,), coeffs),
        call_ensures(Staged::sense_dirty, (&s,), sense),
    ensures
        solver.cols.len() + new_cols == s.lp().cols.len(),
        solver.rows.len() + new_rows == s.lp().rows.len(),
        c < solver.cols.len() && !cols@.contains(c) ==> s.lp().cols[c as int]
            == solver.cols[c as int],
        r < solver.rows.len() && !rows@.contains(r) ==> s.lp().rows[r as int].lower
            == solver.rows[r as int].lower && s.lp().rows[r as int].upper
            == solver.rows[r as int].upper,
        r < solver.rows.len() && (forall|k: int|
            0 <= k < coeffs@.len() ==> !((#[trigger] coeffs@[k]).0 == r && coeffs@[k].1 == c))
            ==> is_coefficient(s.lp().rows[r as int], c, coefficient(solver.rows[r as int], c)),
        forall|k: int|
            0 <= k < coeffs@.len() ==> is_coefficient(
                s.lp().rows[(#[trigger] coeffs@[k]).0 as int],
                coeffs@[k].1,
                coeffs@[k].2,
            ),
        !sense ==> solver.sense == s.lp().sense,
{
    if r < solver.rows.len() && (forall|k: int|
        0 <= k < coeffs@.len() ==> !((#[trigger] coeffs@[k]).0 == r && coeffs@[k].1 == c)) {
        if s.delta().coeffs.contains((r, c)) {
            let k = choose|k: int|
                0 <= k < s.delta().coeffs.len() && s.delta().coeffs[k] == (r, c);
            assert(coeffs@[k].0 == r && coeffs@[k].1 == c);
        }
        assert(!s.delta().coeffs.contains((r, c)));
    }
}

/// The coefficient of a column in a row, zero where there is none.
pub open spec fn coefficient(row: RowModel, c: Col) -> Cost {
    if row.weights.contains_key(c) {
        row.weights[c]
    } else {
        0
    }
}

pub open spec fn is_coefficient(row: RowModel, c: Col, w: Cost) -> bool {
    coefficient(row, c) == w
}

/// What is read of a model is what was described.
pub proof fn models_are_read_back(
    s: Staged,
    cols: usize,
    rows: usize,
    sense: MilpSense,
    c: Col,
    def: ColDef,
    r: Row,
    coeffs: Vec<(Col, Cost)>,
    start: Vec<(Col, Cost)>,
    j: Col,
)
    requires
        call_ensures(Staged::num_cols, (&s,), cols),
        call_ensures(Staged::num_rows, (&s,), rows),
        call_ensures(Staged::sense, (&s,), sense),
        call_ensures(Staged::col, (&s, c), def),
        call_ensures(Staged::row_coeffs, (&s, r), coeffs),
        call_ensures(Staged::warm, (&s,), start),
    ensures
        cols == s.lp().cols.len(),
        rows == s.lp().rows.len(),
        sense == s.lp().sense,
        def == s.lp().cols[c as int],
        forall|k: int|
            0 <= k < coeffs@.len() ==> s.lp().rows[r as int].weights.contains_key(
                (#[trigger] coeffs@[k]).0,
            ) && coeffs@[k].1 == s.lp().rows[r as int].weights[coeffs@[k].0],
        forall|k: int, m: int|
            0 <= k < m < coeffs@.len() ==> (#[trigger] coeffs@[k]).0 != (#[trigger] coeffs@[m]).0,
        s.lp().rows[r as int].weights.contains_key(j) ==> exists|k: int|
            0 <= k < coeffs@.len() && (#[trigger] coeffs@[k]).0 == j,
        forall|k: int|
            0 <= k < start@.len() ==> s.start().contains_key((#[trigger] start@[k]).0)
                && start@[k].1 == s.start()[start@[k].0],
        s.start().contains_key(j) ==> exists|k: int|
            0 <= k < start@.len() && (#[trigger] start@[k]).0 == j,
{
    let order = s.row_order(r as int);
    assert forall|k: int| 0 <= k < coeffs@.len() implies s.lp().rows[r as int].weights.contains_key(
        (#[trigger] coeffs@[k]).0,
    ) && coeffs@[k].1 == s.lp().rows[r as int].weights[coeffs@[k].0] by {
        assert(order.contains(order[k]));
    }
    assert forall|k: int, m: int| 0 <= k < m < coeffs@.len() implies (#[trigger] coeffs@[k]).0 != (
    #[trigger] coeffs@[m]).0 by {
        assert(order[k] != order[m]);
    }
    if s.lp().rows[r as int].weights.contains_key(j) {
        assert(order.contains(j));
        let k = choose|k: int| 0 <= k < order.len() && order[k] == j;
        assert(coeffs@[k].0 == j);
    }
    let first = s.start_order();
    assert forall|k: int| 0 <= k < start@.len() implies s.start().contains_key(
        (#[trigger] start@[k]).0,
    ) && start@[k].1 == s.start()[start@[k].0] by {
        assert(first.contains(first[k]));
    }
    if s.start().contains_key(j) {
        assert(first.contains(j));
        let k = choose|k: int| 0 <= k < first.len() && first[k] == j;
        assert(start@[k].0 == j);
    }
}

/// Values of integral columns are rounded to the nearest whole number, others stay.
pub proof fn integral_values_are_rounded(staged: Staged, j: int)
    ensures
        forall|values: &mut Vec<Cost>| #[trigger]
            call_ensures(snap_integral, (&staged, values), ()) ==> final(values)@.len()
                == values@.len() && (0 <= j < values@.len() ==> if j < staged.lp().cols.len()
                && staged.lp().cols[j].integral {
                is_nearest_whole(values@[j], final(values)@[j])
            } else {
                final(values)@[j] == values@[j]
            }),
{
    assert forall|values: &mut Vec<Cost>| #[trigger]
        call_ensures(snap_integral, (&staged, values), ()) implies final(values)@.len()
        == values@.len() && (0 <= j < values@.len() ==> if j < staged.lp().cols.len()
        && staged.lp().cols[j].integral {
        is_nearest_whole(values@[j], final(values)@[j])
    } else {
        final(values)@[j] == values@[j]
    }) by {
        if 0 <= j < values@.len() {
            snapping_goes_to_the_nearest(values@[j]);
        }
    }
}

/// What HiGHS is told: the direction if it changed, every changed column as it is now,
/// every new column with its cost and bounds, made integral if it is, the bounds of
/// every changed row, every new row with its bounds and coefficients, and every changed
/// coefficient as it is now.
pub proof fn highs_is_told_what_changed(s: Staged, d: HighsDelta, i: int, k: int, j: Col)
    requires
        s.wf(),
        call_ensures(highs::flush_plan, (&s,), d),
        s.lp().cols.len() <= usize::MAX,
    ensures
        d.sense == (if s.delta().sense {
            Some(s.lp().sense)
        } else {
            None
        }),
        d.cols@.len() == s.delta().cols.len(),
        0 <= k < d.cols@.len() ==> d.cols@[k].0 == s.delta().cols[k] && d.cols@[k].1
            == s.lp().cols[d.cols@[k].0 as int],
        d.costs@.len() == s.lp().cols.len() - s.delta().old_cols,
        d.lower@.len() == d.costs@.len() && d.upper@.len() == d.costs@.len(),
        0 <= i < d.costs@.len() ==> d.costs@[i] == s.lp().cols[s.delta().old_cols + i].cost
            && d.lower@[i] == s.lp().cols[s.delta().old_cols + i].lower && d.upper@[i]
            == s.lp().cols[s.delta().old_cols + i].upper,
        d.integral@.contains(j) <==> s.delta().old_cols <= j < s.lp().cols.len()
            && s.lp().cols[j as int].integral,
        d.rows@.len() == s.delta().rows.len(),
        0 <= k < d.rows@.len() ==> d.rows@[k].0 == s.delta().rows[k] && d.rows@[k].1
            == s.lp().rows[d.rows@[k].0 as int].lower && d.rows@[k].2
            == s.lp().rows[d.rows@[k].0 as int].upper,
        d.starts@.len() == s.lp().rows.len() - s.delta().old_rows,
        d.row_lower@.len() == d.starts@.len() && d.row_upper@.len() == d.starts@.len(),
        0 <= i < d.starts@.len() ==> d.row_lower@[i] == s.lp().rows[s.delta().old_rows + i].lower
            && d.row_upper@[i] == s.lp().rows[s.delta().old_rows + i].upper,
        d.coeffs@.len() == s.delta().coeffs.len(),
        0 <= k < d.coeffs@.len() ==> (d.coeffs@[k].0, d.coeffs@[k].1) == s.delta().coeffs[k]
            && is_coefficient(s.lp().rows[d.coeffs@[k].0 as int], d.coeffs@[k].1, d.coeffs@[k].2),
{
    if 0 <= k < d.cols@.len() {
        assert(d.cols@[k] == (s.delta().cols[k], s.lp().cols[s.delta().cols[k] as int]));
    }
    if 0 <= i < d.costs@.len() {
        assert(d.costs@[i] == s.lp().cols[s.delta().old_cols + i].cost);
    }
    if 0 <= k < d.rows@.len() {
        let row = s.lp().rows[s.delta().rows[k] as int];
        assert(d.rows@[k] == (s.delta().rows[k], row.lower, row.upper));
    }
    if 0 <= i < d.starts@.len() {
        assert(d.starts@[i] <= d.end(i));
    }
    if 0 <= k < d.coeffs@.len() {
        let (r, c) = s.delta().coeffs[k];
        assert(d.coeffs@[k] == (r, c, weight_of(s.lp().rows[r as int].weights, c)));
    }
}

/// Where the coefficients of the `i`th new row end.
pub open spec fn end_of(d: HighsDelta, i: int) -> int {
    if i + 1 < d.starts@.len() {
        d.starts@[i + 1] as int
    } else {
        d.index@.len() as int
    }
}

/// The coefficients that HiGHS is told of a new row are those of the row, each once and
/// in the order in which they were first set.
pub proof fn highs_is_told_the_coefficients(s: Staged, d: HighsDelta, i: int, k: int)
    requires
        s.wf(),
        call_ensures(highs::flush_plan, (&s,), d),
        0 <= i < d.starts@.len(),
        d.starts@[i] <= k < end_of(d, i),
    ensures
        end_of(d, i) - d.starts@[i] == s.row_order(s.delta().old_rows + i).len(),
        k < d.index@.len() && d.index@.len() == d.value@.len(),
        d.index@[k] == s.row_order(s.delta().old_rows + i)[k - d.starts@[i]],
        is_coefficient(s.lp().rows[s.delta().old_rows + i], d.index@[k], d.value@[k]),
        s.lp().rows[s.delta().old_rows + i].weights.contains_key(d.index@[k]),
{
    assert(d.end(i) == end_of(d, i));
    assert(d.starts@[i] <= d.end(i) <= d.index@.len());
    let order = s.row_order(s.delta().old_rows + i);
    assert(d.row_index(i) == order);
    assert(d.row_index(i)[k - d.starts@[i]] == d.index@[k]);
    lemma_between(d.index@, d.value@, d.starts@[i] as int, end_of(d, i), k);
}

proof fn lemma_between(index: Seq<Col>, value: Seq<Cost>, from: int, to: int, k: int)
    requires
        0 <= from <= k < to <= index.len(),
        index.len() == value.len(),
        index.subrange(from, to).no_duplicates(),
    ensures
        highs::coeffs_between(index, value, from, to).contains_key(index[k]),
        highs::coeffs_between(index, value, from, to)[index[k]] == value[k],
    decreases to - from,
{
    if k < to - 1 {
        let part = index.subrange(from, to);
        let front = index.subrange(from, to - 1);
        assert forall|a: int, b: int|
            0 <= a < b < front.len() implies (#[trigger] front[a]) != (#[trigger] front[b]) by {
            assert(part[a] != part[b]);
        }
        lemma_between(index, value, from, to - 1, k);
        assert(part[k - from] != part[to - 1 - from]);
    }
}

/// What Gurobi is told of new columns, changed columns and changed coefficients is what
/// they are now, of a new row its pattern and its coefficients in order; the kind of a
/// row never changes, and a change that would need it is refused.
pub proof fn gurobi_is_told_what_changed(
    s: Staged,
    r: Result<GurobiDelta, gurobi::CategoryChange>,
    i: int,
)
    requires
        s.wf(),
    ensures
        forall|kinds: &mut Vec<RowKind>| #[trigger]
            call_ensures(gurobi::flush_plan, (&s, kinds), r) && kinds@.len() == s.delta().old_rows
                ==> (r matches Ok(d) ==> {
                &&& d.sense == (if s.delta().sense {
                    Some(s.lp().sense)
                } else {
                    None
                })
                &&& d.new_cols@.len() == s.lp().cols.len() - s.delta().old_cols
                &&& 0 <= i < d.new_cols@.len() ==> d.new_cols@[i].0 == s.delta().old_cols + i
                    && d.new_cols@[i].1 == s.lp().cols[s.delta().old_cols + i]
                &&& d.new_rows@.len() == s.lp().rows.len() - s.delta().old_rows
                &&& final(kinds)@.len() == s.lp().rows.len()
                &&& 0 <= i < kinds@.len() ==> final(kinds)@[i] == kinds@[i]
            }),
{
    assert forall|kinds: &mut Vec<RowKind>| #[trigger]
        call_ensures(gurobi::flush_plan, (&s, kinds), r) && kinds@.len()
            == s.delta().old_rows implies (r matches Ok(d) ==> {
        &&& d.sense == (if s.delta().sense {
            Some(s.lp().sense)
        } else {
            None
        })
        &&& d.new_cols@.len() == s.lp().cols.len() - s.delta().old_cols
        &&& 0 <= i < d.new_cols@.len() ==> d.new_cols@[i].0 == s.delta().old_cols + i
            && d.new_cols@[i].1 == s.lp().cols[s.delta().old_cols + i]
        &&& d.new_rows@.len() == s.lp().rows.len() - s.delta().old_rows
        &&& final(kinds)@.len() == s.lp().rows.len()
        &&& 0 <= i < kinds@.len() ==> final(kinds)@[i] == kinds@[i]
    }) by {
        if let Ok(d) = r {
            if 0 <= i < d.new_cols@.len() {
                assert(d.new_cols@[i].0 == s.delta().old_cols + i);
            }
            if 0 <= i < kinds@.len() {
                assert(final(kinds)@[i] == kinds@[i]);
            }
        }
    }
}

} // verus!
