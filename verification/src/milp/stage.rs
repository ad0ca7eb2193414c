//! Solver-neutral description of a model, with what a live solver still has to
//! be told of it.
//!
//! Extraction models are built a bound and a coefficient at a time. A live
//! solver would rather have whole rows: a row must have real bounds the moment
//! it is created, and poking one coefficient at a time into a live sparse
//! matrix makes model construction quadratic. So new columns and rows are
//! buffered here and pushed in bulk at the start of the next solve.
//!
//! What is buffered is only the **delta since the last solve**: everything
//! pushed stays in the solver, and rows added between solves are appended to
//! it. Changes to what has already been pushed are recorded and replayed.
use crate::collections::{
    id_set, id_set_clear, id_set_get_index, id_set_insert, id_set_len, id_set_new, num_keys,
    num_map, num_map_clear, num_map_get, num_map_get_index, num_map_insert, num_map_len,
    num_map_new, num_map_shift_remove, pair_set, pair_set_clear, pair_set_get_index,
    pair_set_insert, pair_set_len, pair_set_new,
};
use crate::cost::{saturate, saturate_wide, Cost, Wide, INFINITY, NEG_INFINITY, ONE};
use crate::milp::MilpSense;
use indexmap::{IndexMap, IndexSet};
use vstd::prelude::*;

verus! {

/// Index of a column.
pub type Col = usize;

/// Index of a row.
pub type Row = usize;

/// A column: its bounds, its objective coefficient, and whether it is integral.
#[derive(Debug, Clone, Copy, PartialEq, Eq)]
pub struct ColDef {
    pub lower: Cost,
    pub upper: Cost,
    /// The objective coefficient, with twelve decimals: a product of two amounts
    /// is not rounded.
    pub cost: Wide,
    pub integral: bool,
}

/// A row: its bounds and its coefficients.
pub struct RowDef {
    pub lower: Cost,
    pub upper: Cost,
    /// Column to coefficient, in the order the coefficients were first set, so
    /// that the solver is handed the same matrix on every run.
    pub coeffs: IndexMap<Col, Cost>,
}

/// What a row says: `lower <= sum of weight * column <= upper`.
#[verifier::ext_equal]
pub struct RowModel {
    pub lower: Cost,
    pub upper: Cost,
    pub weights: Map<Col, Cost>,
}

/// What a model says.
#[verifier::ext_equal]
pub struct Lp {
    pub cols: Seq<ColDef>,
    pub rows: Seq<RowModel>,
    pub sense: MilpSense,
}

/// A model description plus the bookkeeping needed to push only the delta to a
/// live solver.
pub struct Staged {
    cols: Vec<ColDef>,
    rows: Vec<RowDef>,
    /// `cols[..pushed_cols]` are already in the solver.
    pushed_cols: usize,
    /// `rows[..pushed_rows]` are already in the solver.
    pushed_rows: usize,
    /// Pushed columns whose bounds or cost changed.
    dirty_cols: IndexSet<Col>,
    /// Pushed rows whose bounds changed.
    dirty_rows: IndexSet<Row>,
    /// Row and column of coefficients on pushed rows that changed.
    dirty_coeffs: IndexSet<(Row, Col)>,
    /// Staged MIP start, possibly of some columns only.
    warm: IndexMap<Col, Cost>,
    sense: MilpSense,
    sense_dirty: bool,
}

/// A continuous column of bounds `[0, +inf)` that costs nothing.
pub open spec fn fresh_col() -> ColDef {
    ColDef { lower: 0, upper: INFINITY, cost: 0, integral: false }
}

/// An integral column of bounds `[0, 1]` that costs nothing.
pub open spec fn fresh_binary() -> ColDef {
    ColDef { lower: 0, upper: ONE, cost: 0, integral: true }
}

/// A row that constrains nothing.
pub open spec fn fresh_row() -> RowModel {
    RowModel { lower: NEG_INFINITY, upper: INFINITY, weights: Map::empty() }
}

/// `weights` with the coefficient of `col` replaced; a zero is no entry.
pub open spec fn reweighted(weights: Map<Col, Cost>, col: Col, weight: Cost) -> Map<Col, Cost> {
    if weight == 0 {
        weights.remove(col)
    } else {
        weights.insert(col, weight)
    }
}

/// The coefficient of `col`.
pub open spec fn weight_of(weights: Map<Col, Cost>, col: Col) -> Cost {
    if weights.contains_key(col) {
        weights[col]
    } else {
        0
    }
}

/// The whole number nearest to `v`, halves away from zero.
pub open spec fn snapped(v: Cost) -> Cost {
    if v >= 0 {
        saturate(((v + 500_000) / 1_000_000) * 1_000_000)
    } else {
        saturate(-(((500_000 - v) / 1_000_000) * 1_000_000))
    }
}

impl RowDef {
    pub open spec fn model(&self) -> RowModel {
        RowModel { lower: self.lower, upper: self.upper, weights: num_map(self.coeffs) }
    }
}

/// The models of the rows.
pub open spec fn row_models(rows: Seq<RowDef>) -> Seq<RowModel> {
    Seq::new(rows.len(), |i: int| rows[i].model())
}

/// A model and what a live solver still has to be told of it.
#[verifier::ext_equal]
pub struct Delta {
    /// The model as described.
    pub lp: Lp,
    /// How many columns the solver has.
    pub old_cols: nat,
    /// How many rows the solver has.
    pub old_rows: nat,
    /// The columns of the solver that changed, in the order they first did.
    pub cols: Seq<Col>,
    /// The rows of the solver whose bounds changed.
    pub rows: Seq<Row>,
    /// The coefficients in rows of the solver that changed.
    pub coeffs: Seq<(Row, Col)>,
    /// Whether the direction of the objective changed.
    pub sense: bool,
}

impl Delta {
    /// The delta only speaks of what is there, and no coefficient is zero or
    /// of an unknown column.
    pub open spec fn ok(self) -> bool {
        &&& self.old_cols <= self.lp.cols.len()
        &&& self.old_rows <= self.lp.rows.len()
        &&& forall|i: int| 0 <= i < self.cols.len() ==> (#[trigger] self.cols[i]) < self.old_cols
        &&& forall|i: int| 0 <= i < self.rows.len() ==> (#[trigger] self.rows[i]) < self.old_rows
        &&& forall|i: int|
            0 <= i < self.coeffs.len() ==> (#[trigger] self.coeffs[i]).0 < self.old_rows
                && self.coeffs[i].1 < self.lp.cols.len()
        &&& forall|r: int, c: Col|
            0 <= r < self.lp.rows.len() && (#[trigger] self.lp.rows[r].weights.contains_key(c))
                ==> c < self.lp.cols.len() && self.lp.rows[r].weights[c] != 0
    }

    /// `solver` is the model but for what changed.
    pub open spec fn synced(self, solver: Lp) -> bool {
        &&& solver.cols.len() == self.old_cols
        &&& solver.rows.len() == self.old_rows
        &&& forall|c: Col|
            c < self.old_cols && !self.cols.contains(c) ==> #[trigger] self.lp.cols[c as int]
                == solver.cols[c as int]
        &&& forall|r: Row|
            r < self.old_rows && !self.rows.contains(r) ==> (
            #[trigger] self.lp.rows[r as int]).lower == solver.rows[r as int].lower
                && self.lp.rows[r as int].upper == solver.rows[r as int].upper
        &&& forall|r: Row, c: Col|
            r < self.old_rows && !(#[trigger] self.coeffs.contains((r, c))) ==> weight_of(
                self.lp.rows[r as int].weights,
                c,
            ) == weight_of(solver.rows[r as int].weights, c)
        &&& !self.sense ==> solver.sense == self.lp.sense
    }

    /// Every solver that `self` describes the delta of, `after` does too.
    pub open spec fn kept_by(self, after: Delta) -> bool {
        forall|solver: Lp| #[trigger] self.synced(solver) ==> after.synced(solver)
    }
}

impl Delta {
    /// With a column replaced, and noted if the solver has it.
    pub open spec fn with_col(self, col: Col, def: ColDef) -> Delta {
        Delta {
            lp: Lp { cols: self.lp.cols.update(col as int, def), ..self.lp },
            cols: if col < self.old_cols {
                noted(self.cols, col)
            } else {
                self.cols
            },
            ..self
        }
    }

    /// With the bounds of a row replaced, and noted if the solver has it.
    pub open spec fn with_bounds(self, row: Row, lower: Cost, upper: Cost) -> Delta {
        let def = RowModel { lower, upper, ..self.lp.rows[row as int] };
        Delta {
            lp: Lp { rows: self.lp.rows.update(row as int, def), ..self.lp },
            rows: if row < self.old_rows {
                noted(self.rows, row)
            } else {
                self.rows
            },
            ..self
        }
    }

    /// With a coefficient replaced, and noted if the solver has its row.
    pub open spec fn with_weight(self, row: Row, col: Col, weight: Cost) -> Delta {
        let def = RowModel {
            weights: reweighted(self.lp.rows[row as int].weights, col, weight),
            ..self.lp.rows[row as int]
        };
        Delta {
            lp: Lp { rows: self.lp.rows.update(row as int, def), ..self.lp },
            coeffs: if row < self.old_rows {
                noted(self.coeffs, (row, col))
            } else {
                self.coeffs
            },
            ..self
        }
    }

    /// With the direction of the objective replaced, and noted if that is a
    /// change.
    pub open spec fn with_sense(self, sense: MilpSense) -> Delta {
        if sense == self.lp.sense {
            self
        } else {
            Delta { lp: Lp { sense, ..self.lp }, sense: true, ..self }
        }
    }

    /// With a column added.
    pub open spec fn with_new_col(self, def: ColDef) -> Delta {
        Delta { lp: Lp { cols: self.lp.cols.push(def), ..self.lp }, ..self }
    }

    /// With a row added.
    pub open spec fn with_new_row(self) -> Delta {
        Delta { lp: Lp { rows: self.lp.rows.push(fresh_row()), ..self.lp }, ..self }
    }

    /// With nothing left to tell the solver.
    pub open spec fn flushed(self) -> Delta {
        Delta {
            lp: self.lp,
            old_cols: self.lp.cols.len(),
            old_rows: self.lp.rows.len(),
            cols: Seq::empty(),
            rows: Seq::empty(),
            coeffs: Seq::empty(),
            sense: false,
        }
    }
}

/// `items` with `item` among them.
pub open spec fn noted<T>(items: Seq<T>, item: T) -> Seq<T> {
    if items.contains(item) {
        items
    } else {
        items.push(item)
    }
}

proof fn lemma_noted<T>(items: Seq<T>, item: T, x: T)
    ensures
        noted(items, item).contains(x) <==> items.contains(x) || x == item,
{
    let all = noted(items, item);
    if items.contains(x) {
        let k = choose|k: int| 0 <= k < items.len() && items[k] == x;
        assert(all[k] == x);
    }
    if !items.contains(item) {
        assert(all[items.len() as int] == item);
    }
    if all.contains(x) {
        let k = choose|k: int| 0 <= k < all.len() && all[k] == x;
        if k < items.len() {
            assert(items[k] == x);
        }
    }
}

/// Changing a column and noting it.
proof fn lemma_col_set(d: Delta, col: Col, def: ColDef)
    requires
        d.ok(),
        col < d.lp.cols.len(),
    ensures
        d.with_col(col, def).ok() && d.kept_by(d.with_col(col, def)),
{
    let after = d.with_col(col, def);
    assert(after.lp.rows == d.lp.rows);
    assert(after.ok());
    assert forall|solver: Lp| #[trigger] d.synced(solver) implies after.synced(solver) by {
        assert forall|c: Col|
            c < after.old_cols && !after.cols.contains(c) implies #[trigger] after.lp.cols[c as int]
            == solver.cols[c as int] by {
            lemma_noted(d.cols, col, c);
            assert(d.lp.cols[c as int] == solver.cols[c as int]);
        }
    }
}

/// Changing the bounds of a row and noting it.
proof fn lemma_row_set(d: Delta, row: Row, lower: Cost, upper: Cost)
    requires
        d.ok(),
        row < d.lp.rows.len(),
    ensures
        d.with_bounds(row, lower, upper).ok() && d.kept_by(d.with_bounds(row, lower, upper)),
{
    let after = d.with_bounds(row, lower, upper);
    assert forall|r: int, c: Col|
        0 <= r < after.lp.rows.len() && (
        #[trigger] after.lp.rows[r].weights.contains_key(c)) implies c < after.lp.cols.len()
        && after.lp.rows[r].weights[c] != 0 by {
        assert(d.lp.rows[r].weights.contains_key(c));
    }
    assert(after.ok());
    assert forall|solver: Lp| #[trigger] d.synced(solver) implies after.synced(solver) by {
        assert forall|r: Row| r < after.old_rows && !after.rows.contains(r) implies (
        #[trigger] after.lp.rows[r as int]).lower == solver.rows[r as int].lower
            && after.lp.rows[r as int].upper == solver.rows[r as int].upper by {
            lemma_noted(d.rows, row, r);
            assert(d.lp.rows[r as int].lower == solver.rows[r as int].lower);
        }
        assert forall|r: Row, c: Col|
            r < after.old_rows && !(#[trigger] after.coeffs.contains((r, c))) implies weight_of(
            after.lp.rows[r as int].weights,
            c,
        ) == weight_of(solver.rows[r as int].weights, c) by {
            assert(!d.coeffs.contains((r, c)));
        }
    }
}

/// Changing a coefficient and noting it.
proof fn lemma_weight_set(d: Delta, row: Row, col: Col, weight: Cost)
    requires
        d.ok(),
        row < d.lp.rows.len(),
        col < d.lp.cols.len(),
    ensures
        d.with_weight(row, col, weight).ok() && d.kept_by(d.with_weight(row, col, weight)),
{
    let after = d.with_weight(row, col, weight);
    assert forall|r: int, c: Col|
        0 <= r < after.lp.rows.len() && (
        #[trigger] after.lp.rows[r].weights.contains_key(c)) implies c < after.lp.cols.len()
        && after.lp.rows[r].weights[c] != 0 by {
        if r != row || c != col {
            assert(d.lp.rows[r].weights.contains_key(c));
        }
    }
    assert(after.ok());
    assert forall|solver: Lp| #[trigger] d.synced(solver) implies after.synced(solver) by {
        assert forall|r: Row| r < after.old_rows && !after.rows.contains(r) implies (
        #[trigger] after.lp.rows[r as int]).lower == solver.rows[r as int].lower
            && after.lp.rows[r as int].upper == solver.rows[r as int].upper by {
            assert(d.lp.rows[r as int].lower == solver.rows[r as int].lower);
        }
        assert forall|r: Row, c: Col|
            r < after.old_rows && !(#[trigger] after.coeffs.contains((r, c))) implies weight_of(
            after.lp.rows[r as int].weights,
            c,
        ) == weight_of(solver.rows[r as int].weights, c) by {
            lemma_noted(d.coeffs, (row, col), (r, c));
            assert(!d.coeffs.contains((r, c)));
        }
    }
}

/// Changing the direction of the objective and noting it.
proof fn lemma_sense_set(d: Delta, sense: MilpSense)
    requires
        d.ok(),
    ensures
        ({
            let after = Delta { lp: Lp { sense, ..d.lp }, sense: true, ..d };
            after.ok() && d.kept_by(after)
        }),
{
    let after = Delta { lp: Lp { sense, ..d.lp }, sense: true, ..d };
    assert(after.lp.rows == d.lp.rows && after.lp.cols == d.lp.cols);
    assert(after.ok());
    assert forall|solver: Lp| #[trigger] d.synced(solver) implies after.synced(solver) by {}
}

/// Adding a column.
proof fn lemma_col_added(d: Delta, def: ColDef)
    requires
        d.ok(),
    ensures
        d.with_new_col(def).ok() && d.kept_by(d.with_new_col(def)),
{
    let after = d.with_new_col(def);
    assert(after.lp.rows == d.lp.rows);
    assert(after.ok());
    assert forall|solver: Lp| #[trigger] d.synced(solver) implies after.synced(solver) by {
        assert forall|c: Col|
            c < after.old_cols && !after.cols.contains(c) implies #[trigger] after.lp.cols[c as int]
            == solver.cols[c as int] by {
            assert(d.lp.cols[c as int] == solver.cols[c as int]);
        }
    }
}

/// Adding a row.
proof fn lemma_row_added(d: Delta)
    requires
        d.ok(),
    ensures
        d.with_new_row().ok() && d.kept_by(d.with_new_row()),
{
    let after = d.with_new_row();
    assert forall|r: int, c: Col|
        0 <= r < after.lp.rows.len() && (
        #[trigger] after.lp.rows[r].weights.contains_key(c)) implies c < after.lp.cols.len()
        && after.lp.rows[r].weights[c] != 0 by {
        assert(r < d.lp.rows.len());
        assert(d.lp.rows[r].weights.contains_key(c));
    }
    assert(after.ok());
    assert forall|solver: Lp| #[trigger] d.synced(solver) implies after.synced(solver) by {
        assert forall|r: Row| r < after.old_rows && !after.rows.contains(r) implies (
        #[trigger] after.lp.rows[r as int]).lower == solver.rows[r as int].lower
            && after.lp.rows[r as int].upper == solver.rows[r as int].upper by {
            assert(d.lp.rows[r as int].lower == solver.rows[r as int].lower);
        }
        assert forall|r: Row, c: Col|
            r < after.old_rows && !(#[trigger] after.coeffs.contains((r, c))) implies weight_of(
            after.lp.rows[r as int].weights,
            c,
        ) == weight_of(solver.rows[r as int].weights, c) by {
            assert(!d.coeffs.contains((r, c)));
        }
    }
}

impl Staged {
    /// The model, and what the solver still has to be told of it.
    pub closed spec fn delta(&self) -> Delta {
        Delta {
            lp: Lp { cols: self.cols@, rows: row_models(self.rows@), sense: self.sense },
            old_cols: self.pushed_cols as nat,
            old_rows: self.pushed_rows as nat,
            cols: id_set(self.dirty_cols),
            rows: id_set(self.dirty_rows),
            coeffs: pair_set(self.dirty_coeffs),
            sense: self.sense_dirty,
        }
    }

    /// The model as described so far.
    pub open spec fn lp(&self) -> Lp {
        self.delta().lp
    }

    /// The staged MIP start.
    pub closed spec fn start(&self) -> Map<Col, Cost> {
        num_map(self.warm)
    }

    /// The columns of the staged MIP start, in the order they were first set.
    pub closed spec fn start_order(&self) -> Seq<Col> {
        num_keys(self.warm)
    }

    /// The order in which a row's coefficients were first set.
    pub closed spec fn row_order(&self, row: int) -> Seq<Col> {
        num_keys(self.rows@[row].coeffs)
    }

    /// What there is keeps its order.
    pub open spec fn keeps_orders(&self, after: &Staged) -> bool {
        &&& after.start_order() == self.start_order()
        &&& forall|r: int|
            0 <= r < self.lp().rows.len() ==> #[trigger] after.row_order(r) == self.row_order(r)
    }

    /// How many columns and rows the solver has.
    pub open spec fn sent(&self) -> (nat, nat) {
        (self.delta().old_cols, self.delta().old_rows)
    }

    /// The delta only speaks of what is there.
    pub open spec fn wf(&self) -> bool {
        self.delta().ok()
    }

    /// `solver` is this model but for the recorded delta.
    pub open spec fn in_sync(&self, solver: Lp) -> bool {
        self.delta().synced(solver)
    }
}

/// Rounds the values of integral columns to the nearest integer, in place.
///
/// A solver only guarantees its integral columns to within a tolerance, and
/// hands back the raw values: a class that comes back as a tiny fraction would
/// read as active while none of its members does.
pub fn snap_integral(s: &Staged, values: &mut Vec<Cost>)
    requires
        s.wf(),
    ensures
        final(values)@.len() == old(values)@.len(),
        forall|i: int|
            0 <= i < old(values)@.len() ==> (#[trigger] final(values)@[i]) == (if i < s.lp().cols.len()
                && s.lp().cols[i].integral {
                snapped(old(values)@[i])
            } else {
                old(values)@[i]
            }),
{
    let mut i: usize = 0;
    let n: usize = values.len();
    while i < n
        invariant
            i <= n == values@.len() == old(values)@.len(),
            forall|k: int|
                0 <= k < i ==> (#[trigger] values@[k]) == (if k < s.lp().cols.len()
                    && s.lp().cols[k].integral {
                    snapped(old(values)@[k])
                } else {
                    old(values)@[k]
                }),
            forall|k: int| i <= k < n ==> (#[trigger] values@[k]) == old(values)@[k],
        decreases n - i,
    {
        if i < s.num_cols() && s.col(i).integral {
            let v: i128 = values[i] as i128;
            let whole: i128 = if v >= 0 {
                ((v + 500_000) / 1_000_000) * 1_000_000
            } else {
                -(((500_000 - v) / 1_000_000) * 1_000_000)
            };
            values.set(i, saturate_wide(whole));
        }
        i += 1;
    }
}

impl Staged {
    /// A model with no columns and no rows, to be minimised.
    pub fn new() -> (r: Staged)
        ensures
            r.wf(),
            r.lp() == (Lp { cols: Seq::empty(), rows: Seq::empty(), sense: MilpSense::Minimize }),
            r.delta() == r.delta().flushed(),
            r.start() == Map::<Col, Cost>::empty(),
            r.start_order() == Seq::<Col>::empty(),
            r.in_sync(r.lp()),
    {
        let r: Staged = Staged {
            cols: Vec::new(),
            rows: Vec::new(),
            pushed_cols: 0,
            pushed_rows: 0,
            dirty_cols: id_set_new(),
            dirty_rows: id_set_new(),
            dirty_coeffs: pair_set_new(),
            warm: num_map_new(),
            sense: MilpSense::Minimize,
            sense_dirty: false,
        };
        proof {
            assert(row_models(r.rows@) =~= Seq::empty());
        }
        r
    }

    // -- construction -------------------------------------------------------

    /// Adds a continuous column of bounds `[0, +inf)`.
    pub fn add_col(&mut self) -> (r: Col)
        requires
            old(self).wf(),
        ensures
            final(self).wf(),
            r == old(self).lp().cols.len(),
            final(self).lp() == (Lp {
                cols: old(self).lp().cols.push(fresh_col()),
                ..old(self).lp()
            }),
            final(self).delta() == old(self).delta().with_new_col(fresh_col()),
            final(self).start() == old(self).start(),
            old(self).keeps_orders(final(self)),
            old(self).delta().kept_by(final(self).delta()),
    {
        let idx: usize = self.cols.len();
        proof {
            lemma_col_added(self.delta(), fresh_col());
        }
        self.cols.push(ColDef { lower: 0, upper: INFINITY, cost: 0, integral: false });
        idx
    }

    /// Adds an integral column of bounds `[0, 1]`.
    pub fn add_binary(&mut self) -> (r: Col)
        requires
            old(self).wf(),
        ensures
            final(self).wf(),
            r == old(self).lp().cols.len(),
            final(self).lp() == (Lp {
                cols: old(self).lp().cols.push(fresh_binary()),
                ..old(self).lp()
            }),
            final(self).delta() == old(self).delta().with_new_col(fresh_binary()),
            final(self).start() == old(self).start(),
            old(self).keeps_orders(final(self)),
            old(self).delta().kept_by(final(self).delta()),
    {
        let idx: usize = self.cols.len();
        proof {
            lemma_col_added(self.delta(), fresh_binary());
        }
        self.cols.push(ColDef { lower: 0, upper: ONE, cost: 0, integral: true });
        idx
    }

    /// Adds a row that constrains nothing.
    pub fn add_row(&mut self) -> (r: Row)
        requires
            old(self).wf(),
        ensures
            final(self).wf(),
            r == old(self).lp().rows.len(),
            final(self).lp() == (Lp {
                rows: old(self).lp().rows.push(fresh_row()),
                ..old(self).lp()
            }),
            final(self).delta() == old(self).delta().with_new_row(),
            final(self).row_order(r as int) == Seq::<Col>::empty(),
            final(self).start() == old(self).start(),
            old(self).keeps_orders(final(self)),
            old(self).delta().kept_by(final(self).delta()),
    {
        let idx: usize = self.rows.len();
        let ghost before = self.rows@;
        proof {
            lemma_row_added(self.delta());
        }
        self.rows.push(
            RowDef { lower: NEG_INFINITY, upper: INFINITY, coeffs: num_map_new() },
        );
        proof {
            assert(row_models(self.rows@) =~= row_models(before).push(fresh_row()));
        }
        idx
    }

    // -- mutation -----------------------------------------------------------

    fn touch_col(&mut self, col: Col)
        ensures
            final(self).delta() == (Delta {
                cols: if col < old(self).delta().old_cols {
                    noted(old(self).delta().cols, col)
                } else {
                    old(self).delta().cols
                },
                ..old(self).delta()
            }),
            final(self).start() == old(self).start(),
            old(self).keeps_orders(final(self)),
    {
        if col < self.pushed_cols {
            id_set_insert(&mut self.dirty_cols, col);
        }
    }

    fn touch_row(&mut self, row: Row)
        ensures
            final(self).delta() == (Delta {
                rows: if row < old(self).delta().old_rows {
                    noted(old(self).delta().rows, row)
                } else {
                    old(self).delta().rows
                },
                ..old(self).delta()
            }),
            final(self).start() == old(self).start(),
            old(self).keeps_orders(final(self)),
    {
        if row < self.pushed_rows {
            id_set_insert(&mut self.dirty_rows, row);
        }
    }

    /// Replaces a column's definition.
    fn set_col(&mut self, col: Col, def: ColDef)
        requires
            old(self).wf(),
            col < old(self).lp().cols.len(),
        ensures
            final(self).wf(),
            final(self).lp() == (Lp {
                cols: old(self).lp().cols.update(col as int, def),
                ..old(self).lp()
            }),
            final(self).delta() == old(self).delta().with_col(col, def),
            final(self).start() == old(self).start(),
            old(self).keeps_orders(final(self)),
            old(self).delta().kept_by(final(self).delta()),
    {
        proof {
            lemma_col_set(self.delta(), col, def);
        }
        self.cols.set(col, def);
        self.touch_col(col);
    }

    /// Sets a column's lower bound.
    pub fn set_col_lower(&mut self, col: Col, value: Cost)
        requires
            old(self).wf(),
            col < old(self).lp().cols.len(),
        ensures
            final(self).wf(),
            final(self).lp() == (Lp {
                cols: old(self).lp().cols.update(
                    col as int,
                    ColDef { lower: value, ..old(self).lp().cols[col as int] },
                ),
                ..old(self).lp()
            }),
            final(self).delta() == old(self).delta().with_col(
                col,
                ColDef { lower: value, ..old(self).lp().cols[col as int] },
            ),
            final(self).start() == old(self).start(),
            old(self).keeps_orders(final(self)),
            old(self).delta().kept_by(final(self).delta()),
    {
        let mut def: ColDef = self.cols[col];
        def.lower = value;
        self.set_col(col, def);
    }

    /// Sets a column's upper bound.
    pub fn set_col_upper(&mut self, col: Col, value: Cost)
        requires
            old(self).wf(),
            col < old(self).lp().cols.len(),
        ensures
            final(self).wf(),
            final(self).lp() == (Lp {
                cols: old(self).lp().cols.update(
                    col as int,
                    ColDef { upper: value, ..old(self).lp().cols[col as int] },
                ),
                ..old(self).lp()
            }),
            final(self).delta() == old(self).delta().with_col(
                col,
                ColDef { upper: value, ..old(self).lp().cols[col as int] },
            ),
            final(self).start() == old(self).start(),
            old(self).keeps_orders(final(self)),
            old(self).delta().kept_by(final(self).delta()),
    {
        let mut def: ColDef = self.cols[col];
        def.upper = value;
        self.set_col(col, def);
    }

    /// Sets a column's objective coefficient.
    pub fn set_obj_coeff(&mut self, col: Col, value: Wide)
        requires
            old(self).wf(),
            col < old(self).lp().cols.len(),
        ensures
            final(self).wf(),
            final(self).lp() == (Lp {
                cols: old(self).lp().cols.update(
                    col as int,
                    ColDef { cost: value, ..old(self).lp().cols[col as int] },
                ),
                ..old(self).lp()
            }),
            final(self).delta() == old(self).delta().with_col(
                col,
                ColDef { cost: value, ..old(self).lp().cols[col as int] },
            ),
            final(self).start() == old(self).start(),
            old(self).keeps_orders(final(self)),
            old(self).delta().kept_by(final(self).delta()),
    {
        let mut def: ColDef = self.cols[col];
        def.cost = value;
        self.set_col(col, def);
    }

    /// Replaces a row's bounds.
    fn set_row_bounds(&mut self, row: Row, lower: Cost, upper: Cost)
        requires
            old(self).wf(),
            row < old(self).lp().rows.len(),
        ensures
            final(self).wf(),
            final(self).lp() == (Lp {
                rows: old(self).lp().rows.update(
                    row as int,
                    RowModel { lower, upper, ..old(self).lp().rows[row as int] },
                ),
                ..old(self).lp()
            }),
            final(self).delta() == old(self).delta().with_bounds(row, lower, upper),
            final(self).start() == old(self).start(),
            old(self).keeps_orders(final(self)),
            old(self).delta().kept_by(final(self).delta()),
    {
        let ghost before = self.rows@;
        proof {
            lemma_row_set(self.delta(), row, lower, upper);
        }
        self.rows[row].lower = lower;
        self.rows[row].upper = upper;
        proof {
            assert(row_models(self.rows@) =~= row_models(before).update(
                row as int,
                RowModel { lower, upper, ..row_models(before)[row as int] },
            ));
        }
        self.touch_row(row);
    }

    /// Sets a row's lower bound.
    pub fn set_row_lower(&mut self, row: Row, value: Cost)
        requires
            old(self).wf(),
            row < old(self).lp().rows.len(),
        ensures
            final(self).wf(),
            final(self).lp() == (Lp {
                rows: old(self).lp().rows.update(
                    row as int,
                    RowModel { lower: value, ..old(self).lp().rows[row as int] },
                ),
                ..old(self).lp()
            }),
            final(self).delta() == old(self).delta().with_bounds(
                row,
                value,
                old(self).lp().rows[row as int].upper,
            ),
            final(self).start() == old(self).start(),
            old(self).keeps_orders(final(self)),
            old(self).delta().kept_by(final(self).delta()),
    {
        let upper: Cost = self.rows[row].upper;
        self.set_row_bounds(row, value, upper);
    }

    /// Sets a row's upper bound.
    pub fn set_row_upper(&mut self, row: Row, value: Cost)
        requires
            old(self).wf(),
            row < old(self).lp().rows.len(),
        ensures
            final(self).wf(),
            final(self).lp() == (Lp {
                rows: old(self).lp().rows.update(
                    row as int,
                    RowModel { upper: value, ..old(self).lp().rows[row as int] },
                ),
                ..old(self).lp()
            }),
            final(self).delta() == old(self).delta().with_bounds(
                row,
                old(self).lp().rows[row as int].lower,
                value,
            ),
            final(self).start() == old(self).start(),
            old(self).keeps_orders(final(self)),
            old(self).delta().kept_by(final(self).delta()),
    {
        let lower: Cost = self.rows[row].lower;
        self.set_row_bounds(row, lower, value);
    }

    /// Constrains a row to equal `value`.
    pub fn set_row_equal(&mut self, row: Row, value: Cost)
        requires
            old(self).wf(),
            row < old(self).lp().rows.len(),
        ensures
            final(self).wf(),
            final(self).lp() == (Lp {
                rows: old(self).lp().rows.update(
                    row as int,
                    RowModel { lower: value, upper: value, ..old(self).lp().rows[row as int] },
                ),
                ..old(self).lp()
            }),
            final(self).delta() == old(self).delta().with_bounds(row, value, value),
            final(self).start() == old(self).start(),
            old(self).keeps_orders(final(self)),
            old(self).delta().kept_by(final(self).delta()),
    {
        self.set_row_bounds(row, value, value);
    }

    /// Sets a coefficient, replacing any earlier one; zero removes it.
    pub fn set_weight(&mut self, row: Row, col: Col, weight: Cost)
        requires
            old(self).wf(),
            row < old(self).lp().rows.len(),
            col < old(self).lp().cols.len(),
        ensures
            final(self).wf(),
            final(self).lp() == (Lp {
                rows: old(self).lp().rows.update(
                    row as int,
                    RowModel {
                        weights: reweighted(
                            old(self).lp().rows[row as int].weights,
                            col,
                            weight,
                        ),
                        ..old(self).lp().rows[row as int]
                    },
                ),
                ..old(self).lp()
            }),
            final(self).delta() == old(self).delta().with_weight(row, col, weight),
            final(self).start() == old(self).start(),
            final(self).start_order() == old(self).start_order(),
            forall|r: int|
                0 <= r < old(self).lp().rows.len() ==> #[trigger] final(self).row_order(r) == (if r
                    != row {
                    old(self).row_order(r)
                } else if weight == 0 {
                    old(self).row_order(r).remove_value(col)
                } else if old(self).lp().rows[r].weights.contains_key(col) {
                    old(self).row_order(r)
                } else {
                    old(self).row_order(r).push(col)
                }),
            old(self).delta().kept_by(final(self).delta()),
    {
        let ghost before = self.rows@;
        proof {
            lemma_weight_set(self.delta(), row, col, weight);
        }
        if weight == 0 {
            num_map_shift_remove(&mut self.rows[row].coeffs, col);
        } else {
            num_map_insert(&mut self.rows[row].coeffs, col, weight);
        }
        proof {
            let weights = reweighted(row_models(before)[row as int].weights, col, weight);
            assert(row_models(self.rows@) =~= row_models(before).update(
                row as int,
                RowModel { weights, ..row_models(before)[row as int] },
            ));
        }
        if row < self.pushed_rows {
            pair_set_insert(&mut self.dirty_coeffs, (row, col));
        }
    }

    /// Sets the direction of the objective.
    pub fn set_obj_sense(&mut self, sense: MilpSense)
        requires
            old(self).wf(),
        ensures
            final(self).wf(),
            final(self).lp() == (Lp { sense, ..old(self).lp() }),
            final(self).delta() == old(self).delta().with_sense(sense),
            final(self).start() == old(self).start(),
            old(self).keeps_orders(final(self)),
            old(self).delta().kept_by(final(self).delta()),
    {
        if sense != self.sense {
            proof {
                lemma_sense_set(self.delta(), sense);
            }
            self.sense = sense;
            self.sense_dirty = true;
        }
    }

    /// Stages one column of the MIP start.
    pub fn set_warm(&mut self, col: Col, value: Cost)
        requires
            old(self).wf(),
        ensures
            final(self).wf(),
            final(self).delta() == old(self).delta(),
            final(self).start() == old(self).start().insert(col, value),
            final(self).start_order() == (if old(self).start().contains_key(col) {
                old(self).start_order()
            } else {
                old(self).start_order().push(col)
            }),
            old(self).delta().kept_by(final(self).delta()),
    {
        num_map_insert(&mut self.warm, col, value);
    }

    /// Replaces the staged MIP start by `values`, one for each column in order.
    pub fn set_warm_all(&mut self, values: &Vec<Cost>)
        requires
            old(self).wf(),
        ensures
            final(self).wf(),
            final(self).delta() == old(self).delta(),
            final(self).start_order() == Seq::new(values@.len(), |i: int| i as Col),
            forall|c: Col| #[trigger]
                final(self).start().contains_key(c) <==> c < values@.len(),
            forall|c: Col| c < values@.len() ==> #[trigger] final(self).start()[c] == values@[c as int],
            old(self).delta().kept_by(final(self).delta()),
    {
        num_map_clear(&mut self.warm);
        assert(self.start_order() =~= Seq::new(0, |i: int| i as Col));
        let mut c: usize = 0;
        while c < values.len()
            invariant
                c <= values@.len(),
                self.wf(),
                self.delta() == old(self).delta(),
                self.start_order() == Seq::new(c as nat, |i: int| i as Col),
                forall|k: Col| #[trigger] self.start().contains_key(k) <==> k < c,
                forall|k: Col| k < c ==> #[trigger] self.start()[k] == values@[k as int],
            decreases values@.len() - c,
        {
            let ghost before = self.start();
            num_map_insert(&mut self.warm, c, values[c]);
            proof {
                assert(self.start() == before.insert(c, values@[c as int]));
                assert(self.start_order() =~= Seq::new((c + 1) as nat, |i: int| i as Col));
            }
            c += 1;
        }
    }

    // -- inspection ---------------------------------------------------------

    pub fn num_cols(&self) -> (r: usize)
        ensures
            r == self.lp().cols.len(),
    {
        self.cols.len()
    }

    pub fn num_rows(&self) -> (r: usize)
        ensures
            r == self.lp().rows.len(),
    {
        self.rows.len()
    }

    pub fn col(&self, col: Col) -> (r: ColDef)
        requires
            col < self.lp().cols.len(),
        ensures
            r == self.lp().cols[col as int],
    {
        self.cols[col]
    }

    pub fn row(&self, row: Row) -> (r: &RowDef)
        requires
            row < self.lp().rows.len(),
        ensures
            r.model() == self.lp().rows[row as int],
            num_keys(r.coeffs) == self.row_order(row as int),
    {
        &self.rows[row]
    }

    /// The coefficients of a row, in the order they were first set.
    pub fn row_coeffs(&self, row: Row) -> (r: Vec<(Col, Cost)>)
        requires
            row < self.lp().rows.len(),
        ensures
            r@.len() == self.row_order(row as int).len(),
            self.row_order(row as int).no_duplicates(),
            forall|c: Col| #[trigger]
                self.row_order(row as int).contains(c) <==> self.lp().rows[row as int].weights.contains_key(
                    c,
                ),
            forall|k: int|
                0 <= k < r@.len() ==> (#[trigger] r@[k]).0 == self.row_order(row as int)[k] && r@[k].1
                    == self.lp().rows[row as int].weights[r@[k].0],
    {
        let coeffs: &IndexMap<Col, Cost> = &self.rows[row].coeffs;
        let n: usize = num_map_len(coeffs);
        let ghost order = num_keys(*coeffs);
        let mut r: Vec<(Col, Cost)> = Vec::new();
        let mut k: usize = 0;
        while k < n
            invariant
                k <= n == order.len(),
                order == num_keys(*coeffs),
                r@.len() == k,
                forall|i: int|
                    0 <= i < k ==> (#[trigger] r@[i]).0 == order[i] && r@[i].1 == num_map(
                        *coeffs,
                    )[r@[i].0],
            decreases n - k,
        {
            match num_map_get_index(coeffs, k) {
                Some(entry) => {
                    r.push(entry);
                },
                None => {},
            }
            k += 1;
        }
        proof {
            assert forall|c: Col| #[trigger] order.contains(c) <==> num_map(
                *coeffs,
            ).contains_key(c) by {
                assert(order.to_set().contains(c) <==> num_map(*coeffs).dom().contains(c));
            }
        }
        r
    }

    pub fn sense(&self) -> (r: MilpSense)
        ensures
            r == self.lp().sense,
    {
        self.sense
    }

    pub fn sense_dirty(&self) -> (r: bool)
        ensures
            r == self.delta().sense,
    {
        self.sense_dirty
    }

    /// The staged MIP start, in the order its columns were first set.
    pub fn warm(&self) -> (r: Vec<(Col, Cost)>)
        ensures
            r@.len() == self.start_order().len(),
            self.start_order().no_duplicates(),
            forall|c: Col| #[trigger]
                self.start_order().contains(c) <==> self.start().contains_key(c),
            forall|k: int|
                0 <= k < r@.len() ==> (#[trigger] r@[k]).0 == self.start_order()[k] && r@[k].1
                    == self.start()[r@[k].0],
    {
        let n: usize = num_map_len(&self.warm);
        let ghost order = num_keys(self.warm);
        let mut r: Vec<(Col, Cost)> = Vec::new();
        let mut k: usize = 0;
        while k < n
            invariant
                k <= n == order.len(),
                order == num_keys(self.warm),
                r@.len() == k,
                forall|i: int|
                    0 <= i < k ==> (#[trigger] r@[i]).0 == order[i] && r@[i].1 == num_map(
                        self.warm,
                    )[r@[i].0],
            decreases n - k,
        {
            match num_map_get_index(&self.warm, k) {
                Some(entry) => {
                    r.push(entry);
                },
                None => {},
            }
            k += 1;
        }
        proof {
            assert forall|c: Col| #[trigger] order.contains(c) <==> num_map(
                self.warm,
            ).contains_key(c) by {
                assert(order.to_set().contains(c) <==> num_map(self.warm).dom().contains(c));
            }
        }
        r
    }

    /// How many columns were created since the last [`Self::mark_flushed`].
    pub fn num_new_cols(&self) -> (r: usize)
        requires
            self.wf(),
        ensures
            r == self.lp().cols.len() - self.delta().old_cols,
    {
        self.cols.len() - self.pushed_cols
    }

    /// The columns created since the last [`Self::mark_flushed`], in order.
    pub fn new_cols(&self) -> (r: Vec<(Col, ColDef)>)
        requires
            self.wf(),
        ensures
            r@.len() == self.lp().cols.len() - self.delta().old_cols,
            forall|i: int|
                0 <= i < r@.len() ==> (#[trigger] r@[i]).0 == self.delta().old_cols + i && r@[i].1
                    == self.lp().cols[self.delta().old_cols + i],
    {
        let mut r: Vec<(Col, ColDef)> = Vec::new();
        let mut c: usize = self.pushed_cols;
        while c < self.cols.len()
            invariant
                self.wf(),
                self.pushed_cols <= c <= self.cols@.len(),
                r@.len() == c - self.pushed_cols,
                forall|i: int|
                    0 <= i < r@.len() ==> (#[trigger] r@[i]).0 == self.pushed_cols + i && r@[i].1
                        == self.cols@[self.pushed_cols + i],
            decreases self.cols@.len() - c,
        {
            r.push((c, self.cols[c]));
            c += 1;
        }
        r
    }

    /// The rows created since the last [`Self::mark_flushed`], in order.
    pub fn new_rows(&self) -> (r: Vec<(Row, &RowDef)>)
        requires
            self.wf(),
        ensures
            r@.len() == self.lp().rows.len() - self.delta().old_rows,
            forall|i: int|
                0 <= i < r@.len() ==> (#[trigger] r@[i]).0 == self.delta().old_rows + i
                    && r@[i].1.model() == self.lp().rows[self.delta().old_rows + i],
    {
        let mut r: Vec<(Row, &RowDef)> = Vec::new();
        let mut k: usize = self.pushed_rows;
        while k < self.rows.len()
            invariant
                self.wf(),
                self.pushed_rows <= k <= self.rows@.len(),
                r@.len() == k - self.pushed_rows,
                forall|i: int|
                    0 <= i < r@.len() ==> (#[trigger] r@[i]).0 == self.pushed_rows + i
                        && *r@[i].1 == self.rows@[self.pushed_rows + i],
            decreases self.rows@.len() - k,
        {
            r.push((k, &self.rows[k]));
            k += 1;
        }
        r
    }

    /// How many rows were created since the last [`Self::mark_flushed`].
    pub fn num_new_rows(&self) -> (r: usize)
        requires
            self.wf(),
        ensures
            r == self.lp().rows.len() - self.delta().old_rows,
    {
        self.rows.len() - self.pushed_rows
    }

    pub fn dirty_cols(&self) -> (r: Vec<Col>)
        ensures
            r@ == self.delta().cols,
    {
        ids_of(&self.dirty_cols)
    }

    pub fn dirty_rows(&self) -> (r: Vec<Row>)
        ensures
            r@ == self.delta().rows,
    {
        ids_of(&self.dirty_rows)
    }

    /// Row, column and coefficient of what to replay on pushed rows. The
    /// coefficient is looked up now, so one that was removed is zero.
    pub fn dirty_coeffs(&self) -> (r: Vec<(Row, Col, Cost)>)
        requires
            self.wf(),
        ensures
            r@.len() == self.delta().coeffs.len(),
            forall|k: int|
                0 <= k < r@.len() ==> {
                    let (row, col) = self.delta().coeffs[k];
                    #[trigger] r@[k] == (
                        row,
                        col,
                        weight_of(self.lp().rows[row as int].weights, col),
                    )
                },
    {
        let n: usize = pair_set_len(&self.dirty_coeffs);
        let mut r: Vec<(Row, Col, Cost)> = Vec::new();
        let mut k: usize = 0;
        while k < n
            invariant
                self.wf(),
                k <= n == self.delta().coeffs.len(),
                r@.len() == k,
                forall|i: int|
                    0 <= i < k ==> {
                        let (row, col) = self.delta().coeffs[i];
                        #[trigger] r@[i] == (
                            row,
                            col,
                            weight_of(self.lp().rows[row as int].weights, col),
                        )
                    },
            decreases n - k,
        {
            if let Some((row, col)) = pair_set_get_index(&self.dirty_coeffs, k) {
                assert(self.delta().coeffs[k as int] == (row, col));
                let weight: Cost = match num_map_get(&self.rows[row].coeffs, col) {
                    Some(w) => *w,
                    None => 0,
                };
                r.push((row, col, weight));
            }
            k += 1;
        }
        r
    }

    /// Everything staged is now in the solver.
    ///
    /// The MIP start goes too: it is consumed by the solve it was set for.
    /// Applied again after rows were added, it would feed back the very point
    /// those rows were added to forbid.
    pub fn mark_flushed(&mut self)
        requires
            old(self).wf(),
        ensures
            final(self).wf(),
            final(self).delta() == old(self).delta().flushed(),
            forall|r: int|
                0 <= r < old(self).lp().rows.len() ==> #[trigger] final(self).row_order(r)
                    == old(self).row_order(r),
            final(self).start() == Map::<Col, Cost>::empty(),
            final(self).start_order() == Seq::<Col>::empty(),
            final(self).in_sync(old(self).lp()),
    {
        self.pushed_cols = self.cols.len();
        self.pushed_rows = self.rows.len();
        id_set_clear(&mut self.dirty_cols);
        id_set_clear(&mut self.dirty_rows);
        pair_set_clear(&mut self.dirty_coeffs);
        self.sense_dirty = false;
        num_map_clear(&mut self.warm);
    }
}

/// The items of a set, in order.
fn ids_of(s: &IndexSet<usize>) -> (r: Vec<usize>)
    ensures
        r@ == id_set(*s),
{
    let n: usize = id_set_len(s);
    let mut r: Vec<usize> = Vec::new();
    let mut k: usize = 0;
    while k < n
        invariant
            k <= n == id_set(*s).len(),
            r@ == id_set(*s).take(k as int),
        decreases n - k,
    {
        if let Some(item) = id_set_get_index(s, k) {
            r.push(item);
        }
        proof {
            let all = id_set(*s);
            assert(all.take(k + 1) =~= all.take(k as int).push(all[k as int]));
        }
        k += 1;
    }
    proof {
        assert(id_set(*s).take(id_set(*s).len() as int) =~= id_set(*s));
    }
    r
}

} // verus!
