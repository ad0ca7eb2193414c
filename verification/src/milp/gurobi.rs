//! What the Gurobi backend tells its solver, and what it makes of the answer.
//!
//! The solver has no row without a constraint: a row is created with a sense
//! and a right-hand side. So rows are classified when they are pushed, and how
//! each was is remembered, so that a later change of its bounds can be made
//! with the right call.
use crate::cost::{Cost, INFINITY, NEG_INFINITY};
use crate::milp::highs::{
    bounds_changed, changed_cols, coeffs_changed, cols_changed, lemma_bounds_changed,
    lemma_coeffs_changed, lemma_cols_changed, lists_start, replaces, same_model,
};
use crate::milp::point::within;
use crate::milp::stage::{
    snap_integral, snapped, weight_of, Col, ColDef, Delta, Lp, Row, RowModel, Staged,
};
use crate::milp::{MilpSense, MilpSolution};
use crate::text::{chars_of, decimal, parse_decimal, parse_whole, whole_number};
use vstd::prelude::*;

verus! {

// ---------------------------------------------------------------------------
// Rows
// ---------------------------------------------------------------------------

/// How a row was encoded in the solver.
#[derive(Debug, Clone, Copy, PartialEq, Eq, Structural)]
pub enum RowKind {
    /// An equation or inequality: its sense and right-hand side can be
    /// changed.
    Simple,
    /// A range, which comes with a variable whose bounds are those of the row.
    Ranged,
}

/// Bound pattern of a row.
#[derive(Debug, Clone, Copy, PartialEq, Eq, Structural)]
pub enum RowCat {
    Eq(Cost),
    Ge(Cost),
    Le(Cost),
    Range(Cost, Cost),
    Free,
}

/// Sense of an equation or inequality.
#[derive(Debug, Clone, Copy, PartialEq, Eq, Structural)]
pub enum RowSense {
    Equal,
    Greater,
    Less,
}

/// Whether an amount is neither infinite nor minus infinite.
pub open spec fn finite(v: Cost) -> bool {
    NEG_INFINITY < v < INFINITY
}

/// The pattern of two bounds.
pub open spec fn category(lower: Cost, upper: Cost) -> RowCat {
    if finite(lower) && finite(upper) {
        if lower == upper {
            RowCat::Eq(lower)
        } else {
            RowCat::Range(lower, upper)
        }
    } else if finite(lower) {
        RowCat::Ge(lower)
    } else if finite(upper) {
        RowCat::Le(upper)
    } else {
        RowCat::Free
    }
}

/// [`category`].
pub fn categorize(lower: Cost, upper: Cost) -> (r: RowCat)
    ensures
        r == category(lower, upper),
{
    let lo_fin: bool = NEG_INFINITY < lower && lower < INFINITY;
    let hi_fin: bool = NEG_INFINITY < upper && upper < INFINITY;
    if lo_fin && hi_fin {
        if lower == upper {
            RowCat::Eq(lower)
        } else {
            RowCat::Range(lower, upper)
        }
    } else if lo_fin {
        RowCat::Ge(lower)
    } else if hi_fin {
        RowCat::Le(upper)
    } else {
        RowCat::Free
    }
}

impl RowCat {
    /// How a row of this pattern is encoded.
    pub open spec fn kind_of(self) -> RowKind {
        match self {
            RowCat::Range(_, _) => RowKind::Ranged,
            _ => RowKind::Simple,
        }
    }

    /// [`Self::kind_of`].
    pub fn kind(self) -> (r: RowKind)
        ensures
            r == self.kind_of(),
    {
        match self {
            RowCat::Range(_, _) => RowKind::Ranged,
            _ => RowKind::Simple,
        }
    }

    /// What the pattern demands of `value / den`.
    pub open spec fn holds(self, value: int, den: int) -> bool {
        match self {
            RowCat::Eq(v) => value == v * den,
            RowCat::Ge(v) => v * den <= value,
            RowCat::Le(v) => value <= v * den,
            RowCat::Range(lower, upper) => lower * den <= value && value <= upper * den,
            RowCat::Free => true,
        }
    }

    /// The bounds of the pattern.
    pub open spec fn bounds(self) -> (Cost, Cost) {
        match self {
            RowCat::Eq(v) => (v, v),
            RowCat::Ge(v) => (v, INFINITY),
            RowCat::Le(v) => (NEG_INFINITY, v),
            RowCat::Range(lower, upper) => (lower, upper),
            RowCat::Free => (NEG_INFINITY, INFINITY),
        }
    }

    /// The sense and right-hand side of a pattern that is not a range; nothing
    /// on the right where there is no bound.
    pub open spec fn relation(self) -> (RowSense, Option<Cost>) {
        match self {
            RowCat::Eq(v) => (RowSense::Equal, Some(v)),
            RowCat::Ge(v) => (RowSense::Greater, Some(v)),
            RowCat::Le(v) => (RowSense::Less, Some(v)),
            _ => (RowSense::Less, None),
        }
    }

    /// [`Self::relation`].
    pub fn as_relation(self) -> (r: (RowSense, Option<Cost>))
        ensures
            r == self.relation(),
    {
        match self {
            RowCat::Eq(v) => (RowSense::Equal, Some(v)),
            RowCat::Ge(v) => (RowSense::Greater, Some(v)),
            RowCat::Le(v) => (RowSense::Less, Some(v)),
            _ => (RowSense::Less, None),
        }
    }
}

/// A pattern demands what the bounds demand, where no lower bound is infinite
/// and no upper bound minus infinite.
pub proof fn category_keeps_bounds(lower: Cost, upper: Cost, value: int, den: int)
    requires
        lower != INFINITY,
        upper != NEG_INFINITY,
    ensures
        category(lower, upper).holds(value, den) <==> within(lower, upper, value, den),
        category(lower, upper).bounds() == (lower, upper),
{
}

// ---------------------------------------------------------------------------
// Flushing
// ---------------------------------------------------------------------------

/// A row to be created, with all its coefficients.
pub struct NewRow {
    pub cat: RowCat,
    pub coeffs: Vec<(Col, Cost)>,
}

/// A change of the bounds of a row that the solver has.
#[derive(Debug, Clone, Copy, PartialEq, Eq, Structural)]
pub enum Retune {
    /// A new sense and right-hand side.
    Simple { row: Row, cat: RowCat },
    /// New bounds of the range's variable.
    Ranged { row: Row, lower: Cost, upper: Cost },
}

/// The calls that bring the solver up to date, in the order they are made.
pub struct GurobiDelta {
    /// The direction of the objective, if it changed.
    pub sense: Option<MilpSense>,
    pub new_cols: Vec<(Col, ColDef)>,
    pub new_rows: Vec<NewRow>,
    /// Columns of the solver to be replaced.
    pub cols: Vec<(Col, ColDef)>,
    pub retunes: Vec<Retune>,
    /// Coefficients of rows of the solver to be replaced.
    pub coeffs: Vec<(Row, Col, Cost)>,
    /// The start of the next solve.
    pub start: Vec<(Col, Cost)>,
}

/// A row that the solver has was one-sided and is to be two-sided, or the
/// other way round. It would have to be deleted and created again.
#[derive(Debug, Clone, Copy, PartialEq, Eq)]
pub struct CategoryChange {
    pub row: Row,
    pub kind: RowKind,
    pub cat: RowCat,
}

/// How the `r`th row is to be changed.
pub open spec fn retune_of(r: Row, cat: RowCat) -> Retune {
    match cat {
        RowCat::Range(lower, upper) => Retune::Ranged { row: r, lower, upper },
        _ => Retune::Simple { row: r, cat },
    }
}

/// The pattern of a row of the model.
pub open spec fn cat_of(lp: Lp, r: int) -> RowCat {
    category(lp.rows[r].lower, lp.rows[r].upper)
}

/// The first `k` rows whose bounds changed are of the kind they were.
pub open spec fn kinds_kept(delta: Delta, kinds: Seq<RowKind>, k: int) -> bool {
    forall|i: int|
        0 <= i < k ==> cat_of(delta.lp, (#[trigger] delta.rows[i]) as int).kind_of()
            == kinds[delta.rows[i] as int]
}

/// `coeffs` lists the weights.
pub open spec fn lists_weights(coeffs: Seq<(Col, Cost)>, weights: Map<Col, Cost>) -> bool {
    &&& forall|i: int, j: int|
        0 <= i < j < coeffs.len() ==> (#[trigger] coeffs[i]).0 != (#[trigger] coeffs[j]).0
    &&& forall|i: int|
        0 <= i < coeffs.len() ==> weights.contains_key((#[trigger] coeffs[i]).0) && coeffs[i].1
            == weights[coeffs[i].0]
    &&& forall|c: Col| #[trigger] weights.contains_key(c) ==> listed(coeffs, c)
}

/// `coeffs` lists the columns in that order.
pub open spec fn in_order(coeffs: Seq<(Col, Cost)>, order: Seq<Col>) -> bool {
    &&& coeffs.len() == order.len()
    &&& forall|k: int| 0 <= k < coeffs.len() ==> (#[trigger] coeffs[k]).0 == order[k]
}

pub open spec fn listed(coeffs: Seq<(Col, Cost)>, c: Col) -> bool {
    exists|i: int| 0 <= i < coeffs.len() && (#[trigger] coeffs[i]).0 == c
}

/// What the calls say of what changed and what is new.
pub open spec fn describes(d: GurobiDelta, delta: Delta) -> bool {
    let lp = delta.lp;
    &&& d.sense == (if delta.sense {
        Some(lp.sense)
    } else {
        None
    })
    &&& d.new_cols@.len() == lp.cols.len() - delta.old_cols
    &&& forall|i: int|
        0 <= i < d.new_cols@.len() ==> (#[trigger] d.new_cols@[i]).0 == delta.old_cols + i
            && d.new_cols@[i].1 == lp.cols[delta.old_cols + i]
    &&& d.new_rows@.len() == lp.rows.len() - delta.old_rows
    &&& forall|i: int|
        0 <= i < d.new_rows@.len() ==> (#[trigger] d.new_rows@[i]).cat == cat_of(
            lp,
            delta.old_rows + i,
        ) && lists_weights(d.new_rows@[i].coeffs@, lp.rows[delta.old_rows + i].weights)
    &&& d.cols@.len() == delta.cols.len()
    &&& forall|k: int|
        0 <= k < d.cols@.len() ==> #[trigger] d.cols@[k] == (
            delta.cols[k],
            lp.cols[delta.cols[k] as int],
        )
    &&& d.retunes@.len() == delta.rows.len()
    &&& forall|k: int|
        0 <= k < d.retunes@.len() ==> #[trigger] d.retunes@[k] == retune_of(
            delta.rows[k],
            cat_of(lp, delta.rows[k] as int),
        )
    &&& d.coeffs@.len() == delta.coeffs.len()
    &&& forall|k: int|
        0 <= k < d.coeffs@.len() ==> {
            let (r, c) = delta.coeffs[k];
            #[trigger] d.coeffs@[k] == (r, c, weight_of(lp.rows[r as int].weights, c))
        }
}

/// The weights a list of coefficients gives.
pub open spec fn weights_of(coeffs: Seq<(Col, Cost)>) -> Map<Col, Cost> {
    Map::new(
        |c: Col| listed(coeffs, c),
        |c: Col| coeffs[choose|i: int| 0 <= i < coeffs.len() && (#[trigger] coeffs[i]).0 == c].1,
    )
}

impl GurobiDelta {
    /// The created columns.
    pub open spec fn created_cols(&self) -> Seq<ColDef> {
        Seq::new(self.new_cols@.len(), |i: int| self.new_cols@[i].1)
    }

    /// The created rows.
    pub open spec fn created_rows(&self) -> Seq<RowModel> {
        Seq::new(
            self.new_rows@.len(),
            |i: int|
                RowModel {
                    lower: self.new_rows@[i].cat.bounds().0,
                    upper: self.new_rows@[i].cat.bounds().1,
                    weights: weights_of(self.new_rows@[i].coeffs@),
                },
        )
    }

    /// The changes of bounds.
    pub open spec fn bounds(&self) -> Seq<(Row, Cost, Cost)> {
        Seq::new(
            self.retunes@.len(),
            |i: int|
                match self.retunes@[i] {
                    Retune::Simple { row, cat } => (row, cat.bounds().0, cat.bounds().1),
                    Retune::Ranged { row, lower, upper } => (row, lower, upper),
                },
        )
    }

    /// What the calls make of the solver's model.
    pub open spec fn applied_to(&self, solver: Lp) -> Lp {
        Lp {
            sense: match self.sense {
                Some(sense) => sense,
                None => solver.sense,
            },
            cols: cols_changed(
                solver.cols + self.created_cols(),
                self.cols@,
                self.cols@.len(),
            ),
            rows: coeffs_changed(
                bounds_changed(
                    solver.rows + self.created_rows(),
                    self.bounds(),
                    self.bounds().len(),
                ),
                self.coeffs@,
                self.coeffs@.len(),
            ),
        }
    }
}

/// No row has an infinite lower or a minus infinite upper bound.
pub open spec fn bounds_proper(lp: Lp) -> bool {
    forall|r: int|
        0 <= r < lp.rows.len() ==> (#[trigger] lp.rows[r]).lower != INFINITY && lp.rows[r].upper
            != NEG_INFINITY
}

/// The calls bring any solver up to date that knows all but what changed and
/// what is new.
pub proof fn delta_brings_up_to_date(d: GurobiDelta, delta: Delta, solver: Lp)
    requires
        delta.ok(),
        delta.lp.cols.len() <= usize::MAX,
        delta.lp.rows.len() <= usize::MAX,
        bounds_proper(delta.lp),
        describes(d, delta),
        delta.synced(solver),
    ensures
        same_model(d.applied_to(solver), delta.lp),
{
    let lp = delta.lp;
    let after = d.applied_to(solver);
    let wide = solver.cols + d.created_cols();
    assert forall|i: int| 0 <= i < d.cols@.len() implies (#[trigger] d.cols@[i]).0 < wide.len()
        && d.cols@[i].1 == lp.cols[d.cols@[i].0 as int] by {
        assert(delta.cols[i] < delta.old_cols);
    }
    lemma_cols_changed(wide, lp.cols, d.cols@, d.cols@.len());
    assert(after.cols =~= lp.cols) by {
        assert forall|j: int| 0 <= j < lp.cols.len() implies after.cols[j] == lp.cols[j] by {
            let c = j as Col;
            if exists|i: int| 0 <= i < d.cols@.len() && (#[trigger] d.cols@[i]).0 == j {
            } else if j < delta.old_cols {
                assert(wide[j] == solver.cols[j]);
                if delta.cols.contains(c) {
                    let i = choose|i: int| 0 <= i < delta.cols.len() && delta.cols[i] == c;
                    assert(d.cols@[i].0 == j);
                }
                assert(lp.cols[c as int] == solver.cols[c as int]);
            } else {
                let i = j - delta.old_cols;
                assert(wide[j] == d.created_cols()[i]);
                assert(d.new_cols@[i].1 == lp.cols[delta.old_cols + i]);
            }
        }
    }
    let long = solver.rows + d.created_rows();
    let changes = d.bounds();
    assert forall|i: int| 0 <= i < changes.len() implies (#[trigger] changes[i]).0 < long.len()
        && changes[i].1 == lp.rows[changes[i].0 as int].lower && changes[i].2
        == lp.rows[changes[i].0 as int].upper && changes[i].0 == delta.rows[i] by {
        assert(delta.rows[i] < delta.old_rows);
        let row = lp.rows[delta.rows[i] as int];
        assert(d.retunes@[i] == retune_of(delta.rows[i], cat_of(lp, delta.rows[i] as int)));
        category_keeps_bounds(row.lower, row.upper, 0, 1);
    }
    lemma_bounds_changed(long, lp.rows, changes, changes.len());
    let mid = bounds_changed(long, changes, changes.len());
    assert forall|i: int| 0 <= i < d.coeffs@.len() implies (#[trigger] d.coeffs@[i]).0 < mid.len()
        && d.coeffs@[i].2 == weight_of(lp.rows[d.coeffs@[i].0 as int].weights, d.coeffs@[i].1) by {
        assert(delta.coeffs[i].0 < delta.old_rows);
    }
    lemma_coeffs_changed(mid, lp.rows, d.coeffs@, d.coeffs@.len());
    assert forall|r: int| 0 <= r < after.rows.len() implies (#[trigger] after.rows[r]).lower
        == lp.rows[r].lower && after.rows[r].upper == lp.rows[r].upper by {
        assert(mid[r].lower == after.rows[r].lower);
        if exists|i: int| 0 <= i < changes.len() && (#[trigger] changes[i]).0 == r {
        } else if r < delta.old_rows {
            let row = r as Row;
            assert(long[r] == solver.rows[r]);
            if delta.rows.contains(row) {
                let i = choose|i: int| 0 <= i < delta.rows.len() && delta.rows[i] == row;
                assert(changes[i].0 == r);
            }
            assert(lp.rows[row as int].lower == solver.rows[row as int].lower);
        } else {
            let i = r - delta.old_rows;
            assert(long[r] == d.created_rows()[i]);
            assert(d.new_rows@[i].cat == cat_of(lp, delta.old_rows + i));
            category_keeps_bounds(lp.rows[r].lower, lp.rows[r].upper, 0, 1);
        }
    }
    assert forall|r: int, c: Col| 0 <= r < after.rows.len() implies #[trigger] weight_of(
        after.rows[r].weights,
        c,
    ) == weight_of(lp.rows[r].weights, c) by {
        assert(mid[r].weights == long[r].weights);
        if replaces(d.coeffs@, d.coeffs@.len(), r, c) {
        } else if r < delta.old_rows {
            let row = r as Row;
            assert(long[r] == solver.rows[r]);
            if delta.coeffs.contains((row, c)) {
                let i = choose|i: int| 0 <= i < delta.coeffs.len() && delta.coeffs[i] == (row, c);
                assert(d.coeffs@[i].0 == r && d.coeffs@[i].1 == c);
                assert(replaces(d.coeffs@, d.coeffs@.len(), r, c));
            }
            assert(weight_of(lp.rows[row as int].weights, c) == weight_of(
                solver.rows[row as int].weights,
                c,
            ));
        } else {
            let i = r - delta.old_rows;
            assert(long[r] == d.created_rows()[i]);
            assert(d.new_rows@[i].cat == cat_of(lp, delta.old_rows + i));
            let coeffs = d.new_rows@[i].coeffs@;
            assert(lists_weights(coeffs, lp.rows[r].weights));
            if listed(coeffs, c) {
                let k = choose|k: int| 0 <= k < coeffs.len() && (#[trigger] coeffs[k]).0 == c;
                assert(lp.rows[r].weights.contains_key(coeffs[k].0));
            } else if lp.rows[r].weights.contains_key(c) {
                assert(listed(coeffs, c));
            }
        }
    }
}

/// The changes of bounds, or the first that cannot be made.
fn retunes(staged: &Staged, kinds: &Vec<RowKind>) -> (r: Result<Vec<Retune>, CategoryChange>)
    requires
        staged.wf(),
        kinds@.len() == staged.delta().old_rows,
    ensures
        match r {
            Ok(list) => {
                &&& kinds_kept(staged.delta(), kinds@, staged.delta().rows.len() as int)
                &&& list@.len() == staged.delta().rows.len()
                &&& forall|k: int|
                    0 <= k < list@.len() ==> #[trigger] list@[k] == retune_of(
                        staged.delta().rows[k],
                        cat_of(staged.lp(), staged.delta().rows[k] as int),
                    )
            },
            Err(e) => is_first_change(staged.delta(), kinds@, e),
        },
{
    let ghost delta = staged.delta();
    let ghost lp = staged.lp();
    let dirty: Vec<Row> = staged.dirty_rows();
    let mut list: Vec<Retune> = Vec::new();
    let mut k: usize = 0;
    while k < dirty.len()
        invariant
            staged.wf(),
            delta == staged.delta(),
            lp == staged.lp(),
            kinds@.len() == delta.old_rows,
            dirty@ == delta.rows,
            k <= dirty@.len(),
            kinds_kept(delta, kinds@, k as int),
            list@.len() == k,
            forall|i: int|
                0 <= i < k ==> #[trigger] list@[i] == retune_of(
                    delta.rows[i],
                    cat_of(lp, delta.rows[i] as int),
                ),
        decreases dirty@.len() - k,
    {
        let row: Row = dirty[k];
        assert(delta.rows[k as int] < delta.old_rows);
        let cat: RowCat = categorize(staged.row(row).lower, staged.row(row).upper);
        assert(cat == cat_of(lp, row as int));
        if cat.kind() != kinds[row] {
            let e: CategoryChange = CategoryChange { row, kind: kinds[row], cat };
            assert(delta.rows[k as int] == e.row);
            return Err(e);
        }
        match cat {
            RowCat::Range(lower, upper) => {
                list.push(Retune::Ranged { row, lower, upper });
            },
            _ => {
                list.push(Retune::Simple { row, cat });
            },
        }
        k += 1;
    }
    Ok(list)
}

/// `e` is of the first row whose kind changed.
pub open spec fn is_first_change(delta: Delta, kinds: Seq<RowKind>, e: CategoryChange) -> bool {
    exists|k: int|
        0 <= k < delta.rows.len() && kinds_kept(delta, kinds, k) && e.row == (
        #[trigger] delta.rows[k]) && e.kind == kinds[e.row as int] && e.cat == cat_of(
            delta.lp,
            e.row as int,
        ) && e.cat.kind_of() != e.kind
}

fn created_rows(staged: &Staged) -> (r: Vec<NewRow>)
    requires
        staged.wf(),
    ensures
        r@.len() == staged.lp().rows.len() - staged.delta().old_rows,
        forall|i: int|
            0 <= i < r@.len() ==> (#[trigger] r@[i]).cat == cat_of(
                staged.lp(),
                staged.delta().old_rows + i,
            ) && lists_weights(
                r@[i].coeffs@,
                staged.lp().rows[staged.delta().old_rows + i].weights,
            ) && in_order(r@[i].coeffs@, staged.row_order(staged.delta().old_rows + i)),
{
    let ghost lp = staged.lp();
    let n: usize = staged.num_rows();
    let first: usize = n - staged.num_new_rows();
    let mut list: Vec<NewRow> = Vec::new();
    let mut r: usize = first;
    while r < n
        invariant
            staged.wf(),
            lp == staged.lp(),
            n == lp.rows.len(),
            first == staged.delta().old_rows,
            first <= r <= n,
            list@.len() == r - first,
            forall|i: int|
                0 <= i < list@.len() ==> (#[trigger] list@[i]).cat == cat_of(lp, first + i)
                    && lists_weights(list@[i].coeffs@, lp.rows[first + i].weights) && in_order(
                    list@[i].coeffs@,
                    staged.row_order(first + i),
                ),
        decreases n - r,
    {
        let cat: RowCat = categorize(staged.row(r).lower, staged.row(r).upper);
        let coeffs: Vec<(Col, Cost)> = staged.row_coeffs(r);
        proof {
            let order = staged.row_order(r as int);
            let weights = lp.rows[r as int].weights;
            assert forall|i: int, j: int| 0 <= i < j < coeffs@.len() implies (
            #[trigger] coeffs@[i]).0 != (#[trigger] coeffs@[j]).0 by {
                assert(order[i] != order[j]);
            }
            assert forall|i: int| 0 <= i < coeffs@.len() implies weights.contains_key(
                (#[trigger] coeffs@[i]).0,
            ) && coeffs@[i].1 == weights[coeffs@[i].0] by {
                assert(order.contains(order[i]));
            }
            assert forall|c: Col| #[trigger] weights.contains_key(c) implies listed(coeffs@, c) by {
                assert(order.contains(c));
                let i = choose|i: int| 0 <= i < order.len() && order[i] == c;
                assert(coeffs@[i].0 == c);
            }
        }
        list.push(NewRow { cat, coeffs });
        r += 1;
    }
    list
}

/// The calls that bring a solver up to date, whose rows are of the `kinds`
/// given; those of the new rows are added. Or the first row whose kind would
/// have to change, which is refused rather than solving a different model.
pub fn flush_plan(staged: &Staged, kinds: &mut Vec<RowKind>) -> (r: Result<
    GurobiDelta,
    CategoryChange,
>)
    requires
        staged.wf(),
        old(kinds)@.len() == staged.delta().old_rows,
    ensures
        match r {
            Ok(d) => {
                &&& kinds_kept(staged.delta(), old(kinds)@, staged.delta().rows.len() as int)
                &&& describes(d, staged.delta())
                &&& forall|i: int|
                    0 <= i < d.new_rows@.len() ==> in_order(
                        (#[trigger] d.new_rows@[i]).coeffs@,
                        staged.row_order(staged.delta().old_rows + i),
                    )
                &&& lists_start(*staged, d.start@)
                &&& bounds_proper(staged.lp()) ==> forall|solver: Lp| #[trigger]
                    staged.in_sync(solver) ==> same_model(d.applied_to(solver), staged.lp())
                &&& final(kinds)@.len() == staged.lp().rows.len()
                &&& forall|i: int|
                    0 <= i < final(kinds)@.len() ==> (#[trigger] final(kinds)@[i]) == (if i < old(
                        kinds,
                    )@.len() {
                        old(kinds)@[i]
                    } else {
                        cat_of(staged.lp(), i).kind_of()
                    })
            },
            Err(e) => is_first_change(staged.delta(), old(kinds)@, e) && final(kinds)@ == old(
                kinds,
            )@,
        },
{
    let ghost delta = staged.delta();
    let ghost lp = staged.lp();
    let n_cols: usize = staged.num_cols();
    let n_rows: usize = staged.num_rows();
    let retunes: Vec<Retune> = match retunes(staged, kinds) {
        Ok(list) => list,
        Err(e) => {
            return Err(e);
        },
    };
    let sense: Option<MilpSense> = if staged.sense_dirty() {
        Some(staged.sense())
    } else {
        None
    };
    let new_cols: Vec<(Col, ColDef)> = staged.new_cols();
    let new_rows: Vec<NewRow> = created_rows(staged);
    let cols: Vec<(Col, ColDef)> = changed_cols(staged);
    let coeffs: Vec<(Row, Col, Cost)> = staged.dirty_coeffs();
    let start: Vec<(Col, Cost)> = staged.warm();
    let ghost first = kinds@.len();
    let mut i: usize = 0;
    while i < new_rows.len()
        invariant
            lp == staged.lp(),
            first == old(kinds)@.len() == delta.old_rows,
            delta == staged.delta(),
            new_rows@.len() == lp.rows.len() - first,
            i <= new_rows@.len(),
            forall|k: int|
                0 <= k < new_rows@.len() ==> (#[trigger] new_rows@[k]).cat == cat_of(lp, first + k),
            kinds@.len() == first + i,
            forall|k: int|
                0 <= k < kinds@.len() ==> (#[trigger] kinds@[k]) == (if k < first {
                    old(kinds)@[k]
                } else {
                    cat_of(lp, k).kind_of()
                }),
        decreases new_rows@.len() - i,
    {
        assert(new_rows@[i as int].cat == cat_of(lp, first + i));
        kinds.push(new_rows[i].cat.kind());
        i += 1;
    }
    let plan: GurobiDelta = GurobiDelta { sense, new_cols, new_rows, cols, retunes, coeffs, start };
    proof {
        assert(describes(plan, delta));
        if bounds_proper(lp) {
            assert forall|solver: Lp| #[trigger] staged.in_sync(solver) implies same_model(
                plan.applied_to(solver),
                staged.lp(),
            ) by {
                delta_brings_up_to_date(plan, delta, solver);
            }
        }
    }
    Ok(plan)
}

// ---------------------------------------------------------------------------
// Answers
// ---------------------------------------------------------------------------

/// How a solve ended, as far as it matters.
#[derive(Debug, Clone, Copy, PartialEq, Eq, Structural)]
pub enum GurobiStatus {
    Optimal,
    Infeasible,
    InfOrUnbd,
    Unbounded,
    CutOff,
    /// A limit, an error, or a status that is not known.
    Other,
}

impl GurobiStatus {
    /// The model is infeasible. One that is infeasible or unbounded is taken
    /// for infeasible: the models here have a bounded objective.
    pub open spec fn is_infeasible_status(self) -> bool {
        self == GurobiStatus::Infeasible || self == GurobiStatus::InfOrUnbd
    }

    /// The solver terminated of its own accord.
    pub open spec fn is_final(self) -> bool {
        self != GurobiStatus::Other
    }

    /// [`Self::is_infeasible_status`].
    pub fn is_infeasible(self) -> (r: bool)
        ensures
            r == self.is_infeasible_status(),
    {
        self == GurobiStatus::Infeasible || self == GurobiStatus::InfOrUnbd
    }

    /// [`Self::is_final`].
    pub fn ran_to_completion(self) -> (r: bool)
        ensures
            r == self.is_final(),
    {
        match self {
            GurobiStatus::Other => false,
            _ => true,
        }
    }
}

/// What the solver reports of a solve.
pub struct GurobiReport {
    pub status: GurobiStatus,
    /// How many solutions it has.
    pub solutions: i32,
    /// The values of the columns, where there is a solution and they can be
    /// read.
    pub values: Option<Vec<Cost>>,
    /// The objective, where there is a solution and it can be read.
    pub objective: Option<Cost>,
    /// The dual bound, if it is known and finite.
    pub bound: Option<Cost>,
    pub detail: String,
}

/// The value of column `j` in a report.
pub open spec fn reported(report: GurobiReport, j: int) -> Cost {
    match report.values {
        Some(values) => if report.solutions > 0 && j < values@.len() {
            values@[j]
        } else {
            0
        },
        None => 0,
    }
}

/// The solution a report amounts to: without one every column is zero and the
/// objective worse than any.
pub fn solution_of(staged: &Staged, report: GurobiReport) -> (r: MilpSolution)
    requires
        staged.wf(),
    ensures
        r.infeasible == report.status.is_infeasible_status(),
        r.completed == report.status.is_final(),
        r.feasible == (report.solutions > 0),
        r.objective == (match report.objective {
            Some(v) => if report.solutions > 0 {
                v
            } else {
                INFINITY
            },
            None => INFINITY,
        }),
        r.bound == report.bound,
        r.detail == report.detail,
        r.values@.len() == staged.lp().cols.len(),
        forall|j: int|
            0 <= j < r.values@.len() ==> (#[trigger] r.values@[j])
                == (if staged.lp().cols[j].integral {
                snapped(reported(report, j))
            } else {
                reported(report, j)
            }),
{
    let n: usize = staged.num_cols();
    let feasible: bool = report.solutions > 0;
    let mut values: Vec<Cost> = Vec::new();
    while values.len() < n
        invariant
            values@.len() <= n,
            feasible == (report.solutions > 0),
            forall|j: int|
                0 <= j < values@.len() ==> (#[trigger] values@[j]) == reported(report, j),
        decreases n - values@.len(),
    {
        let j: usize = values.len();
        let v: Cost = match &report.values {
            Some(known) => if feasible && j < known.len() {
                known[j]
            } else {
                0
            },
            None => 0,
        };
        values.push(v);
    }
    snap_integral(staged, &mut values);
    let objective: Cost = match report.objective {
        Some(v) => if feasible {
            v
        } else {
            INFINITY
        },
        None => INFINITY,
    };
    MilpSolution {
        values,
        objective,
        infeasible: report.status.is_infeasible(),
        completed: report.status.ran_to_completion(),
        feasible,
        bound: report.bound,
        detail: report.detail,
    }
}

/// The threads to ask for: zero would be every core of the machine, and is
/// taken for one; more than the solver's parameter holds is the most it does.
pub fn thread_count(threads: u32) -> (r: i32)
    ensures
        r == (if threads == 0 {
            1int
        } else if threads > i32::MAX {
            i32::MAX as int
        } else {
            threads as int
        }),
{
    if threads == 0 {
        1
    } else if threads > 0x7fff_ffff {
        0x7fff_ffff
    } else {
        threads as i32
    }
}

/// The type of a parameter. The solver cannot be asked for it, but only a read
/// of the right type succeeds.
#[derive(Debug, Clone, Copy, PartialEq, Eq, Structural)]
pub enum ParamKind {
    Int,
    Double,
    Text,
    Unknown,
}

/// The type that reads as an integer, a number and a text, in that order, tell.
pub fn param_kind(as_int: bool, as_double: bool, as_text: bool) -> (r: ParamKind)
    ensures
        r == (if as_int {
            ParamKind::Int
        } else if as_double {
            ParamKind::Double
        } else if as_text {
            ParamKind::Text
        } else {
            ParamKind::Unknown
        }),
{
    if as_int {
        ParamKind::Int
    } else if as_double {
        ParamKind::Double
    } else if as_text {
        ParamKind::Text
    } else {
        ParamKind::Unknown
    }
}

/// What a parameter is to be set to.
#[derive(Debug, Clone, Copy, PartialEq, Eq, Structural)]
pub enum ParamValue {
    Int(i32),
    /// The number the text writes.
    Double,
    /// The text itself.
    Text,
}

/// Why a parameter is not set.
#[derive(Debug, Clone, Copy, PartialEq, Eq, Structural)]
pub enum ParamError {
    NotAnInt,
    NotADouble,
    Unknown,
}

/// What a parameter of some type is set to by a text, which has no space
/// around a number.
pub fn param_value(kind: ParamKind, text: &str) -> (r: Result<ParamValue, ParamError>)
    ensures
        r == (match kind {
            ParamKind::Int => match whole_number(text@) {
                Some(v) => Ok(ParamValue::Int(v)),
                None => Err(ParamError::NotAnInt),
            },
            ParamKind::Double => if decimal(text@) is Some {
                Ok(ParamValue::Double)
            } else {
                Err(ParamError::NotADouble)
            },
            ParamKind::Text => Ok(ParamValue::Text),
            ParamKind::Unknown => Err(ParamError::Unknown),
        }),
{
    let chars: Vec<char> = chars_of(text);
    match kind {
        ParamKind::Int => match parse_whole(chars.as_slice()) {
            Some(v) => Ok(ParamValue::Int(v)),
            None => Err(ParamError::NotAnInt),
        },
        ParamKind::Double => match parse_decimal(chars.as_slice()) {
            Some(_) => Ok(ParamValue::Double),
            None => Err(ParamError::NotADouble),
        },
        ParamKind::Text => Ok(ParamValue::Text),
        ParamKind::Unknown => Err(ParamError::Unknown),
    }
}

} // verus!
