//! What the HiGHS backend tells its solver, and what it makes of the answer.
//!
//! One solver object lives as long as the backend. What a [`Staged`] has in
//! store for it is appended in bulk at the start of each solve; nothing is ever
//! rebuilt.
use crate::cost::{Cost, Wide, INFINITY};
use crate::milp::stage::{
    reweighted, snap_integral, snapped, weight_of, Col, ColDef, Delta, Lp, Row, RowModel, Staged,
};
use crate::milp::{MilpSense, MilpSolution};
use crate::text::{
    chars_of, decimal, eq_word, has_nul, is_nul_free, parse_decimal, parse_whole, same_word, trim,
    trimmed, whole_number,
};
use vstd::prelude::*;

verus! {

// ---------------------------------------------------------------------------
// Flushing
// ---------------------------------------------------------------------------

/// The calls that bring the solver up to date, in the order they are made: new
/// columns come before the rows that mention them, and coefficients of old
/// rows, which may be of new columns, last.
pub struct HighsDelta {
    /// The direction of the objective, if it changed.
    pub sense: Option<MilpSense>,
    /// Columns of the solver to be replaced.
    pub cols: Vec<(Col, ColDef)>,
    /// Objective coefficients of the new columns.
    pub costs: Vec<Wide>,
    /// Lower bounds of the new columns.
    pub lower: Vec<Cost>,
    /// Upper bounds of the new columns.
    pub upper: Vec<Cost>,
    /// Those of the new columns that are integral.
    pub integral: Vec<Col>,
    /// Rows of the solver whose bounds are to be replaced.
    pub rows: Vec<(Row, Cost, Cost)>,
    /// Lower bounds of the new rows.
    pub row_lower: Vec<Cost>,
    /// Upper bounds of the new rows.
    pub row_upper: Vec<Cost>,
    /// Where the coefficients of each new row start.
    pub starts: Vec<usize>,
    /// The columns of the coefficients.
    pub index: Vec<Col>,
    /// The coefficients.
    pub value: Vec<Cost>,
    /// Coefficients of rows of the solver to be replaced.
    pub coeffs: Vec<(Row, Col, Cost)>,
}

/// `cols` with the first `k` changes made.
pub open spec fn cols_changed(cols: Seq<ColDef>, changes: Seq<(Col, ColDef)>, k: nat) -> Seq<ColDef>
    decreases k,
{
    if k == 0 {
        cols
    } else {
        cols_changed(cols, changes, (k - 1) as nat).update(
            changes[k - 1].0 as int,
            changes[k - 1].1,
        )
    }
}

/// `rows` with the bounds of the first `k` changes.
pub open spec fn bounds_changed(
    rows: Seq<RowModel>,
    changes: Seq<(Row, Cost, Cost)>,
    k: nat,
) -> Seq<RowModel>
    decreases k,
{
    if k == 0 {
        rows
    } else {
        let before = bounds_changed(rows, changes, (k - 1) as nat);
        let (r, lower, upper) = changes[k - 1];
        before.update(r as int, RowModel { lower, upper, ..before[r as int] })
    }
}

/// `rows` with the first `k` coefficients replaced.
pub open spec fn coeffs_changed(
    rows: Seq<RowModel>,
    changes: Seq<(Row, Col, Cost)>,
    k: nat,
) -> Seq<RowModel>
    decreases k,
{
    if k == 0 {
        rows
    } else {
        let before = coeffs_changed(rows, changes, (k - 1) as nat);
        let (r, c, w) = changes[k - 1];
        before.update(
            r as int,
            RowModel { weights: reweighted(before[r as int].weights, c, w), ..before[r as int] },
        )
    }
}

/// The coefficients from `from` on, up to `to`.
pub open spec fn coeffs_between(index: Seq<Col>, value: Seq<Cost>, from: int, to: int) -> Map<
    Col,
    Cost,
>
    decreases to - from,
{
    if from >= to {
        Map::empty()
    } else {
        coeffs_between(index, value, from, to - 1).insert(index[to - 1], value[to - 1])
    }
}

impl HighsDelta {
    /// The new columns, which are continuous at first.
    pub open spec fn new_cols(&self) -> Seq<ColDef> {
        Seq::new(
            self.costs@.len(),
            |i: int|
                ColDef {
                    lower: self.lower@[i],
                    upper: self.upper@[i],
                    cost: self.costs@[i],
                    integral: false,
                },
        )
    }

    /// `cols` with every column listed made integral.
    pub open spec fn made_integral(&self, cols: Seq<ColDef>) -> Seq<ColDef> {
        Seq::new(
            cols.len(),
            |j: int|
                ColDef {
                    integral: cols[j].integral || self.integral@.contains(j as Col),
                    ..cols[j]
                },
        )
    }

    /// The columns of the coefficients of the `i`th new row.
    pub open spec fn row_index(&self, i: int) -> Seq<Col> {
        self.index@.subrange(self.starts@[i] as int, self.end(i))
    }

    /// Where the coefficients of the `i`th new row end.
    pub open spec fn end(&self, i: int) -> int {
        if i + 1 < self.starts@.len() {
            self.starts@[i + 1] as int
        } else {
            self.index@.len() as int
        }
    }

    /// The new rows.
    pub open spec fn new_rows(&self) -> Seq<RowModel> {
        Seq::new(
            self.starts@.len(),
            |i: int|
                RowModel {
                    lower: self.row_lower@[i],
                    upper: self.row_upper@[i],
                    weights: coeffs_between(
                        self.index@,
                        self.value@,
                        self.starts@[i] as int,
                        self.end(i),
                    ),
                },
        )
    }

    /// What the calls make of the solver's model.
    pub open spec fn applied_to(&self, solver: Lp) -> Lp {
        Lp {
            sense: match self.sense {
                Some(sense) => sense,
                None => solver.sense,
            },
            cols: self.made_integral(
                cols_changed(solver.cols, self.cols@, self.cols@.len()) + self.new_cols(),
            ),
            rows: coeffs_changed(
                bounds_changed(solver.rows, self.rows@, self.rows@.len()) + self.new_rows(),
                self.coeffs@,
                self.coeffs@.len(),
            ),
        }
    }
}

/// The two models say the same.
pub open spec fn same_model(a: Lp, b: Lp) -> bool {
    &&& a.sense == b.sense
    &&& a.cols == b.cols
    &&& a.rows.len() == b.rows.len()
    &&& forall|r: int|
        0 <= r < a.rows.len() ==> (#[trigger] a.rows[r]).lower == b.rows[r].lower && a.rows[r].upper
            == b.rows[r].upper
    &&& forall|r: int, c: Col|
        0 <= r < a.rows.len() ==> #[trigger] weight_of(a.rows[r].weights, c) == weight_of(
            b.rows[r].weights,
            c,
        )
}

/// What the calls say of what changed and what is new.
pub open spec fn describes(d: HighsDelta, delta: Delta) -> bool {
    let lp = delta.lp;
    &&& d.sense == (if delta.sense {
        Some(lp.sense)
    } else {
        None
    })
    &&& d.cols@.len() == delta.cols.len()
    &&& forall|k: int|
        0 <= k < d.cols@.len() ==> #[trigger] d.cols@[k] == (
            delta.cols[k],
            lp.cols[delta.cols[k] as int],
        )
    &&& d.costs@.len() == lp.cols.len() - delta.old_cols
    &&& d.lower@.len() == d.costs@.len()
    &&& d.upper@.len() == d.costs@.len()
    &&& forall|i: int|
        0 <= i < d.costs@.len() ==> {
            let col = lp.cols[delta.old_cols + i];
            (#[trigger] d.costs@[i]) == col.cost && d.lower@[i] == col.lower && d.upper@[i]
                == col.upper
        }
    &&& forall|j: Col|
        delta.old_cols <= j < lp.cols.len() ==> (#[trigger] d.integral@.contains(j)
            <==> lp.cols[j as int].integral)
    &&& forall|j: Col| #[trigger]
        d.integral@.contains(j) ==> delta.old_cols <= j < lp.cols.len()
    &&& d.integral@.no_duplicates()
    &&& d.rows@.len() == delta.rows.len()
    &&& forall|k: int|
        0 <= k < d.rows@.len() ==> {
            let row = lp.rows[delta.rows[k] as int];
            #[trigger] d.rows@[k] == (delta.rows[k], row.lower, row.upper)
        }
    &&& d.index@.len() == d.value@.len()
    &&& d.starts@.len() == lp.rows.len() - delta.old_rows
    &&& d.row_lower@.len() == d.starts@.len()
    &&& d.row_upper@.len() == d.starts@.len()
    &&& forall|i: int|
        0 <= i < d.starts@.len() ==> {
            let row = lp.rows[delta.old_rows + i];
            &&& (#[trigger] d.starts@[i]) <= d.end(i) <= d.index@.len()
            &&& d.row_index(i).no_duplicates()
            &&& d.row_lower@[i] == row.lower
            &&& d.row_upper@[i] == row.upper
            &&& coeffs_between(d.index@, d.value@, d.starts@[i] as int, d.end(i)) =~= row.weights
        }
    &&& d.coeffs@.len() == delta.coeffs.len()
    &&& forall|k: int|
        0 <= k < d.coeffs@.len() ==> {
            let (r, c) = delta.coeffs[k];
            #[trigger] d.coeffs@[k] == (r, c, weight_of(lp.rows[r as int].weights, c))
        }
}

pub proof fn lemma_cols_changed(
    cols: Seq<ColDef>,
    target: Seq<ColDef>,
    changes: Seq<(Col, ColDef)>,
    k: nat,
)
    requires
        k <= changes.len(),
        cols.len() <= target.len(),
        forall|i: int|
            0 <= i < changes.len() ==> (#[trigger] changes[i]).0 < cols.len() && changes[i].1
                == target[changes[i].0 as int],
    ensures
        cols_changed(cols, changes, k).len() == cols.len(),
        forall|j: int|
            0 <= j < cols.len() ==> #[trigger] cols_changed(cols, changes, k)[j] == (
            if exists|i: int| 0 <= i < k && (#[trigger] changes[i]).0 == j {
                target[j]
            } else {
                cols[j]
            }),
    decreases k,
{
    if k > 0 {
        lemma_cols_changed(cols, target, changes, (k - 1) as nat);
        let before = cols_changed(cols, changes, (k - 1) as nat);
        let after = cols_changed(cols, changes, k);
        let c = changes[k - 1].0;
        assert forall|j: int| 0 <= j < cols.len() implies #[trigger] after[j] == (if exists|i: int|
            0 <= i < k && (#[trigger] changes[i]).0 == j {
            target[j]
        } else {
            cols[j]
        }) by {
            if j == c {
                assert(changes[k - 1].0 == j);
            } else {
                assert(after[j] == before[j]);
                if exists|i: int| 0 <= i < k && (#[trigger] changes[i]).0 == j {
                    let i = choose|i: int| 0 <= i < k && (#[trigger] changes[i]).0 == j;
                    assert(i < k - 1);
                    assert(changes[i].0 == j);
                }
                if exists|i: int| 0 <= i < k - 1 && (#[trigger] changes[i]).0 == j {
                    let i = choose|i: int| 0 <= i < k - 1 && (#[trigger] changes[i]).0 == j;
                    assert(changes[i].0 == j);
                }
            }
        }
    }
}

pub proof fn lemma_bounds_changed(
    rows: Seq<RowModel>,
    target: Seq<RowModel>,
    changes: Seq<(Row, Cost, Cost)>,
    k: nat,
)
    requires
        k <= changes.len(),
        rows.len() <= target.len(),
        forall|i: int|
            0 <= i < changes.len() ==> (#[trigger] changes[i]).0 < rows.len() && changes[i].1
                == target[changes[i].0 as int].lower && changes[i].2
                == target[changes[i].0 as int].upper,
    ensures
        bounds_changed(rows, changes, k).len() == rows.len(),
        forall|j: int|
            0 <= j < rows.len() ==> {
                let row = #[trigger] bounds_changed(rows, changes, k)[j];
                let from = if exists|i: int| 0 <= i < k && (#[trigger] changes[i]).0 == j {
                    target[j]
                } else {
                    rows[j]
                };
                row.lower == from.lower && row.upper == from.upper && row.weights
                    == rows[j].weights
            },
    decreases k,
{
    if k > 0 {
        lemma_bounds_changed(rows, target, changes, (k - 1) as nat);
        let before = bounds_changed(rows, changes, (k - 1) as nat);
        let after = bounds_changed(rows, changes, k);
        let c = changes[k - 1].0;
        assert forall|j: int| 0 <= j < rows.len() implies {
            let row = #[trigger] after[j];
            let from = if exists|i: int| 0 <= i < k && (#[trigger] changes[i]).0 == j {
                target[j]
            } else {
                rows[j]
            };
            row.lower == from.lower && row.upper == from.upper && row.weights == rows[j].weights
        } by {
            assert(before[j].weights == rows[j].weights);
            if j == c {
                assert(changes[k - 1].0 == j);
            } else {
                assert(after[j] == before[j]);
                if exists|i: int| 0 <= i < k && (#[trigger] changes[i]).0 == j {
                    let i = choose|i: int| 0 <= i < k && (#[trigger] changes[i]).0 == j;
                    assert(i < k - 1);
                    assert(changes[i].0 == j);
                }
                if exists|i: int| 0 <= i < k - 1 && (#[trigger] changes[i]).0 == j {
                    let i = choose|i: int| 0 <= i < k - 1 && (#[trigger] changes[i]).0 == j;
                    assert(changes[i].0 == j);
                }
            }
        }
    }
}

pub proof fn lemma_coeffs_changed(
    rows: Seq<RowModel>,
    target: Seq<RowModel>,
    changes: Seq<(Row, Col, Cost)>,
    k: nat,
)
    requires
        k <= changes.len(),
        rows.len() == target.len(),
        forall|i: int|
            0 <= i < changes.len() ==> (#[trigger] changes[i]).0 < rows.len() && changes[i].2
                == weight_of(target[changes[i].0 as int].weights, changes[i].1),
    ensures
        coeffs_changed(rows, changes, k).len() == rows.len(),
        forall|j: int|
            0 <= j < rows.len() ==> (#[trigger] coeffs_changed(rows, changes, k)[j]).lower
                == rows[j].lower && coeffs_changed(rows, changes, k)[j].upper == rows[j].upper,
        forall|j: int, c: Col|
            0 <= j < rows.len() ==> #[trigger] weight_of(
                coeffs_changed(rows, changes, k)[j].weights,
                c,
            ) == (if replaces(changes, k, j, c) {
                weight_of(target[j].weights, c)
            } else {
                weight_of(rows[j].weights, c)
            }),
    decreases k,
{
    if k > 0 {
        lemma_coeffs_changed(rows, target, changes, (k - 1) as nat);
        let before = coeffs_changed(rows, changes, (k - 1) as nat);
        let after = coeffs_changed(rows, changes, k);
        let (r, d, w) = changes[k - 1];
        assert forall|j: int, c: Col| 0 <= j < rows.len() implies #[trigger] weight_of(
            after[j].weights,
            c,
        ) == (if replaces(changes, k, j, c) {
            weight_of(target[j].weights, c)
        } else {
            weight_of(rows[j].weights, c)
        }) by {
            assert(weight_of(before[j].weights, c) == (if replaces(
                changes,
                (k - 1) as nat,
                j,
                c,
            ) {
                weight_of(target[j].weights, c)
            } else {
                weight_of(rows[j].weights, c)
            }));
            if replaces(changes, (k - 1) as nat, j, c) {
                let i = choose|i: int|
                    0 <= i < k - 1 && (#[trigger] changes[i]).0 == j && changes[i].1 == c;
                assert(changes[i].0 == j && changes[i].1 == c);
                assert(replaces(changes, k, j, c));
            }
            if j == r && c == d {
                assert(changes[k - 1].0 == j && changes[k - 1].1 == c);
                assert(replaces(changes, k, j, c));
            } else if replaces(changes, k, j, c) {
                let i = choose|i: int|
                    0 <= i < k && (#[trigger] changes[i]).0 == j && changes[i].1 == c;
                assert(i < k - 1);
                assert(replaces(changes, (k - 1) as nat, j, c));
            }
        }
        assert forall|j: int| 0 <= j < rows.len() implies (#[trigger] after[j]).lower
            == rows[j].lower && after[j].upper == rows[j].upper by {
            assert(before[j].lower == rows[j].lower);
        }
    }
}

/// One of the first `k` changes is of the coefficient of `c` in row `j`.
pub open spec fn replaces(changes: Seq<(Row, Col, Cost)>, k: nat, j: int, c: Col) -> bool {
    exists|i: int| 0 <= i < k && (#[trigger] changes[i]).0 == j && changes[i].1 == c
}

/// The calls bring any solver up to date that knows all but what changed and
/// what is new.
pub proof fn delta_brings_up_to_date(d: HighsDelta, delta: Delta, solver: Lp)
    requires
        delta.ok(),
        delta.lp.cols.len() <= usize::MAX,
        delta.lp.rows.len() <= usize::MAX,
        describes(d, delta),
        delta.synced(solver),
    ensures
        same_model(d.applied_to(solver), delta.lp),
{
    let lp = delta.lp;
    let after = d.applied_to(solver);
    let changed = cols_changed(solver.cols, d.cols@, d.cols@.len());
    assert forall|i: int| 0 <= i < d.cols@.len() implies (#[trigger] d.cols@[i]).0
        < solver.cols.len() && d.cols@[i].1 == lp.cols[d.cols@[i].0 as int] by {
        assert(delta.cols[i] < delta.old_cols);
    }
    lemma_cols_changed(solver.cols, lp.cols, d.cols@, d.cols@.len());
    assert(after.cols =~= lp.cols) by {
        assert forall|j: int| 0 <= j < lp.cols.len() implies after.cols[j] == lp.cols[j] by {
            if j < delta.old_cols {
                let c = j as Col;
                assert(!d.integral@.contains(c));
                assert(after.cols[j] == changed[j]);
                if delta.cols.contains(c) {
                    let i = choose|i: int| 0 <= i < delta.cols.len() && delta.cols[i] == c;
                    assert(d.cols@[i].0 == j);
                } else {
                    assert(lp.cols[c as int] == solver.cols[c as int]);
                    if exists|i: int| 0 <= i < d.cols@.len() && (#[trigger] d.cols@[i]).0 == j {
                        let i = choose|i: int| 0 <= i < d.cols@.len() && (#[trigger] d.cols@[i]).0 == j;
                        assert(delta.cols[i] == c);
                    }
                }
            } else {
                let i = j - delta.old_cols;
                assert(after.cols[j] == (ColDef {
                    integral: d.integral@.contains(j as Col),
                    ..d.new_cols()[i]
                }));
                assert(d.costs@[i] == lp.cols[delta.old_cols + i].cost);
                assert(d.integral@.contains(j as Col) <==> lp.cols[j].integral);
            }
        }
    }
    assert forall|i: int| 0 <= i < d.rows@.len() implies (#[trigger] d.rows@[i]).0
        < solver.rows.len() && d.rows@[i].1 == lp.rows[d.rows@[i].0 as int].lower && d.rows@[i].2
        == lp.rows[d.rows@[i].0 as int].upper by {
        assert(delta.rows[i] < delta.old_rows);
    }
    lemma_bounds_changed(solver.rows, lp.rows, d.rows@, d.rows@.len());
    let bounded = bounds_changed(solver.rows, d.rows@, d.rows@.len());
    let mid = bounded + d.new_rows();
    assert forall|i: int| 0 <= i < d.coeffs@.len() implies (#[trigger] d.coeffs@[i]).0 < mid.len()
        && d.coeffs@[i].2 == weight_of(lp.rows[d.coeffs@[i].0 as int].weights, d.coeffs@[i].1) by {
        assert(delta.coeffs[i].0 < delta.old_rows);
    }
    lemma_coeffs_changed(mid, lp.rows, d.coeffs@, d.coeffs@.len());
    assert forall|r: int| 0 <= r < after.rows.len() implies (#[trigger] after.rows[r]).lower
        == lp.rows[r].lower && after.rows[r].upper == lp.rows[r].upper by {
        if r < delta.old_rows {
            let row = r as Row;
            assert(mid[r] == bounded[r]);
            if delta.rows.contains(row) {
                let i = choose|i: int| 0 <= i < delta.rows.len() && delta.rows[i] == row;
                assert(d.rows@[i].0 == r);
            } else {
                assert(lp.rows[row as int].lower == solver.rows[row as int].lower);
                if exists|i: int| 0 <= i < d.rows@.len() && (#[trigger] d.rows@[i]).0 == r {
                    let i = choose|i: int| 0 <= i < d.rows@.len() && (#[trigger] d.rows@[i]).0 == r;
                    assert(delta.rows[i] == row);
                }
            }
        } else {
            let i = r - delta.old_rows;
            assert(mid[r] == d.new_rows()[i]);
            assert(d.starts@[i] <= d.end(i));
        }
    }
    assert forall|r: int, c: Col| 0 <= r < after.rows.len() implies #[trigger] weight_of(
        after.rows[r].weights,
        c,
    ) == weight_of(lp.rows[r].weights, c) by {
        if r < delta.old_rows {
            let row = r as Row;
            assert(mid[r] == bounded[r]);
            if delta.coeffs.contains((row, c)) {
                let i = choose|i: int| 0 <= i < delta.coeffs.len() && delta.coeffs[i] == (row, c);
                assert(d.coeffs@[i].0 == r && d.coeffs@[i].1 == c);
                assert(replaces(d.coeffs@, d.coeffs@.len(), r, c));
            } else {
                assert(weight_of(lp.rows[row as int].weights, c) == weight_of(
                    solver.rows[row as int].weights,
                    c,
                ));
                assert(mid[r].weights == solver.rows[r].weights);
            }
        } else {
            let i = r - delta.old_rows;
            assert(mid[r] == d.new_rows()[i]);
            assert(d.starts@[i] <= d.end(i));
            assert(mid[r].weights == lp.rows[r].weights);
        }
    }
}

// ---------------------------------------------------------------------------
// Building the calls
// ---------------------------------------------------------------------------

pub(crate) fn changed_cols(staged: &Staged) -> (r: Vec<(Col, ColDef)>)
    requires
        staged.wf(),
    ensures
        r@.len() == staged.delta().cols.len(),
        forall|k: int|
            0 <= k < r@.len() ==> #[trigger] r@[k] == (
                staged.delta().cols[k],
                staged.lp().cols[staged.delta().cols[k] as int],
            ),
{
    let dirty: Vec<Col> = staged.dirty_cols();
    let mut r: Vec<(Col, ColDef)> = Vec::new();
    let mut k: usize = 0;
    while k < dirty.len()
        invariant
            staged.wf(),
            dirty@ == staged.delta().cols,
            k <= dirty@.len(),
            r@.len() == k,
            forall|i: int|
                0 <= i < k ==> #[trigger] r@[i] == (
                    staged.delta().cols[i],
                    staged.lp().cols[staged.delta().cols[i] as int],
                ),
        decreases dirty@.len() - k,
    {
        assert(staged.delta().cols[k as int] < staged.delta().old_cols);
        r.push((dirty[k], staged.col(dirty[k])));
        k += 1;
    }
    r
}

fn changed_bounds(staged: &Staged) -> (r: Vec<(Row, Cost, Cost)>)
    requires
        staged.wf(),
    ensures
        r@.len() == staged.delta().rows.len(),
        forall|k: int|
            0 <= k < r@.len() ==> {
                let row = staged.lp().rows[staged.delta().rows[k] as int];
                #[trigger] r@[k] == (staged.delta().rows[k], row.lower, row.upper)
            },
{
    let dirty: Vec<Row> = staged.dirty_rows();
    let mut r: Vec<(Row, Cost, Cost)> = Vec::new();
    let mut k: usize = 0;
    while k < dirty.len()
        invariant
            staged.wf(),
            dirty@ == staged.delta().rows,
            k <= dirty@.len(),
            r@.len() == k,
            forall|i: int|
                0 <= i < k ==> {
                    let row = staged.lp().rows[staged.delta().rows[i] as int];
                    #[trigger] r@[i] == (staged.delta().rows[i], row.lower, row.upper)
                },
        decreases dirty@.len() - k,
    {
        assert(staged.delta().rows[k as int] < staged.delta().old_rows);
        let row: (Cost, Cost) = (staged.row(dirty[k]).lower, staged.row(dirty[k]).upper);
        r.push((dirty[k], row.0, row.1));
        k += 1;
    }
    r
}

/// What goes before `from` does not matter, nor what comes after `to`.
proof fn lemma_between_agree(
    i1: Seq<Col>,
    v1: Seq<Cost>,
    i2: Seq<Col>,
    v2: Seq<Cost>,
    from: int,
    to: int,
)
    requires
        0 <= from,
        to <= i1.len(),
        to <= i2.len(),
        forall|k: int| from <= k < to ==> #[trigger] i1[k] == i2[k],
        forall|k: int| from <= k < to ==> #[trigger] v1[k] == v2[k],
    ensures
        coeffs_between(i1, v1, from, to) == coeffs_between(i2, v2, from, to),
    decreases to - from,
{
    if from < to {
        lemma_between_agree(i1, v1, i2, v2, from, to - 1);
        assert(i1[to - 1] == i2[to - 1]);
        assert(v1[to - 1] == v2[to - 1]);
    }
}

/// The calls that bring a solver up to date.
pub fn flush_plan(staged: &Staged) -> (r: HighsDelta)
    requires
        staged.wf(),
    ensures
        describes(r, staged.delta()),
        forall|i: int|
            0 <= i < r.starts@.len() ==> #[trigger] r.row_index(i) == staged.row_order(
                staged.delta().old_rows + i,
            ),
        forall|solver: Lp| #[trigger]
            staged.in_sync(solver) ==> same_model(r.applied_to(solver), staged.lp()),
{
    let ghost delta = staged.delta();
    let ghost lp = staged.lp();
    let n_cols: usize = staged.num_cols();
    let n_rows: usize = staged.num_rows();
    let sense: Option<MilpSense> = if staged.sense_dirty() {
        Some(staged.sense())
    } else {
        None
    };
    let cols: Vec<(Col, ColDef)> = changed_cols(staged);
    let first_col: usize = n_cols - staged.num_new_cols();
    let mut costs: Vec<Wide> = Vec::new();
    let mut lower: Vec<Cost> = Vec::new();
    let mut upper: Vec<Cost> = Vec::new();
    let mut integral: Vec<Col> = Vec::new();
    let mut c: usize = first_col;
    while c < n_cols
        invariant
            staged.wf(),
            lp == staged.lp(),
            n_cols == lp.cols.len(),
            first_col <= c <= n_cols,
            costs@.len() == c - first_col,
            lower@.len() == costs@.len(),
            upper@.len() == costs@.len(),
            forall|i: int|
                0 <= i < costs@.len() ==> (#[trigger] costs@[i]) == lp.cols[first_col + i].cost
                    && lower@[i] == lp.cols[first_col + i].lower && upper@[i] == lp.cols[first_col
                    + i].upper,
            forall|j: Col|
                #[trigger] integral@.contains(j) <==> first_col <= j < c
                    && lp.cols[j as int].integral,
            integral@.no_duplicates(),
        decreases n_cols - c,
    {
        let def: ColDef = staged.col(c);
        costs.push(def.cost);
        lower.push(def.lower);
        upper.push(def.upper);
        let ghost before = integral@;
        if def.integral {
            assert(!before.contains(c));
            integral.push(c);
            proof {
                assert(integral@[before.len() as int] == c);
                assert forall|j: Col| #[trigger] integral@.contains(j) <==> before.contains(j) || j
                    == c by {
                    if before.contains(j) {
                        let k = choose|k: int| 0 <= k < before.len() && before[k] == j;
                        assert(integral@[k] == j);
                    }
                }
            }
        }
        c += 1;
    }
    let rows: Vec<(Row, Cost, Cost)> = changed_bounds(staged);
    let first_row: usize = n_rows - staged.num_new_rows();
    let mut row_lower: Vec<Cost> = Vec::new();
    let mut row_upper: Vec<Cost> = Vec::new();
    let mut starts: Vec<usize> = Vec::new();
    let mut index: Vec<Col> = Vec::new();
    let mut value: Vec<Cost> = Vec::new();
    let mut r: usize = first_row;
    let ghost mut ends: Seq<int> = Seq::empty();
    while r < n_rows
        invariant
            staged.wf(),
            lp == staged.lp(),
            n_rows == lp.rows.len(),
            first_row <= r <= n_rows,
            starts@.len() == r - first_row,
            ends.len() == starts@.len(),
            row_lower@.len() == starts@.len(),
            row_upper@.len() == starts@.len(),
            index@.len() == value@.len(),
            starts@.len() > 0 ==> ends.last() == index@.len(),
            forall|i: int|
                0 <= i < starts@.len() ==> {
                    let row = lp.rows[first_row + i];
                    &&& 0 <= (#[trigger] starts@[i]) <= ends[i] <= index@.len()
                    &&& i + 1 < starts@.len() ==> ends[i] == starts@[i + 1]
                    &&& row_lower@[i] == row.lower
                    &&& row_upper@[i] == row.upper
                    &&& coeffs_between(index@, value@, starts@[i] as int, ends[i]) == row.weights
                    &&& index@.subrange(starts@[i] as int, ends[i]) == staged.row_order(
                        first_row + i,
                    )
                    &&& staged.row_order(first_row + i).no_duplicates()
                },
        decreases n_rows - r,
    {
        let ghost index0 = index@;
        let ghost value0 = value@;
        let ghost starts0 = starts@;
        let ghost ends0 = ends;
        starts.push(index.len());
        row_lower.push(staged.row(r).lower);
        row_upper.push(staged.row(r).upper);
        let coeffs: Vec<(Col, Cost)> = staged.row_coeffs(r);
        let ghost order = staged.row_order(r as int);
        let ghost weights = lp.rows[r as int].weights;
        let mut k: usize = 0;
        let ghost from = index0.len() as int;
        while k < coeffs.len()
            invariant
                coeffs@.len() == order.len(),
                order.no_duplicates(),
                forall|i: int|
                    0 <= i < coeffs@.len() ==> (#[trigger] coeffs@[i]).0 == order[i]
                        && coeffs@[i].1 == weights[coeffs@[i].0],
                from == index0.len() == value0.len(),
                k <= coeffs@.len(),
                index@.len() == from + k,
                value@.len() == from + k,
                forall|i: int| 0 <= i < from ==> #[trigger] index@[i] == index0[i],
                forall|i: int| 0 <= i < k ==> #[trigger] index@[from + i] == order[i],
                forall|i: int| 0 <= i < from ==> #[trigger] value@[i] == value0[i],
                forall|x: Col| #[trigger]
                    coeffs_between(index@, value@, from, from + k).contains_key(x)
                        <==> order.take(k as int).contains(x),
                forall|x: Col| #[trigger]
                    coeffs_between(index@, value@, from, from + k).contains_key(x)
                        ==> coeffs_between(index@, value@, from, from + k)[x] == weights[x],
            decreases coeffs@.len() - k,
        {
            let ghost index1 = index@;
            let ghost value1 = value@;
            index.push(coeffs[k].0);
            value.push(coeffs[k].1);
            proof {
                lemma_between_agree(index1, value1, index@, value@, from, from + k);
                let col = coeffs@[k as int].0;
                let head = order.take(k as int);
                assert(order.take(k + 1) =~= head.push(col));
                assert forall|x: Col| head.push(col).contains(x) <==> head.contains(x) || x
                    == col by {
                    if head.contains(x) {
                        let i = choose|i: int| 0 <= i < head.len() && head[i] == x;
                        assert(head.push(col)[i] == x);
                    }
                    if x == col {
                        assert(head.push(col)[head.len() as int] == x);
                    }
                }
                let to = from + k + 1;
                let before = coeffs_between(index@, value@, from, to - 1);
                let after = coeffs_between(index@, value@, from, to);
                assert(to - 1 == from + k);
                assert(before == coeffs_between(index1, value1, from, from + k));
                assert(after == before.insert(index@[to - 1], value@[to - 1]));
                assert forall|x: Col| #[trigger] after.contains_key(x) <==> order.take(
                    k + 1,
                ).contains(x) by {
                    assert(before.contains_key(x) <==> head.contains(x));
                }
            }
            k += 1;
        }
        proof {
            assert(order.take(order.len() as int) =~= order);
            ends = ends0.push(index@.len() as int);
            assert(index@.subrange(from, index@.len() as int) =~= order) by {
                assert forall|i: int| 0 <= i < order.len() implies index@.subrange(
                    from,
                    index@.len() as int,
                )[i] == order[i] by {
                    assert(index@[from + i] == order[i]);
                }
            }
            assert(coeffs_between(index@, value@, from, index@.len() as int) =~= weights) by {
                assert forall|x: Col| order.contains(x) <==> weights.contains_key(x) by {}
            }
            assert forall|i: int| 0 <= i < starts@.len() implies {
                let row = lp.rows[first_row + i];
                &&& 0 <= (#[trigger] starts@[i]) <= ends[i] <= index@.len()
                &&& i + 1 < starts@.len() ==> ends[i] == starts@[i + 1]
                &&& row_lower@[i] == row.lower
                &&& row_upper@[i] == row.upper
                &&& coeffs_between(index@, value@, starts@[i] as int, ends[i]) == row.weights
                &&& index@.subrange(starts@[i] as int, ends[i]) == staged.row_order(first_row + i)
                &&& staged.row_order(first_row + i).no_duplicates()
            } by {
                if i < starts0.len() {
                    assert(starts0[i] == starts@[i]);
                    assert(index@.subrange(starts@[i] as int, ends[i]) =~= index0.subrange(
                        starts@[i] as int,
                        ends[i],
                    ));
                    lemma_between_agree(
                        index0,
                        value0,
                        index@,
                        value@,
                        starts@[i] as int,
                        ends0[i],
                    );
                }
            }
        }
        r += 1;
    }
    let coeffs: Vec<(Row, Col, Cost)> = staged.dirty_coeffs();
    let plan: HighsDelta = HighsDelta {
        sense,
        cols,
        costs,
        lower,
        upper,
        integral,
        rows,
        row_lower,
        row_upper,
        starts,
        index,
        value,
        coeffs,
    };
    proof {
        assert forall|i: int| 0 <= i < plan.starts@.len() implies {
            let row = lp.rows[delta.old_rows + i];
            &&& (#[trigger] plan.starts@[i]) <= plan.end(i) <= plan.index@.len()
            &&& plan.row_index(i).no_duplicates()
            &&& plan.row_lower@[i] == row.lower
            &&& plan.row_upper@[i] == row.upper
            &&& coeffs_between(plan.index@, plan.value@, plan.starts@[i] as int, plan.end(i))
                =~= row.weights
        } by {
            assert(starts@[i] <= ends[i]);
            assert(plan.end(i) == ends[i]);
            assert(coeffs_between(plan.index@, plan.value@, plan.starts@[i] as int, plan.end(i))
                == lp.rows[first_row + i].weights);
        }
        assert forall|i: int| 0 <= i < plan.starts@.len() implies #[trigger] plan.row_index(i)
            == staged.row_order(delta.old_rows + i) by {
            assert(starts@[i] <= ends[i]);
            assert(plan.end(i) == ends[i]);
        }
        assert forall|j: Col| delta.old_cols <= j < lp.cols.len() implies (
        #[trigger] plan.integral@.contains(j) <==> lp.cols[j as int].integral) by {}
        assert(describes(plan, delta));
        assert forall|solver: Lp| #[trigger] staged.in_sync(solver) implies same_model(
            plan.applied_to(solver),
            staged.lp(),
        ) by {
            delta_brings_up_to_date(plan, delta, solver);
        }
    }
    plan
}

/// The part of the staged start that is of known columns, in order.
pub open spec fn known_part(start: Seq<(Col, Cost)>, n: nat, k: nat) -> Seq<(Col, Cost)>
    decreases k,
{
    if k == 0 {
        Seq::empty()
    } else if start[k - 1].0 < n {
        known_part(start, n, (k - 1) as nat).push(start[k - 1])
    } else {
        known_part(start, n, (k - 1) as nat)
    }
}

/// `pairs` is the staged start.
pub open spec fn lists_start(staged: Staged, pairs: Seq<(Col, Cost)>) -> bool {
    &&& pairs.len() == staged.start_order().len()
    &&& forall|k: int|
        0 <= k < pairs.len() ==> (#[trigger] pairs[k]).0 == staged.start_order()[k] && pairs[k].1
            == staged.start()[pairs[k].0]
}

/// The start to hand to the solver. The solver forgets its start whenever the
/// model changes, so it goes last; and it is to be taken before the staged
/// changes are marked as made, which drops it.
pub fn start_pairs(staged: &Staged) -> (r: Vec<(Col, Cost)>)
    ensures
        exists|pairs: Seq<(Col, Cost)>| #[trigger]
            lists_start(*staged, pairs) && r@ == known_part(
                pairs,
                staged.lp().cols.len(),
                pairs.len(),
            ),
{
    let warm: Vec<(Col, Cost)> = staged.warm();
    let n: usize = staged.num_cols();
    let mut r: Vec<(Col, Cost)> = Vec::new();
    let mut k: usize = 0;
    while k < warm.len()
        invariant
            n == staged.lp().cols.len(),
            k <= warm@.len(),
            r@ == known_part(warm@, n as nat, k as nat),
        decreases warm@.len() - k,
    {
        if warm[k].0 < n {
            r.push(warm[k]);
        }
        k += 1;
    }
    assert(lists_start(*staged, warm@));
    r
}

// ---------------------------------------------------------------------------
// Answers
// ---------------------------------------------------------------------------

/// How a solve ended.
#[derive(Debug, Clone, Copy, PartialEq, Eq, Structural)]
pub enum HighsStatus {
    NotSet,
    LoadError,
    ModelError,
    PresolveError,
    SolveError,
    PostsolveError,
    ModelEmpty,
    Optimal,
    Infeasible,
    UnboundedOrInfeasible,
    Unbounded,
    ObjectiveBound,
    ObjectiveTarget,
    TimeLimit,
    IterationLimit,
    Unknown,
    SolutionLimit,
    Interrupt,
    MemoryLimit,
    Unrecognised,
}

/// What a solve left of a solution.
#[derive(Debug, Clone, Copy, PartialEq, Eq, Structural)]
pub enum PrimalStatus {
    Absent,
    Infeasible,
    Feasible,
    Unrecognised,
}

impl HighsStatus {
    pub open spec fn is_infeasible_status(self) -> bool {
        self == HighsStatus::Infeasible
    }

    /// The solver terminated of its own accord. That holds of a model proven
    /// infeasible or unbounded too; not of one that a limit cut off, nor where
    /// the solver does not know.
    pub open spec fn is_final(self) -> bool {
        ||| self == HighsStatus::Optimal
        ||| self == HighsStatus::Infeasible
        ||| self == HighsStatus::Unbounded
        ||| self == HighsStatus::UnboundedOrInfeasible
        ||| self == HighsStatus::ModelEmpty
    }

    /// The name of a status, as in logs.
    pub open spec fn text(self) -> Seq<char> {
        match self {
            HighsStatus::NotSet => "NotSet"@,
            HighsStatus::LoadError => "LoadError"@,
            HighsStatus::ModelError => "ModelError"@,
            HighsStatus::PresolveError => "PresolveError"@,
            HighsStatus::SolveError => "SolveError"@,
            HighsStatus::PostsolveError => "PostsolveError"@,
            HighsStatus::ModelEmpty => "ModelEmpty"@,
            HighsStatus::Optimal => "Optimal"@,
            HighsStatus::Infeasible => "Infeasible"@,
            HighsStatus::UnboundedOrInfeasible => "UnboundedOrInfeasible"@,
            HighsStatus::Unbounded => "Unbounded"@,
            HighsStatus::ObjectiveBound => "ObjectiveBound"@,
            HighsStatus::ObjectiveTarget => "ObjectiveTarget"@,
            HighsStatus::TimeLimit => "TimeLimit"@,
            HighsStatus::IterationLimit => "IterationLimit"@,
            HighsStatus::Unknown => "Unknown"@,
            HighsStatus::SolutionLimit => "SolutionLimit"@,
            HighsStatus::Interrupt => "Interrupt"@,
            HighsStatus::MemoryLimit => "MemoryLimit"@,
            HighsStatus::Unrecognised => "Unrecognised"@,
        }
    }

    /// [`Self::text`].
    pub fn model_status_name(self) -> (r: &'static str)
        ensures
            r@ == self.text(),
    {
        match self {
            HighsStatus::NotSet => "NotSet",
            HighsStatus::LoadError => "LoadError",
            HighsStatus::ModelError => "ModelError",
            HighsStatus::PresolveError => "PresolveError",
            HighsStatus::SolveError => "SolveError",
            HighsStatus::PostsolveError => "PostsolveError",
            HighsStatus::ModelEmpty => "ModelEmpty",
            HighsStatus::Optimal => "Optimal",
            HighsStatus::Infeasible => "Infeasible",
            HighsStatus::UnboundedOrInfeasible => "UnboundedOrInfeasible",
            HighsStatus::Unbounded => "Unbounded",
            HighsStatus::ObjectiveBound => "ObjectiveBound",
            HighsStatus::ObjectiveTarget => "ObjectiveTarget",
            HighsStatus::TimeLimit => "TimeLimit",
            HighsStatus::IterationLimit => "IterationLimit",
            HighsStatus::Unknown => "Unknown",
            HighsStatus::SolutionLimit => "SolutionLimit",
            HighsStatus::Interrupt => "Interrupt",
            HighsStatus::MemoryLimit => "MemoryLimit",
            HighsStatus::Unrecognised => "Unrecognised",
        }
    }

    /// [`Self::is_infeasible_status`].
    pub fn is_infeasible(self) -> (r: bool)
        ensures
            r == self.is_infeasible_status(),
    {
        self == HighsStatus::Infeasible
    }

    /// [`Self::is_final`].
    pub fn ran_to_completion(self) -> (r: bool)
        ensures
            r == self.is_final(),
    {
        match self {
            HighsStatus::Optimal => true,
            HighsStatus::Infeasible => true,
            HighsStatus::Unbounded => true,
            HighsStatus::UnboundedOrInfeasible => true,
            HighsStatus::ModelEmpty => true,
            _ => false,
        }
    }
}

/// What the solver reports of a solve.
pub struct HighsReport {
    pub status: HighsStatus,
    pub primal: PrimalStatus,
    /// The values of the columns, where there is a feasible solution.
    pub values: Vec<Cost>,
    /// The objective, where there is a feasible solution.
    pub objective: Cost,
    /// The dual bound, if it is known and finite.
    pub bound: Option<Cost>,
    pub detail: String,
}

/// The solution a report amounts to: without a feasible point every column is
/// zero and the objective worse than any.
pub fn solution_of(staged: &Staged, report: HighsReport) -> (r: MilpSolution)
    requires
        staged.wf(),
    ensures
        r.infeasible == report.status.is_infeasible_status(),
        r.completed == report.status.is_final(),
        r.feasible == (report.primal == PrimalStatus::Feasible),
        r.objective == (if report.primal == PrimalStatus::Feasible {
            report.objective
        } else {
            INFINITY
        }),
        r.bound == report.bound,
        r.detail == report.detail,
        r.values@.len() == staged.lp().cols.len(),
        forall|j: int|
            0 <= j < r.values@.len() ==> (#[trigger] r.values@[j]) == (if report.primal
                == PrimalStatus::Feasible && j < report.values@.len() {
                if staged.lp().cols[j].integral {
                    snapped(report.values@[j])
                } else {
                    report.values@[j]
                }
            } else {
                0
            }),
{
    let n: usize = staged.num_cols();
    let feasible: bool = report.primal == PrimalStatus::Feasible;
    let mut values: Vec<Cost> = Vec::new();
    while values.len() < n
        invariant
            values@.len() <= n,
            feasible == (report.primal == PrimalStatus::Feasible),
            forall|j: int|
                0 <= j < values@.len() ==> (#[trigger] values@[j]) == (if feasible && j
                    < report.values@.len() {
                    report.values@[j]
                } else {
                    0
                }),
        decreases n - values@.len(),
    {
        let j: usize = values.len();
        let v: Cost = if feasible && j < report.values.len() {
            report.values[j]
        } else {
            0
        };
        values.push(v);
    }
    snap_integral(staged, &mut values);
    MilpSolution {
        values,
        objective: if feasible {
            report.objective
        } else {
            INFINITY
        },
        infeasible: report.status.is_infeasible(),
        completed: report.status.ran_to_completion(),
        feasible,
        bound: report.bound,
        detail: report.detail,
    }
}

// ---------------------------------------------------------------------------
// Parameters
// ---------------------------------------------------------------------------

/// The type of an option, as the solver tells it.
#[derive(Debug, Clone, Copy, PartialEq, Eq, Structural)]
pub enum OptionKind {
    Bool,
    Int,
    Double,
    Text,
    Unhandled,
}

/// What an option is to be set to.
#[derive(Debug, Clone, Copy, PartialEq, Eq, Structural)]
pub enum OptionValue {
    Bool(bool),
    Int(i32),
    /// The number the text writes.
    Double,
    /// The text itself.
    Text,
}

/// Why an option is not set.
#[derive(Debug, Clone, Copy, PartialEq, Eq, Structural)]
pub enum OptionError {
    NotABool,
    NotAnInt,
    NotADouble,
    /// The text holds a NUL character, which ends a string of the solver.
    Nul,
    Unhandled,
}

/// The truth value a text names, whatever its case and the space around it.
pub open spec fn truth_named(text: Seq<char>) -> Option<bool> {
    let t = trimmed(text);
    if same_word(t, "1"@) || same_word(t, "true"@) || same_word(t, "on"@) || same_word(t, "yes"@) {
        Some(true)
    } else if same_word(t, "0"@) || same_word(t, "false"@) || same_word(t, "off"@) || same_word(
        t,
        "no"@,
    ) {
        Some(false)
    } else {
        None
    }
}

fn is_word(t: &[char], word: &str) -> (r: bool)
    ensures
        r == same_word(t@, word@),
{
    let chars: Vec<char> = chars_of(word);
    eq_word(t, chars.as_slice())
}

/// [`truth_named`].
pub fn parse_truth(text: &str) -> (r: Option<bool>)
    ensures
        r == truth_named(text@),
{
    let chars: Vec<char> = chars_of(text);
    let t: &[char] = trim(chars.as_slice());
    if is_word(t, "1") || is_word(t, "true") || is_word(t, "on") || is_word(t, "yes") {
        Some(true)
    } else if is_word(t, "0") || is_word(t, "false") || is_word(t, "off") || is_word(t, "no") {
        Some(false)
    } else {
        None
    }
}

/// What an option of some type is set to by a text.
pub fn option_value(kind: OptionKind, text: &str) -> (r: Result<OptionValue, OptionError>)
    ensures
        r == (match kind {
            OptionKind::Bool => match truth_named(text@) {
                Some(b) => Ok(OptionValue::Bool(b)),
                None => Err(OptionError::NotABool),
            },
            OptionKind::Int => match whole_number(trimmed(text@)) {
                Some(v) => Ok(OptionValue::Int(v)),
                None => Err(OptionError::NotAnInt),
            },
            OptionKind::Double => if decimal(trimmed(text@)) is Some {
                Ok(OptionValue::Double)
            } else {
                Err(OptionError::NotADouble)
            },
            OptionKind::Text => if is_nul_free(text@) {
                Ok(OptionValue::Text)
            } else {
                Err(OptionError::Nul)
            },
            OptionKind::Unhandled => Err(OptionError::Unhandled),
        }),
{
    match kind {
        OptionKind::Bool => match parse_truth(text) {
            Some(b) => Ok(OptionValue::Bool(b)),
            None => Err(OptionError::NotABool),
        },
        OptionKind::Int => {
            let chars: Vec<char> = chars_of(text);
            match parse_whole(trim(chars.as_slice())) {
                Some(v) => Ok(OptionValue::Int(v)),
                None => Err(OptionError::NotAnInt),
            }
        },
        OptionKind::Double => {
            let chars: Vec<char> = chars_of(text);
            match parse_decimal(trim(chars.as_slice())) {
                Some(_) => Ok(OptionValue::Double),
                None => Err(OptionError::NotADouble),
            }
        },
        OptionKind::Text => if has_nul(text) {
            Err(OptionError::Nul)
        } else {
            Ok(OptionValue::Text)
        },
        OptionKind::Unhandled => Err(OptionError::Unhandled),
    }
}

/// The threads to ask for: zero would be every core of the machine, and is
/// taken for one.
pub fn thread_count(threads: u32) -> (r: u32)
    ensures
        r == (if threads == 0 {
            1
        } else {
            threads
        }),
{
    if threads == 0 {
        1
    } else {
        threads
    }
}

} // verus!
