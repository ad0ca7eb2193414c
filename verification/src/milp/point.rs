//! Rows given by their coefficients, and the points that satisfy a model.
use crate::cost::{Cost, INFINITY, NEG_INFINITY, ONE};
use crate::milp::stage::{reweighted, weight_of, Col, Lp, Row, RowModel, Staged};
use vstd::prelude::*;

verus! {

/// The weights that setting the first `k` of `coeffs` one after another leaves.
pub open spec fn weights_from(coeffs: Seq<(Col, Cost)>, k: nat) -> Map<Col, Cost>
    decreases k,
{
    if k == 0 {
        Map::empty()
    } else {
        reweighted(weights_from(coeffs, (k - 1) as nat), coeffs[k - 1].0, coeffs[k - 1].1)
    }
}

/// The row `lower <= sum of coeffs <= upper`.
pub open spec fn row_of(lower: Cost, upper: Cost, coeffs: Seq<(Col, Cost)>) -> RowModel {
    RowModel { lower, upper, weights: weights_from(coeffs, coeffs.len()) }
}

/// The weighted sum over the first `n` columns at the point `p`.
pub open spec fn row_sum(weights: Map<Col, Cost>, p: Seq<int>, n: nat) -> int
    decreases n,
{
    if n == 0 {
        0
    } else {
        row_sum(weights, p, (n - 1) as nat) + weight_of(weights, (n - 1) as Col) * p[n - 1]
    }
}

/// The sum of the first `k` of `coeffs` at the point `p`.
pub open spec fn coeff_sum(coeffs: Seq<(Col, Cost)>, p: Seq<int>, k: nat) -> int
    decreases k,
{
    if k == 0 {
        0
    } else {
        coeff_sum(coeffs, p, (k - 1) as nat) + coeffs[k - 1].1 * p[coeffs[k - 1].0 as int]
    }
}

/// `lower <= value / den <= upper`, an infinite bound being none.
pub open spec fn within(lower: Cost, upper: Cost, value: int, den: int) -> bool {
    &&& lower != NEG_INFINITY ==> lower * den <= value
    &&& upper != INFINITY ==> value <= upper * den
}

/// The row holds at the point whose columns are `p[j] / den`.
pub open spec fn row_holds(row: RowModel, p: Seq<int>, den: int) -> bool {
    within(row.lower, row.upper, row_sum(row.weights, p, p.len()), den)
}

/// The point whose columns are `p[j] / den` satisfies every bound, row and
/// integrality of the model.
pub open spec fn feasible(lp: Lp, p: Seq<int>, den: int) -> bool {
    &&& den > 0
    &&& p.len() == lp.cols.len()
    &&& forall|j: int|
        0 <= j < p.len() ==> within(
            (#[trigger] lp.cols[j]).lower,
            lp.cols[j].upper,
            p[j] * ONE,
            den,
        ) && (lp.cols[j].integral ==> p[j] % den == 0)
    &&& forall|i: int| 0 <= i < lp.rows.len() ==> row_holds(#[trigger] lp.rows[i], p, den)
}

/// The first `k` of `coeffs` are of different known columns.
pub open spec fn distinct_cols(coeffs: Seq<(Col, Cost)>, n: nat) -> bool {
    &&& forall|i: int| 0 <= i < coeffs.len() ==> (#[trigger] coeffs[i]).0 < n
    &&& forall|i: int, j: int|
        0 <= i < j < coeffs.len() ==> (#[trigger] coeffs[i]).0 != (#[trigger] coeffs[j]).0
}

pub proof fn lemma_row_sum_reweighted(
    weights: Map<Col, Cost>,
    col: Col,
    weight: Cost,
    p: Seq<int>,
    n: nat,
)
    requires
        n <= usize::MAX,
    ensures
        row_sum(reweighted(weights, col, weight), p, n) == row_sum(weights, p, n) + (if col < n {
            (weight - weight_of(weights, col)) * p[col as int]
        } else {
            0
        }),
    decreases n,
{
    if n > 0 {
        lemma_row_sum_reweighted(weights, col, weight, p, (n - 1) as nat);
        let after = reweighted(weights, col, weight);
        let j = (n - 1) as Col;
        if j == col {
            assert(weight_of(after, j) == weight);
            let old_weight = weight_of(weights, j);
            let x = p[n - 1];
            assert(weight * x == old_weight * x + (weight - old_weight) * x) by (nonlinear_arith);
        } else {
            assert(weight_of(after, j) == weight_of(weights, j));
        }
    }
}

/// The weights of coefficients of different columns are the coefficients.
pub proof fn lemma_weights_absent(coeffs: Seq<(Col, Cost)>, k: nat, col: Col)
    requires
        k <= coeffs.len(),
        forall|i: int| 0 <= i < k ==> (#[trigger] coeffs[i]).0 != col,
    ensures
        !weights_from(coeffs, k).contains_key(col),
    decreases k,
{
    if k > 0 {
        lemma_weights_absent(coeffs, (k - 1) as nat, col);
        assert(coeffs[k - 1].0 != col);
    }
}

/// The row sum of coefficients of different columns is their sum.
pub proof fn lemma_coeff_sum(coeffs: Seq<(Col, Cost)>, p: Seq<int>, k: nat)
    requires
        k <= coeffs.len(),
        p.len() <= usize::MAX,
        distinct_cols(coeffs, p.len()),
    ensures
        row_sum(weights_from(coeffs, k), p, p.len()) == coeff_sum(coeffs, p, k),
    decreases k,
{
    if k == 0 {
        lemma_row_sum_empty(p, p.len());
    } else {
        lemma_coeff_sum(coeffs, p, (k - 1) as nat);
        let w = weights_from(coeffs, (k - 1) as nat);
        let (col, weight) = coeffs[k - 1];
        assert forall|i: int| 0 <= i < k - 1 implies (#[trigger] coeffs[i]).0 != col by {
            assert(coeffs[i].0 != coeffs[k - 1].0);
        }
        lemma_weights_absent(coeffs, (k - 1) as nat, col);
        lemma_row_sum_reweighted(w, col, weight, p, p.len());
        assert(coeffs[k - 1].0 < p.len());
    }
}

proof fn lemma_row_sum_empty(p: Seq<int>, n: nat)
    ensures
        row_sum(Map::<Col, Cost>::empty(), p, n) == 0,
    decreases n,
{
    if n > 0 {
        lemma_row_sum_empty(p, (n - 1) as nat);
        let x = p[n - 1];
        assert(weight_of(Map::<Col, Cost>::empty(), (n - 1) as Col) == 0);
        assert(0 * x == 0);
    }
}

/// A row of coefficients of different columns holds where their sum is within
/// its bounds.
pub proof fn lemma_row_of(lower: Cost, upper: Cost, coeffs: Seq<(Col, Cost)>, p: Seq<int>, den: int)
    requires
        p.len() <= usize::MAX,
        distinct_cols(coeffs, p.len()),
    ensures
        row_holds(row_of(lower, upper, coeffs), p, den) <==> within(
            lower,
            upper,
            coeff_sum(coeffs, p, coeffs.len()),
            den,
        ),
{
    lemma_coeff_sum(coeffs, p, coeffs.len());
}

/// Adds the row `lower <= sum of coeffs <= upper`.
pub(crate) fn add_constraint(
    model: &mut Staged,
    lower: Cost,
    upper: Cost,
    coeffs: &Vec<(Col, Cost)>,
) -> (r: Row)
    requires
        old(model).wf(),
        forall|i: int|
            0 <= i < coeffs@.len() ==> (#[trigger] coeffs@[i]).0 < old(model).lp().cols.len(),
    ensures
        final(model).wf(),
        r == old(model).lp().rows.len(),
        final(model).lp() == (Lp {
            rows: old(model).lp().rows.push(row_of(lower, upper, coeffs@)),
            ..old(model).lp()
        }),
        final(model).start() == old(model).start(),
        final(model).sent() == old(model).sent(),
        old(model).delta().kept_by(final(model).delta()),
{
    let ghost before = model.lp();
    let row: Row = model.add_row();
    if lower != NEG_INFINITY {
        model.set_row_lower(row, lower);
    }
    if upper != INFINITY {
        model.set_row_upper(row, upper);
    }
    let mut i: usize = 0;
    proof {
        assert(model.lp().rows =~= before.rows.push(
            RowModel { lower, upper, weights: weights_from(coeffs@, 0) },
        ));
    }
    while i < coeffs.len()
        invariant
            i <= coeffs@.len(),
            model.wf(),
            row == before.rows.len(),
            model.start() == old(model).start(),
            model.sent() == old(model).sent(),
            old(model).delta().kept_by(model.delta()),
            model.lp() == (Lp {
                rows: before.rows.push(
                    RowModel { lower, upper, weights: weights_from(coeffs@, i as nat) },
                ),
                ..before
            }),
            forall|i: int|
                0 <= i < coeffs@.len() ==> (#[trigger] coeffs@[i]).0 < before.cols.len(),
        decreases coeffs@.len() - i,
    {
        let (col, weight) = coeffs[i];
        assert(coeffs@[i as int].0 < before.cols.len());
        model.set_weight(row, col, weight);
        i += 1;
        proof {
            assert(model.lp().rows =~= before.rows.push(
                RowModel { lower, upper, weights: weights_from(coeffs@, i as nat) },
            ));
        }
    }
    row
}

} // verus!
