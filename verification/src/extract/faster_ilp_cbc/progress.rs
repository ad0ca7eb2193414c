//! Why a search makes progress: a cycle that is blocked stays blocked, so no
//! solution comes up twice.
use crate::cost::{Cost, INFINITY, NEG_INFINITY, ONE};
use crate::egraph::{ClassId, NodeId};
use crate::extract::faster_ilp_cbc::block::{
    blocked, blocked_all, edges_apart, edges_to, is_choice_column, lemma_in_level, lemma_level_to,
    lemma_unit_coeffs, level, link_rows, next_in, not_all_row, ones_sum, unit_coeffs, uses,
};
use crate::extract::faster_ilp_cbc::encoding::{encodes, lit, point_reads_closed, reads};
use crate::extract::faster_ilp_cbc::problem::{
    choice_of, lemma_offered, place, sound, Problem,
};
use crate::extract::faster_ilp_cbc::rows::{columns_apart, implies_row, needs_rows};
use crate::extract::faster_ilp_cbc::{blockable, Config};
use crate::milp::point::{distinct_cols, feasible, lemma_row_of, row_holds, within};
use crate::milp::stage::{fresh_binary, Col, Lp};
use vstd::prelude::*;

verus! {

/// `after` has the columns and rows of `before` first.
pub open spec fn extends(before: Lp, after: Lp) -> bool {
    &&& before.cols.len() <= after.cols.len()
    &&& before.rows.len() <= after.rows.len()
    &&& forall|j: int| 0 <= j < before.cols.len() ==> #[trigger] after.cols[j] == before.cols[j]
    &&& forall|r: int| 0 <= r < before.rows.len() ==> #[trigger] after.rows[r] == before.rows[r]
}

pub proof fn lemma_extends_on(a: Lp, b: Lp, c: Lp)
    requires
        extends(a, b),
        extends(b, c),
    ensures
        extends(a, c),
{
    assert forall|j: int| 0 <= j < a.cols.len() implies #[trigger] c.cols[j] == a.cols[j] by {
        assert(b.cols[j] == a.cols[j]);
    }
    assert forall|r: int| 0 <= r < a.rows.len() implies #[trigger] c.rows[r] == a.rows[r] by {
        assert(b.rows[r] == a.rows[r]);
    }
}

/// The columns of more edges come after those of fewer.
proof fn lemma_edges_extend(p: Problem, cycle: Seq<ClassId>, lp: Lp, k: nat, i: nat)
    requires
        k <= i,
    ensures
        extends(edges_to(p, cycle, lp, k).0, edges_to(p, cycle, lp, i).0),
        edges_to(p, cycle, lp, i).1.len() == i,
        forall|m: int|
            0 <= m < k ==> #[trigger] edges_to(p, cycle, lp, i).1[m] == edges_to(
                p,
                cycle,
                lp,
                k,
            ).1[m],
    decreases i,
{
    if k < i {
        lemma_edges_extend(p, cycle, lp, k, (i - 1) as nat);
        let before = edges_to(p, cycle, lp, (i - 1) as nat).0;
        let after = edges_to(p, cycle, lp, i).0;
        assert(extends(before, after));
        lemma_extends_on(edges_to(p, cycle, lp, k).0, before, after);
        assert forall|m: int| 0 <= m < k implies #[trigger] edges_to(p, cycle, lp, i).1[m]
            == edges_to(p, cycle, lp, k).1[m] by {
            assert(edges_to(p, cycle, lp, (i - 1) as nat).1[m] == edges_to(
                p,
                cycle,
                lp,
                k,
            ).1[m]);
        }
    } else if i > 0 {
        lemma_edges_extend(p, cycle, lp, (i - 1) as nat, (i - 1) as nat);
    }
}

proof fn lemma_blocked_extends(p: Problem, cycle: Seq<ClassId>, lp: Lp)
    ensures
        extends(lp, blocked(p, cycle, lp)),
        extends(edges_to(p, cycle, lp, cycle.len()).0, blocked(p, cycle, lp)),
{
    lemma_edges_extend(p, cycle, lp, 0, cycle.len());
    let edges = edges_to(p, cycle, lp, cycle.len()).0;
    assert(extends(edges, blocked(p, cycle, lp)));
    lemma_extends_on(lp, edges, blocked(p, cycle, lp));
}

/// The model with more cycles blocked has what it has with fewer.
pub proof fn lemma_blocked_all_extends(
    p: Problem,
    cycles: Seq<Vec<ClassId>>,
    lp: Lp,
    k: nat,
    m: nat,
)
    requires
        k <= m,
    ensures
        extends(blocked_all(p, cycles, lp, k), blocked_all(p, cycles, lp, m)),
    decreases m,
{
    if k < m {
        lemma_blocked_all_extends(p, cycles, lp, k, (m - 1) as nat);
        let before = blocked_all(p, cycles, lp, (m - 1) as nat);
        lemma_blocked_extends(p, cycles[m - 1]@, before);
        lemma_extends_on(
            blocked_all(p, cycles, lp, k),
            before,
            blocked_all(p, cycles, lp, m),
        );
    }
}

/// The columns of the edges are apart.
proof fn lemma_edges_apart(
    p: Problem,
    actives: Seq<Col>,
    cycle: Seq<ClassId>,
    lp: Lp,
    i: nat,
)
    requires
        columns_apart(p, actives, lp.cols.len()),
        blockable(p, cycle),
        i <= cycle.len(),
        edges_to(p, cycle, lp, i).0.cols.len() <= usize::MAX,
    ensures
        edges_apart(
            p,
            cycle,
            lp.cols.len(),
            edges_to(p, cycle, lp, i).0,
            edges_to(p, cycle, lp, i).1,
        ),
    decreases i,
{
    if i > 0 {
        let k = i - 1;
        let width = lp.cols.len();
        let (before, cols) = edges_to(p, cycle, lp, k as nat);
        let (next, all) = edges_to(p, cycle, lp, i);
        lemma_edges_extend(p, cycle, lp, k as nat, i);
        lemma_edges_extend(p, cycle, lp, k as nat, k as nat);
        lemma_edges_apart(p, actives, cycle, lp, k as nat);
        let own = level(p, cycle, k);
        let c = cycle[k];
        let list = p.classes[c];
        assert(p.classes.contains_key(c));
        if own.len() == 1 {
            lemma_level_to(list, next_in(cycle, k), list.len(), 0);
            let m = choose|m: int|
                0 <= m < list.len() && (#[trigger] list[m]).kids.contains(next_in(cycle, k))
                    && list[m].variable == own[0];
            assert(p.classes[c][m].variable == own[0]);
            assert(is_choice_column(p, c, own[0]));
        }
        assert forall|a: int| 0 <= a < all.len() implies (#[trigger] all[a]) < next.cols.len() && (
        all[a] < width ==> is_choice_column(p, cycle[a], all[a])) by {
            if a < k {
                assert(all[a] == cols[a]);
            }
        }
        assert forall|a: int, b: int| 0 <= a < b < all.len() implies (#[trigger] all[a]) != (
        #[trigger] all[b]) by {
            assert(all[a] == cols[a]);
            if b < k {
                assert(all[b] == cols[b]);
                assert(cols[a] != cols[b]);
            } else if own.len() == 1 {
                if cols[a] < width {
                    assert(is_choice_column(p, cycle[a], cols[a]));
                    let u = choose|u: int|
                        0 <= u < p.classes[cycle[a]].len() && (
                        #[trigger] p.classes[cycle[a]][u]).variable == cols[a];
                    let w = choose|w: int|
                        0 <= w < p.classes[c].len() && (#[trigger] p.classes[c][w]).variable
                            == own[0];
                    assert(cycle[a] != cycle[k]);
                    assert(p.classes.contains_key(cycle[a]));
                }
            }
        }
    }
}

/// Each of `cols` implies `b`.
proof fn lemma_link_in(cols: Seq<Col>, b: Col, k: nat, i: int)
    requires
        0 <= i < k <= cols.len(),
    ensures
        link_rows(cols, b, k).len() == k,
        link_rows(cols, b, k)[i] == implies_row(cols[i], b),
    decreases k,
{
    assert(link_rows(cols, b, 0).len() == 0);
    if i < k - 1 {
        lemma_link_in(cols, b, (k - 1) as nat, i);
    } else if k > 1 {
        lemma_link_in(cols, b, (k - 1) as nat, 0);
    }
}

/// If the choices at a point use an edge, its column is on there.
proof fn lemma_edge_on(
    p: Problem,
    actives: Seq<Col>,
    config: Config,
    n: nat,
    cycle: Seq<ClassId>,
    lp: Lp,
    big: Lp,
    x: Seq<int>,
    den: int,
    sel: Map<ClassId, NodeId>,
    k: int,
)
    requires
        sound(p, n),
        n <= usize::MAX,
        columns_apart(p, actives, lp.cols.len()),
        blockable(p, cycle),
        encodes(big, p, actives, config, n),
        extends(edges_to(p, cycle, lp, cycle.len()).0, big),
        feasible(big, x, den),
        reads(p, actives, lit(x), sel),
        0 <= k < cycle.len(),
        uses(p, sel, cycle, k),
    ensures
        x[edges_to(p, cycle, lp, cycle.len()).1[k] as int] == den,
{
    let all = edges_to(p, cycle, lp, cycle.len());
    let (before, cols) = edges_to(p, cycle, lp, k as nat);
    let (next, some) = edges_to(p, cycle, lp, (k + 1) as nat);
    lemma_edges_extend(p, cycle, lp, (k + 1) as nat, cycle.len());
    lemma_edges_extend(p, cycle, lp, 0, k as nat);
    lemma_edges_extend(p, cycle, lp, 0, (k + 1) as nat);
    assert(all.1[k] == some[k]);
    lemma_extends_on(next, all.0, big);
    let c = cycle[k];
    let d = next_in(cycle, k);
    let list = p.classes[c];
    let own = level(p, cycle, k);
    assert(p.classes.contains_key(c));
    assert(sel.contains_key(c));
    lemma_offered(list, sel[c]);
    let m = place(list, sel[c]);
    assert(list[m].kids.contains(d));
    lemma_in_level(list, d, list.len(), m);
    assert(own.contains(list[m].variable));
    assert(needs_rows(list)) by {
        if list.len() == 1 {
            assert(m == 0);
            assert(list[0].kids.len() > 0);
        }
    }
    point_reads_closed(big, p, actives, config, n, x, den, sel);
    let v = list[m].variable;
    assert(choice_of(p, c, sel[c]) == list[m]);
    assert(x[v as int] == den);
    if own.len() == 1 {
        assert(some[k] == own[0]);
        assert(own[0] == v);
    } else {
        let fresh = before.cols.len() as Col;
        let i = choose|i: int| 0 <= i < own.len() && own[i] == v;
        lemma_link_in(own, fresh, own.len(), i);
        assert(some[k] == fresh);
        let r = before.rows.len() + i;
        assert(next.rows[r] == implies_row(v, fresh));
        assert(big.rows[r] == next.rows[r]);
        assert(row_holds(big.rows[r], x, den));
        assert(p.classes[c][m].variable < lp.cols.len());
        assert(fresh == before.cols.len());
        crate::extract::faster_ilp_cbc::encoding::lemma_implies_holds(v, fresh, x, den);
        assert(next.cols[fresh as int] == fresh_binary());
        assert(big.cols[fresh as int] == fresh_binary());
        crate::extract::faster_ilp_cbc::encoding::lemma_bit(big, x, den, fresh as int);
    }
}

/// If all columns are on, they add up to their number.
proof fn lemma_all_on(cols: Seq<Col>, x: Seq<int>, den: int, k: nat)
    requires
        k <= cols.len(),
        forall|j: int| 0 <= j < k ==> x[(#[trigger] cols[j]) as int] == den,
    ensures
        ones_sum(cols, x, k) == k * den,
    decreases k,
{
    if k == 0 {
        assert(0 * den == 0) by (nonlinear_arith);
    } else {
        lemma_all_on(cols, x, den, (k - 1) as nat);
        let m = k - 1;
        assert(m * den + den == (m + 1) * den) by (nonlinear_arith);
        assert(x[cols[k - 1] as int] == den);
    }
}

/// A blocked cycle is gone for good: at no point of the model with the cycle
/// blocked, whatever else is added to it, do the choices use every edge of the
/// cycle. Cycles so long that their length is no amount are left out.
pub proof fn blocked_cycle_is_gone(
    p: Problem,
    actives: Seq<Col>,
    config: Config,
    n: nat,
    cycle: Seq<ClassId>,
    lp: Lp,
    big: Lp,
    x: Seq<int>,
    den: int,
    sel: Map<ClassId, NodeId>,
)
    requires
        sound(p, n),
        n <= usize::MAX,
        columns_apart(p, actives, lp.cols.len()),
        blockable(p, cycle),
        cycle.len() * ONE < INFINITY,
        encodes(big, p, actives, config, n),
        extends(blocked(p, cycle, lp), big),
        feasible(big, x, den),
        reads(p, actives, lit(x), sel),
    ensures
        exists|k: int| 0 <= k < cycle.len() && !#[trigger] uses(p, sel, cycle, k),
{
    if forall|k: int| 0 <= k < cycle.len() ==> #[trigger] uses(p, sel, cycle, k) {
        let (edges, cols) = edges_to(p, cycle, lp, cycle.len());
        lemma_edges_extend(p, cycle, lp, 0, cycle.len());
        lemma_blocked_extends(p, cycle, lp);
        lemma_extends_on(edges, blocked(p, cycle, lp), big);
        assert forall|k: int| 0 <= k < cycle.len() implies x[(#[trigger] cols[k]) as int]
            == den by {
            assert(uses(p, sel, cycle, k));
            lemma_edge_on(p, actives, config, n, cycle, lp, big, x, den, sel, k);
        }
        lemma_edges_apart(p, actives, cycle, lp, cycle.len());
        let count = cycle.len();
        lemma_all_on(cols, x, den, count);
        let coeffs = unit_coeffs(cols, count);
        lemma_unit_coeffs(cols, x, count);
        assert(distinct_cols(coeffs, x.len())) by {
            assert forall|i: int| 0 <= i < coeffs.len() implies (#[trigger] coeffs[i]).0
                < x.len() by {
                assert(coeffs[i].0 == cols[i]);
            }
            assert forall|i: int, j: int| 0 <= i < j < coeffs.len() implies (
            #[trigger] coeffs[i]).0 != (#[trigger] coeffs[j]).0 by {
                assert(cols[i] != cols[j]);
            }
        }
        let upper = ((count - 1) * ONE) as Cost;
        lemma_row_of(NEG_INFINITY, upper, coeffs, x, den);
        let r = edges.rows.len() as int;
        assert(blocked(p, cycle, lp).rows[r] == not_all_row(cols));
        assert(big.rows[r] == not_all_row(cols));
        assert(row_holds(big.rows[r], x, den));
        assert(within(NEG_INFINITY, upper, 1_000_000 * (count * den), den));
        assert(false) by (nonlinear_arith)
            requires
                1_000_000 * (count * den) <= (count - 1) * 1_000_000 * den,
                den > 0,
        ;
    }
}

} // verus!
