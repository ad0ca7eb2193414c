//! What the model of a problem promises: its points read as solutions, and
//! every solution is one of its points.
use crate::cost::{Cost, MINUS_ONE, NEG_INFINITY, ONE};
use crate::egraph::{ClassId, EGraph, NodeId};
use crate::extract::faster_ilp_cbc::problem::{
    choice_of, descends, lemma_offered, lemma_place, listed, offers, place, price, sound,
    sound_class, Choice, Problem,
};
use crate::extract::faster_ilp_cbc::reach::lemma_common_kids;
use crate::extract::faster_ilp_cbc::rows::{
    base_cost, class_rows, columns_apart, columns_for, implies_row, is_closed, kid_rows,
    lemma_base_cost, list_rows, needs_rows, owned, rows_to, select_coeffs, select_row, shared_kids,
    shared_rows,
};
use crate::extract::faster_ilp_cbc::start::{
    columns_below, finite_places, lemma_finite_places, start_choice, start_problem,
};
use crate::extract::faster_ilp_cbc::Config;
use crate::extract::ilp::optimality::{objective_at, objective_term};
use crate::milp::point::{
    coeff_sum, distinct_cols, feasible, lemma_row_of, row_holds, row_of, weights_from, within,
};
use crate::milp::stage::{fresh_binary, reweighted, Col, Lp, RowModel};
use crate::sums::{
    lemma_part_below, lemma_part_empty, lemma_part_insert, lemma_part_whole, lemma_zero_product,
    part_of,
};
use vstd::prelude::*;

verus! {

// ---------------------------------------------------------------------------
// Columns
// ---------------------------------------------------------------------------

proof fn lemma_columns_rise(g: EGraph, c: nat, d: nat)
    requires
        c < d,
    ensures
        columns_below(g, c) + 1 + g.classes@[c as int].nodes@.len() <= columns_below(g, d),
    decreases d,
{
    if c + 1 < d {
        lemma_columns_rise(g, c, (d - 1) as nat);
    }
}

/// Where the column of a choice stands.
proof fn lemma_variable(
    g: EGraph,
    roots: Seq<ClassId>,
    q: Problem,
    c: ClassId,
    j: int,
) -> (i: int)
    requires
        descends(start_problem(g, roots), q),
        columns_below(g, g.classes@.len()) <= usize::MAX,
        q.classes.contains_key(c),
        0 <= j < q.classes[c].len(),
    ensures
        c < g.classes@.len(),
        0 <= i < g.classes@[c as int].nodes@.len(),
        q.classes[c][j].variable == columns_below(g, c as nat) + 1 + i,
        q.classes[c][j].node == g.classes@[c as int].nodes@[i],
{
    let p = start_problem(g, roots);
    assert(p.classes.contains_key(c));
    assert(listed(p.classes[c], q.classes[c][j]));
    let o = q.classes[c][j];
    let list = p.classes[c];
    let i = choose|i: int|
        0 <= i < list.len() && (#[trigger] list[i]).node == o.node && list[i].variable
            == o.variable;
    let places = finite_places(g, c, g.classes@[c as int].nodes@.len());
    lemma_finite_places(g, c, g.classes@[c as int].nodes@.len());
    assert(list[i] == start_choice(g, c, places[i]));
    lemma_columns_rise(g, c as nat, g.classes@.len());
    places[i]
}

/// However a problem is simplified, its columns stay apart.
pub proof fn lemma_columns_apart(g: EGraph, roots: Seq<ClassId>, q: Problem, actives: Seq<Col>)
    requires
        descends(start_problem(g, roots), q),
        sound(q, g.classes@.len()),
        columns_below(g, g.classes@.len()) <= usize::MAX,
        actives.len() == g.classes@.len(),
        forall|c: ClassId|
            c < g.classes@.len() ==> #[trigger] actives[c as int] == columns_below(g, c as nat),
    ensures
        columns_apart(q, actives, columns_below(g, g.classes@.len())),
{
    let n = g.classes@.len();
    assert forall|c: ClassId| #[trigger] q.classes.contains_key(c) implies c < actives.len()
        && actives[c as int] < columns_below(g, n) by {
        assert(start_problem(g, roots).classes.contains_key(c));
        lemma_columns_rise(g, c as nat, n);
    }
    assert forall|c: ClassId, i: int|
        q.classes.contains_key(c) && 0 <= i < q.classes[c].len() implies (
    #[trigger] q.classes[c][i]).variable < columns_below(g, n) by {
        let k = lemma_variable(g, roots, q, c, i);
        lemma_columns_rise(g, c as nat, n);
    }
    assert forall|c: ClassId, d: ClassId| #[trigger]
        q.classes.contains_key(c) && #[trigger] q.classes.contains_key(d) && actives[c as int]
            == actives[d as int] implies c == d by {
        if c < d {
            lemma_columns_rise(g, c as nat, d as nat);
        } else if d < c {
            lemma_columns_rise(g, d as nat, c as nat);
        }
    }
    assert forall|c: ClassId, i: int, d: ClassId, j: int|
        q.classes.contains_key(c) && 0 <= i < q.classes[c].len() && q.classes.contains_key(d) && 0
            <= j < q.classes[d].len() && (#[trigger] q.classes[c][i]).variable == (
        #[trigger] q.classes[d][j]).variable implies c == d && i == j by {
        let a = lemma_variable(g, roots, q, c, i);
        let b = lemma_variable(g, roots, q, d, j);
        if c < d {
            lemma_columns_rise(g, c as nat, d as nat);
        } else if d < c {
            lemma_columns_rise(g, d as nat, c as nat);
        }
        assert(sound_class(q, q.classes[c]));
        if i < j {
            assert(q.classes[c][i].node != q.classes[c][j].node);
        } else if j < i {
            assert(q.classes[c][j].node != q.classes[c][i].node);
        }
    }
    assert forall|c: ClassId, d: ClassId, j: int| #[trigger]
        q.classes.contains_key(c) && q.classes.contains_key(d) && 0 <= j
            < q.classes[d].len() implies actives[c as int] != (
    #[trigger] q.classes[d][j]).variable by {
        let b = lemma_variable(g, roots, q, d, j);
        if c < d {
            lemma_columns_rise(g, c as nat, d as nat);
        } else if d < c {
            lemma_columns_rise(g, d as nat, c as nat);
        }
    }
}

// ---------------------------------------------------------------------------
// Models
// ---------------------------------------------------------------------------

/// `lp` has the rows and the columns of the problem; it may have others, that
/// cost nothing.
pub open spec fn encodes(lp: Lp, p: Problem, actives: Seq<Col>, config: Config, n: nat) -> bool {
    &&& lp.cols.len() <= usize::MAX
    &&& columns_apart(p, actives, lp.cols.len())
    &&& columns_for(p, actives, config, lp.cols)
    &&& forall|row: RowModel| #[trigger]
        rows_to(p, actives, config, n).contains(row) ==> lp.rows.contains(row)
}

/// `sel` is what columns that are `on` say: a class is chosen for if its
/// column is on, and the choice is the only one, or the only one that is on.
pub open spec fn reads(
    p: Problem,
    actives: Seq<Col>,
    on: spec_fn(Col) -> bool,
    sel: Map<ClassId, NodeId>,
) -> bool {
    &&& forall|c: ClassId| #[trigger]
        sel.contains_key(c) <==> p.classes.contains_key(c) && on(actives[c as int])
    &&& forall|c: ClassId| #[trigger]
        sel.contains_key(c) ==> offers(p.classes[c], sel[c]) && (p.classes[c].len() == 1 || only_on(
            p.classes[c],
            on,
            sel[c],
        ))
}

/// Of the choices, only that of node `n` is on.
pub open spec fn only_on(list: Seq<Choice>, on: spec_fn(Col) -> bool, n: NodeId) -> bool {
    forall|i: int| 0 <= i < list.len() ==> on((#[trigger] list[i]).variable) == (list[i].node == n)
}

/// The columns that are on at a point.
pub open spec fn lit(x: Seq<int>) -> spec_fn(Col) -> bool {
    |j: Col| x[j as int] > 0
}

/// `sel` chooses for the roots, and with a class for all it needs.
pub open spec fn is_closed_under(p: Problem, sel: Map<ClassId, NodeId>) -> bool {
    &&& forall|r: ClassId| #[trigger] p.roots.contains(r) ==> sel.contains_key(r)
    &&& forall|c: ClassId, d: ClassId|
        sel.contains_key(c) && #[trigger] choice_of(p, c, sel[c]).kids.contains(d)
            ==> sel.contains_key(d)
}

proof fn lemma_in_sum<T>(a: Seq<T>, b: Seq<T>, x: T)
    ensures
        (a + b).contains(x) <==> a.contains(x) || b.contains(x),
{
    let s = a + b;
    if a.contains(x) {
        let i = choose|i: int| 0 <= i < a.len() && a[i] == x;
        assert(s[i] == x);
    }
    if b.contains(x) {
        let i = choose|i: int| 0 <= i < b.len() && b[i] == x;
        assert(s[a.len() + i] == x);
    }
    if s.contains(x) {
        let i = choose|i: int| 0 <= i < s.len() && s[i] == x;
        if i < a.len() {
            assert(a[i] == x);
        } else {
            assert(b[i - a.len()] == x);
        }
    }
}

proof fn lemma_in_push<T>(a: Seq<T>, y: T, x: T)
    ensures
        a.push(y).contains(x) <==> a.contains(x) || x == y,
{
    let s = a.push(y);
    if a.contains(x) {
        let i = choose|i: int| 0 <= i < a.len() && a[i] == x;
        assert(s[i] == x);
    }
    assert(s[a.len() as int] == y);
}

/// The rows of a class are rows of the problem.
proof fn lemma_class_rows_in(
    p: Problem,
    actives: Seq<Col>,
    config: Config,
    n: nat,
    c: ClassId,
    row: RowModel,
)
    requires
        c < n <= usize::MAX,
        p.classes.contains_key(c),
        class_rows(actives, actives[c as int], p.classes[c], config).contains(row),
    ensures
        rows_to(p, actives, config, n).contains(row),
    decreases n,
{
    let d = (n - 1) as ClassId;
    let before = rows_to(p, actives, config, (n - 1) as nat);
    if d == c {
        lemma_in_sum(before, class_rows(actives, actives[c as int], p.classes[c], config), row);
    } else {
        lemma_class_rows_in(p, actives, config, (n - 1) as nat, c, row);
        if p.classes.contains_key(d) {
            lemma_in_sum(before, class_rows(actives, actives[d as int], p.classes[d], config), row);
        }
    }
}

/// Every row is one of a class.
proof fn lemma_row_of_class(
    p: Problem,
    actives: Seq<Col>,
    config: Config,
    n: nat,
    row: RowModel,
) -> (c: ClassId)
    requires
        n <= usize::MAX,
        rows_to(p, actives, config, n).contains(row),
    ensures
        c < n,
        p.classes.contains_key(c),
        class_rows(actives, actives[c as int], p.classes[c], config).contains(row),
    decreases n,
{
    if n == 0 {
        0
    } else {
        let d = (n - 1) as ClassId;
        let before = rows_to(p, actives, config, (n - 1) as nat);
        if p.classes.contains_key(d) {
            let own = class_rows(actives, actives[d as int], p.classes[d], config);
            lemma_in_sum(before, own, row);
            if own.contains(row) {
                d
            } else {
                lemma_row_of_class(p, actives, config, (n - 1) as nat, row)
            }
        } else {
            lemma_row_of_class(p, actives, config, (n - 1) as nat, row)
        }
    }
}

proof fn lemma_shared_rows(
    actives: Seq<Col>,
    active: Col,
    shared: Seq<ClassId>,
    k: nat,
    row: RowModel,
)
    requires
        k <= shared.len(),
    ensures
        shared_rows(actives, active, shared, k).contains(row) <==> exists|m: int|
            0 <= m < k && row == implies_row(active, actives[#[trigger] shared[m] as int]),
    decreases k,
{
    if k > 0 {
        let before = shared_rows(actives, active, shared, (k - 1) as nat);
        let last = implies_row(active, actives[shared[k - 1] as int]);
        lemma_shared_rows(actives, active, shared, (k - 1) as nat, row);
        lemma_in_push(before, last, row);
        if before.contains(row) {
            let m = choose|m: int|
                0 <= m < k - 1 && row == implies_row(active, actives[#[trigger] shared[m] as int]);
            assert(row == implies_row(active, actives[shared[m] as int]));
        }
        if row == last {
            assert(row == implies_row(active, actives[shared[k - 1] as int]));
        }
    }
}

proof fn lemma_kid_rows(
    actives: Seq<Col>,
    o: Choice,
    shared: Seq<ClassId>,
    k: nat,
    row: RowModel,
)
    requires
        k <= o.kids.len(),
    ensures
        kid_rows(actives, o, shared, k).contains(row) <==> exists|m: int|
            0 <= m < k && !shared.contains(o.kids[m]) && row == implies_row(
                o.variable,
                actives[#[trigger] o.kids[m] as int],
            ),
    decreases k,
{
    if k > 0 {
        let before = kid_rows(actives, o, shared, (k - 1) as nat);
        let d = o.kids[k - 1];
        let last = implies_row(o.variable, actives[d as int]);
        lemma_kid_rows(actives, o, shared, (k - 1) as nat, row);
        lemma_in_push(before, last, row);
        if before.contains(row) {
            let m = choose|m: int|
                0 <= m < k - 1 && !shared.contains(o.kids[m]) && row == implies_row(
                    o.variable,
                    actives[#[trigger] o.kids[m] as int],
                );
            assert(row == implies_row(o.variable, actives[o.kids[m] as int]));
        }
        if row == last && !shared.contains(d) {
            assert(row == implies_row(o.variable, actives[o.kids[k - 1] as int]));
        }
    }
}

proof fn lemma_list_rows(
    actives: Seq<Col>,
    list: Seq<Choice>,
    shared: Seq<ClassId>,
    i: nat,
    row: RowModel,
)
    requires
        i <= list.len(),
    ensures
        list_rows(actives, list, shared, i).contains(row) <==> exists|m: int|
            0 <= m < i && kid_rows(
                actives,
                #[trigger] list[m],
                shared,
                list[m].kids.len(),
            ).contains(row),
    decreases i,
{
    if i > 0 {
        let before = list_rows(actives, list, shared, (i - 1) as nat);
        let own = kid_rows(actives, list[i - 1], shared, list[i - 1].kids.len());
        lemma_list_rows(actives, list, shared, (i - 1) as nat, row);
        lemma_in_sum(before, own, row);
        if before.contains(row) {
            let m = choose|m: int|
                0 <= m < i - 1 && kid_rows(
                    actives,
                    #[trigger] list[m],
                    shared,
                    list[m].kids.len(),
                ).contains(row);
            assert(kid_rows(actives, list[m], shared, list[m].kids.len()).contains(row));
        }
    }
}

/// A class's own row.
proof fn lemma_select_in(
    p: Problem,
    actives: Seq<Col>,
    config: Config,
    n: nat,
    c: ClassId,
)
    requires
        c < n <= usize::MAX,
        p.classes.contains_key(c),
        needs_rows(p.classes[c]),
    ensures
        rows_to(p, actives, config, n).contains(select_row(actives[c as int], p.classes[c])),
{
    let list = p.classes[c];
    let active = actives[c as int];
    let shared = shared_kids(list, config);
    let row = select_row(active, list);
    let a = seq![row];
    let b = shared_rows(actives, active, shared, shared.len());
    let d = list_rows(actives, list, shared, list.len());
    assert(a[0] == row);
    assert(a.contains(row));
    lemma_in_sum(a, b, row);
    lemma_in_sum(a + b, d, row);
    lemma_class_rows_in(p, actives, config, n, c, row);
}

/// A need is a row: of the class if all choices have it, else of the choice.
proof fn lemma_need_in(
    p: Problem,
    actives: Seq<Col>,
    config: Config,
    n: nat,
    c: ClassId,
    i: int,
    m: int,
)
    requires
        c < n <= usize::MAX,
        p.classes.contains_key(c),
        needs_rows(p.classes[c]),
        0 <= i < p.classes[c].len(),
        0 <= m < p.classes[c][i].kids.len(),
    ensures
        ({
            let o = p.classes[c][i];
            let below = actives[o.kids[m] as int];
            if shared_kids(p.classes[c], config).contains(o.kids[m]) {
                rows_to(p, actives, config, n).contains(implies_row(actives[c as int], below))
            } else {
                rows_to(p, actives, config, n).contains(implies_row(o.variable, below))
            }
        }),
{
    let list = p.classes[c];
    let active = actives[c as int];
    let shared = shared_kids(list, config);
    let o = list[i];
    let e = o.kids[m];
    let head = seq![select_row(active, list)];
    let b = shared_rows(actives, active, shared, shared.len());
    let d = list_rows(actives, list, shared, list.len());
    if shared.contains(e) {
        let row = implies_row(active, actives[e as int]);
        let k = choose|k: int| 0 <= k < shared.len() && shared[k] == e;
        assert(row == implies_row(active, actives[shared[k] as int]));
        lemma_shared_rows(actives, active, shared, shared.len(), row);
        lemma_in_sum(head, b, row);
        lemma_in_sum(head + b, d, row);
        lemma_class_rows_in(p, actives, config, n, c, row);
    } else {
        let row = implies_row(o.variable, actives[e as int]);
        assert(!shared.contains(o.kids[m]) && row == implies_row(
            o.variable,
            actives[o.kids[m] as int],
        ));
        lemma_kid_rows(actives, o, shared, o.kids.len(), row);
        assert(kid_rows(actives, list[i], shared, list[i].kids.len()).contains(row));
        lemma_list_rows(actives, list, shared, list.len(), row);
        lemma_in_sum(head + b, d, row);
        lemma_class_rows_in(p, actives, config, n, c, row);
    }
}

/// `row` is one of the rows of class `c`: its own, or a need.
pub open spec fn is_class_row(
    p: Problem,
    actives: Seq<Col>,
    config: Config,
    c: ClassId,
    row: RowModel,
) -> bool {
    let list = p.classes[c];
    let active = actives[c as int];
    let shared = shared_kids(list, config);
    ||| row == select_row(active, list)
    ||| exists|m: int|
        0 <= m < shared.len() && row == implies_row(active, actives[#[trigger] shared[m] as int])
    ||| exists|i: int| 0 <= i < list.len() && is_need_row(actives, shared, #[trigger] list[i], row)
}

pub open spec fn is_need_row(
    actives: Seq<Col>,
    shared: Seq<ClassId>,
    o: Choice,
    row: RowModel,
) -> bool {
    exists|m: int|
        0 <= m < o.kids.len() && !shared.contains(o.kids[m]) && row == implies_row(
            o.variable,
            actives[#[trigger] o.kids[m] as int],
        )
}

proof fn lemma_class_row_kinds(
    p: Problem,
    actives: Seq<Col>,
    config: Config,
    c: ClassId,
    row: RowModel,
)
    requires
        class_rows(actives, actives[c as int], p.classes[c], config).contains(row),
    ensures
        needs_rows(p.classes[c]),
        is_class_row(p, actives, config, c, row),
{
    let list = p.classes[c];
    let active = actives[c as int];
    let shared = shared_kids(list, config);
    let head = seq![select_row(active, list)];
    let b = shared_rows(actives, active, shared, shared.len());
    let d = list_rows(actives, list, shared, list.len());
    assert(needs_rows(list));
    lemma_in_sum(head, b, row);
    lemma_in_sum(head + b, d, row);
    if b.contains(row) {
        lemma_shared_rows(actives, active, shared, shared.len(), row);
    } else if d.contains(row) {
        lemma_list_rows(actives, list, shared, list.len(), row);
        let i = choose|i: int|
            0 <= i < list.len() && kid_rows(
                actives,
                #[trigger] list[i],
                shared,
                list[i].kids.len(),
            ).contains(row);
        lemma_kid_rows(actives, list[i], shared, list[i].kids.len(), row);
        assert(is_need_row(actives, shared, list[i], row));
    } else {
        assert(head[0] == row);
    }
}

// ---------------------------------------------------------------------------
// Rows at points
// ---------------------------------------------------------------------------

/// The sum of the columns of the first `k` choices.
pub open spec fn choices_sum(list: Seq<Choice>, x: Seq<int>, k: nat) -> int
    decreases k,
{
    if k == 0 {
        0
    } else {
        choices_sum(list, x, (k - 1) as nat) + x[list[k - 1].variable as int]
    }
}

proof fn lemma_select_sum(active: Col, list: Seq<Choice>, x: Seq<int>, k: nat)
    requires
        k <= list.len(),
    ensures
        select_coeffs(active, list, k).len() == k + 1,
        select_coeffs(active, list, k)[0].0 == active,
        forall|i: int|
            0 < i <= k ==> (#[trigger] select_coeffs(active, list, k)[i]).0 == list[i
                - 1].variable,
        coeff_sum(select_coeffs(active, list, k), x, k + 1) == ONE * (choices_sum(list, x, k)
            - x[active as int]),
    decreases k,
{
    let coeffs = select_coeffs(active, list, k);
    let a = x[active as int];
    if k == 0 {
        assert(coeff_sum(coeffs, x, 1) == coeff_sum(coeffs, x, 0) + coeffs[0].1 * x[coeffs[0].0 as int]);
        assert(MINUS_ONE * a == ONE * (0 - a)) by (nonlinear_arith);
    } else {
        lemma_select_sum(active, list, x, (k - 1) as nat);
        let before = select_coeffs(active, list, (k - 1) as nat);
        lemma_coeff_prefix(before, coeffs[k as int], x, k);
        let s = choices_sum(list, x, (k - 1) as nat);
        let v = x[list[k - 1].variable as int];
        assert(ONE * (s - a) + ONE * v == ONE * ((s + v) - a)) by (nonlinear_arith);
        assert forall|i: int| 0 < i <= k implies (#[trigger] coeffs[i]).0 == list[i
            - 1].variable by {
            if i < k {
                assert(before[i].0 == list[i - 1].variable);
            }
        }
    }
}

proof fn lemma_coeff_prefix(coeffs: Seq<(Col, Cost)>, last: (Col, Cost), x: Seq<int>, k: nat)
    requires
        k <= coeffs.len(),
    ensures
        coeff_sum(coeffs.push(last), x, k) == coeff_sum(coeffs, x, k),
    decreases k,
{
    if k > 0 {
        lemma_coeff_prefix(coeffs, last, x, (k - 1) as nat);
    }
}

/// A class's own row holds where its column is the sum of its choices'.
pub proof fn lemma_select_holds(
    p: Problem,
    actives: Seq<Col>,
    c: ClassId,
    x: Seq<int>,
    den: int,
)
    requires
        columns_apart(p, actives, x.len()),
        x.len() <= usize::MAX,
        p.classes.contains_key(c),
    ensures
        row_holds(select_row(actives[c as int], p.classes[c]), x, den) <==> choices_sum(
            p.classes[c],
            x,
            p.classes[c].len(),
        ) == x[actives[c as int] as int],
{
    let list = p.classes[c];
    let active = actives[c as int];
    let coeffs = select_coeffs(active, list, list.len());
    lemma_select_sum(active, list, x, list.len());
    assert(distinct_cols(coeffs, x.len())) by {
        assert forall|i: int| 0 <= i < coeffs.len() implies (#[trigger] coeffs[i]).0 < x.len() by {
            if i > 0 {
                assert(coeffs[i].0 == list[i - 1].variable);
                assert(p.classes[c][i - 1].variable < x.len());
            }
        }
        assert forall|i: int, j: int| 0 <= i < j < coeffs.len() implies (#[trigger] coeffs[i]).0
            != (#[trigger] coeffs[j]).0 by {
            assert(coeffs[j].0 == list[j - 1].variable);
            assert(p.classes[c][j - 1].variable == coeffs[j].0);
            if i > 0 {
                assert(coeffs[i].0 == list[i - 1].variable);
                assert(p.classes[c][i - 1].variable == coeffs[i].0);
            }
        }
    }
    lemma_row_of(0, 0, coeffs, x, den);
    let s = choices_sum(list, x, list.len()) - x[active as int];
    assert(0 * den == 0) by (nonlinear_arith);
    assert((0 <= ONE * s && ONE * s <= 0) <==> s == 0) by (nonlinear_arith);
}

/// `x <= y` holds where it does, of different columns.
pub proof fn lemma_implies_holds(a: Col, b: Col, x: Seq<int>, den: int)
    requires
        a < x.len() <= usize::MAX,
        b < x.len(),
        a != b,
    ensures
        row_holds(implies_row(a, b), x, den) <==> x[a as int] <= x[b as int],
{
    let coeffs: Seq<(Col, Cost)> = seq![(a, ONE), (b, MINUS_ONE)];
    assert(distinct_cols(coeffs, x.len())) by {
        assert(coeffs[0].0 == a && coeffs[1].0 == b);
    }
    lemma_row_of(NEG_INFINITY, 0, coeffs, x, den);
    let va = x[a as int];
    let vb = x[b as int];
    assert(coeff_sum(coeffs, x, 2) == coeff_sum(coeffs, x, 1) + coeffs[1].1 * x[coeffs[1].0 as int]);
    assert(coeff_sum(coeffs, x, 1) == coeff_sum(coeffs, x, 0) + coeffs[0].1 * x[coeffs[0].0 as int]);
    assert(0 * den == 0) by (nonlinear_arith);
    assert((ONE * va + MINUS_ONE * vb <= 0) <==> va <= vb) by (nonlinear_arith);
}

/// `x <= x` set one coefficient after the other is `-x <= 0`.
proof fn lemma_self_implies_holds(a: Col, x: Seq<int>, den: int)
    requires
        a < x.len() <= usize::MAX,
        x[a as int] >= 0,
    ensures
        row_holds(implies_row(a, a), x, den),
{
    let coeffs: Seq<(Col, Cost)> = seq![(a, ONE), (a, MINUS_ONE)];
    let single: Seq<(Col, Cost)> = seq![(a, MINUS_ONE)];
    assert(weights_from(coeffs, 0) =~= Map::<Col, Cost>::empty());
    assert(weights_from(coeffs, 1) == reweighted(weights_from(coeffs, 0), coeffs[0].0, coeffs[0].1));
    assert(weights_from(coeffs, 2) == reweighted(weights_from(coeffs, 1), coeffs[1].0, coeffs[1].1));
    assert(weights_from(single, 0) =~= Map::<Col, Cost>::empty());
    assert(weights_from(single, 1) == reweighted(weights_from(single, 0), single[0].0, single[0].1));
    assert(weights_from(coeffs, 2) =~= weights_from(single, 1));
    assert(implies_row(a, a) == row_of(NEG_INFINITY, 0, single));
    assert(distinct_cols(single, x.len())) by {
        assert(single[0].0 == a);
    }
    lemma_row_of(NEG_INFINITY, 0, single, x, den);
    assert(coeff_sum(single, x, 1) == coeff_sum(single, x, 0) + single[0].1 * x[single[0].0 as int]);
    let va = x[a as int];
    assert(MINUS_ONE * va <= 0) by (nonlinear_arith)
        requires
            va >= 0,
    ;
    assert(0 * den == 0) by (nonlinear_arith);
}

/// A binary column of a feasible point is zero or one.
pub proof fn lemma_bit(lp: Lp, x: Seq<int>, den: int, j: int)
    requires
        feasible(lp, x, den),
        0 <= j < lp.cols.len(),
        lp.cols[j].integral,
        0 <= lp.cols[j].lower,
        lp.cols[j].upper <= ONE,
    ensures
        x[j] == 0 || x[j] == den,
        lp.cols[j].upper == 0 ==> x[j] == 0,
        lp.cols[j].lower == ONE ==> x[j] == den,
{
    let col = lp.cols[j];
    let v = x[j];
    assert(within(col.lower, col.upper, v * ONE, den));
    let lo = col.lower as int;
    let up = col.upper as int;
    assert(0 <= v <= den) by (nonlinear_arith)
        requires
            lo * den <= v * 1_000_000,
            v * 1_000_000 <= up * den,
            0 <= lo,
            up <= 1_000_000,
            den > 0,
    ;
    if v < den {
        vstd::arithmetic::div_mod::lemma_small_mod(v as nat, den as nat);
    }
    if up == 0 {
        assert(v <= 0) by (nonlinear_arith)
            requires
                v * 1_000_000 <= up * den,
                up == 0,
        ;
    }
    if lo == 1_000_000 {
        assert(v >= den) by (nonlinear_arith)
            requires
                lo * den <= v * 1_000_000,
                lo == 1_000_000,
        ;
    }
}

/// The columns of a problem at a feasible point.
pub proof fn lemma_bits(
    lp: Lp,
    p: Problem,
    actives: Seq<Col>,
    config: Config,
    n: nat,
    x: Seq<int>,
    den: int,
)
    requires
        encodes(lp, p, actives, config, n),
        feasible(lp, x, den),
    ensures
        forall|c: ClassId| #[trigger]
            p.classes.contains_key(c) ==> {
                let v = x[actives[c as int] as int];
                &&& v == 0 || v == den
                &&& is_closed(p, c) ==> v == 0
                &&& p.roots.contains(c) ==> v == den
            },
        forall|c: ClassId, i: int|
            p.classes.contains_key(c) && 0 <= i < p.classes[c].len() ==> {
                let v = x[(#[trigger] p.classes[c][i]).variable as int];
                v == 0 || v == den
            },
{
    assert forall|c: ClassId| #[trigger] p.classes.contains_key(c) implies {
        let v = x[actives[c as int] as int];
        &&& v == 0 || v == den
        &&& is_closed(p, c) ==> v == 0
        &&& p.roots.contains(c) ==> v == den
    } by {
        lemma_bit(lp, x, den, actives[c as int] as int);
    }
    assert forall|c: ClassId, i: int|
        p.classes.contains_key(c) && 0 <= i < p.classes[c].len() implies {
        let v = x[(#[trigger] p.classes[c][i]).variable as int];
        v == 0 || v == den
    } by {
        lemma_bit(lp, x, den, p.classes[c][i].variable as int);
    }
}

/// A row of the problem holds at a feasible point.
proof fn lemma_row_at(
    lp: Lp,
    p: Problem,
    actives: Seq<Col>,
    config: Config,
    n: nat,
    x: Seq<int>,
    den: int,
    row: RowModel,
)
    requires
        encodes(lp, p, actives, config, n),
        feasible(lp, x, den),
        rows_to(p, actives, config, n).contains(row),
    ensures
        row_holds(row, x, den),
{
    assert(lp.rows.contains(row));
    let i = choose|i: int| 0 <= i < lp.rows.len() && lp.rows[i] == row;
    assert(row_holds(lp.rows[i], x, den));
}

/// If columns that are zero or `den` sum to `den`, exactly one is on.
proof fn lemma_one_on(list: Seq<Choice>, x: Seq<int>, den: int, k: nat)
    requires
        den > 0,
        k <= list.len(),
        forall|i: int|
            0 <= i < list.len() ==> x[(#[trigger] list[i]).variable as int] == 0
                || x[list[i].variable as int] == den,
    ensures
        choices_sum(list, x, k) >= 0,
        choices_sum(list, x, k) == 0 <==> (forall|i: int|
            0 <= i < k ==> x[(#[trigger] list[i]).variable as int] == 0),
        choices_sum(list, x, k) == den <==> exists|i: int| one_on(list, x, den, k, i),
        choices_sum(list, x, k) < den ==> choices_sum(list, x, k) == 0,
    decreases k,
{
    if k > 0 {
        let prior = (k - 1) as nat;
        lemma_one_on(list, x, den, prior);
        let s = choices_sum(list, x, (k - 1) as nat);
        let v = x[list[k - 1].variable as int];
        assert(v == 0 || v == den);
        if choices_sum(list, x, k) == den {
            if v == den {
                assert(s == 0);
                assert(one_on(list, x, den, k, k - 1));
            } else {
                let i = choose|i: int| one_on(list, x, den, prior, i);
                assert(one_on(list, x, den, k, i));
            }
        }
        if exists|i: int| one_on(list, x, den, k, i) {
            let i = choose|i: int| one_on(list, x, den, k, i);
            if i == k - 1 {
                assert forall|m: int| 0 <= m < k - 1 implies x[(
                #[trigger] list[m]).variable as int] == 0 by {}
            } else {
                assert(x[list[k - 1].variable as int] == 0);
                assert(one_on(list, x, den, prior, i));
            }
        }
    }
}

/// Of the first `k` choices exactly the `i`th is on.
pub open spec fn one_on(list: Seq<Choice>, x: Seq<int>, den: int, k: nat, i: int) -> bool {
    &&& 0 <= i < k
    &&& x[list[i].variable as int] == den
    &&& forall|m: int| 0 <= m < k && m != i ==> x[(#[trigger] list[m]).variable as int] == 0
}

/// What a point chooses.
pub open spec fn reading(p: Problem, actives: Seq<Col>, x: Seq<int>, den: int) -> Map<
    ClassId,
    NodeId,
> {
    Map::new(
        |c: ClassId| p.classes.contains_key(c) && x[actives[c as int] as int] > 0,
        |c: ClassId|
            if p.classes[c].len() == 1 {
                p.classes[c][0].node
            } else {
                p.classes[c][choose|i: int| one_on(p.classes[c], x, den, p.classes[c].len(), i)].node
            },
    )
}

/// A feasible point reads as choices for the roots and all they need.
pub proof fn point_reads_closed(
    lp: Lp,
    p: Problem,
    actives: Seq<Col>,
    config: Config,
    n: nat,
    x: Seq<int>,
    den: int,
    sel: Map<ClassId, NodeId>,
)
    requires
        sound(p, n),
        n <= usize::MAX,
        encodes(lp, p, actives, config, n),
        feasible(lp, x, den),
        reads(p, actives, lit(x), sel),
    ensures
        is_closed_under(p, sel),
        forall|c: ClassId| #[trigger]
            sel.contains_key(c) && needs_rows(p.classes[c]) ==> x[choice_of(
                p,
                c,
                sel[c],
            ).variable as int] == den && x[actives[c as int] as int] == den,
{
    lemma_bits(lp, p, actives, config, n, x, den);
    assert forall|c: ClassId| #[trigger]
        sel.contains_key(c) && needs_rows(p.classes[c]) implies x[choice_of(
        p,
        c,
        sel[c],
    ).variable as int] == den && x[actives[c as int] as int] == den by {
        let list = p.classes[c];
        assert(p.classes.contains_key(c));
        lemma_select_in(p, actives, config, n, c);
        lemma_row_at(
            lp,
            p,
            actives,
            config,
            n,
            x,
            den,
            select_row(actives[c as int], list),
        );
        lemma_select_holds(p, actives, c, x, den);
        assert forall|i: int| 0 <= i < list.len() implies x[(#[trigger] list[i]).variable as int]
            == 0 || x[list[i].variable as int] == den by {
            assert(p.classes[c][i] == list[i]);
        }
        assert(lit(x)(actives[c as int]));
        lemma_one_on(list, x, den, list.len());
        let i = choose|i: int| one_on(list, x, den, list.len(), i);
        lemma_offered(list, sel[c]);
        let j = place(list, sel[c]);
        if list.len() == 1 {
            assert(i == 0 && j == 0);
        } else {
            assert(lit(x)(list[j].variable));
            if j != i {
                assert(x[list[j].variable as int] == 0);
            }
        }
    }
    assert forall|r: ClassId| #[trigger] p.roots.contains(r) implies sel.contains_key(r) by {
        assert(p.classes.contains_key(r));
        assert(lit(x)(actives[r as int]));
    }
    assert forall|c: ClassId, d: ClassId|
        sel.contains_key(c) && #[trigger] choice_of(p, c, sel[c]).kids.contains(
            d,
        ) implies sel.contains_key(d) by {
        let list = p.classes[c];
        assert(p.classes.contains_key(c));
        lemma_offered(list, sel[c]);
        let i = place(list, sel[c]);
        let o = list[i];
        assert(needs_rows(list)) by {
            assert(o.kids.len() > 0);
        }
        let m = choose|m: int| 0 <= m < o.kids.len() && o.kids[m] == d;
        assert(sound_class(p, list));
        assert(list[i].kids.contains(d));
        assert(p.classes.contains_key(d));
        lemma_need_in(p, actives, config, n, c, i, m);
        let below = actives[d as int];
        assert(p.classes[c][i].variable < x.len());
        if shared_kids(list, config).contains(d) {
            if c != d {
                lemma_row_at(
                    lp,
                    p,
                    actives,
                    config,
                    n,
                    x,
                    den,
                    implies_row(actives[c as int], below),
                );
                lemma_implies_holds(actives[c as int], below, x, den);
            }
        } else {
            lemma_row_at(lp, p, actives, config, n, x, den, implies_row(o.variable, below));
            assert(actives[d as int] != p.classes[c][i].variable);
            lemma_implies_holds(o.variable, below, x, den);
        }
        assert(lit(x)(below));
    }
}

/// Every feasible point has a reading.
pub proof fn point_has_reading(
    lp: Lp,
    p: Problem,
    actives: Seq<Col>,
    config: Config,
    n: nat,
    x: Seq<int>,
    den: int,
)
    requires
        sound(p, n),
        n <= usize::MAX,
        encodes(lp, p, actives, config, n),
        feasible(lp, x, den),
    ensures
        reads(p, actives, lit(x), reading(p, actives, x, den)),
{
    let sel = reading(p, actives, x, den);
    lemma_bits(lp, p, actives, config, n, x, den);
    assert forall|c: ClassId| #[trigger] sel.contains_key(c) implies offers(p.classes[c], sel[c])
        && (p.classes[c].len() == 1 || only_on(p.classes[c], lit(x), sel[c])) by {
        let list = p.classes[c];
        assert(p.classes.contains_key(c));
        assert(!is_closed(p, c));
        assert(sound_class(p, list));
        if list.len() == 1 {
            assert(list[0].node == sel[c]);
        } else {
            lemma_select_in(p, actives, config, n, c);
            lemma_row_at(
                lp,
                p,
                actives,
                config,
                n,
                x,
                den,
                select_row(actives[c as int], list),
            );
            lemma_select_holds(p, actives, c, x, den);
            assert forall|i: int|
                0 <= i < list.len() implies x[(#[trigger] list[i]).variable as int] == 0
                || x[list[i].variable as int] == den by {
                assert(p.classes[c][i] == list[i]);
            }
            lemma_one_on(list, x, den, list.len());
            let i = choose|i: int| one_on(list, x, den, list.len(), i);
            assert(list[i].node == sel[c]);
            assert forall|m: int| 0 <= m < list.len() implies lit(x)(
                (#[trigger] list[m]).variable,
            ) == (list[m].node == sel[c]) by {
                if m < i {
                    assert(list[m].node != list[i].node);
                } else if i < m {
                    assert(list[i].node != list[m].node);
                }
            }
        }
    }
}

// ---------------------------------------------------------------------------
// Objective
// ---------------------------------------------------------------------------

/// The columns of what `sel` chooses for the first `k` classes.
pub open spec fn chosen_columns(
    p: Problem,
    actives: Seq<Col>,
    sel: Map<ClassId, NodeId>,
    k: nat,
) -> Set<int> {
    Set::new(
        |j: int|
            exists|c: ClassId|
                c < k && #[trigger] sel.contains_key(c) && (actives[c as int] == j || choice_of(
                    p,
                    c,
                    sel[c],
                ).variable == j),
    )
}

/// The columns of the choices add up to what they cost, where they are `den`.
proof fn lemma_chosen_total(
    lp: Lp,
    p: Problem,
    actives: Seq<Col>,
    config: Config,
    n: nat,
    x: Seq<int>,
    den: int,
    sel: Map<ClassId, NodeId>,
    k: nat,
)
    requires
        sound(p, n),
        n <= usize::MAX,
        k <= n,
        encodes(lp, p, actives, config, n),
        x.len() == lp.cols.len(),
        forall|c: ClassId| #[trigger]
            sel.contains_key(c) ==> p.classes.contains_key(c) && offers(p.classes[c], sel[c]),
        forall|c: ClassId| #[trigger]
            sel.contains_key(c) ==> (x[actives[c as int] as int] == den && x[choice_of(
                p,
                c,
                sel[c],
            ).variable as int] == den) || (p.classes[c].len() == 1 && p.classes[c][0].cost == 0),
    ensures
        part_of(
            objective_term(lp, x),
            chosen_columns(p, actives, sel, k),
            lp.cols.len(),
        ) == price(p, sel, k) * ONE * den,
    decreases k,
{
    let w = objective_term(lp, x);
    let width = lp.cols.len();
    if k == 0 {
        assert(chosen_columns(p, actives, sel, 0) =~= Set::empty());
        lemma_part_empty(w, width);
        lemma_zero_product(den, 0);
        assert(0 * den == 0) by (nonlinear_arith);
    } else {
        lemma_chosen_total(lp, p, actives, config, n, x, den, sel, (k - 1) as nat);
        let before = chosen_columns(p, actives, sel, (k - 1) as nat);
        let after = chosen_columns(p, actives, sel, k);
        let c = (k - 1) as ClassId;
        let old_price = price(p, sel, (k - 1) as nat);
        if sel.contains_key(c) {
            let list = p.classes[c];
            assert(p.classes.contains_key(c));
            lemma_offered(list, sel[c]);
            let i = place(list, sel[c]);
            let o = list[i];
            let a = actives[c as int] as int;
            let v = o.variable as int;
            assert(o == p.classes[c][i]);
            assert(a != v);
            assert(0 <= a < width && 0 <= v < width);
            assert forall|j: int| before.contains(j) implies j != a && j != v by {
                let d = choose|d: ClassId|
                    d < k - 1 && #[trigger] sel.contains_key(d) && (actives[d as int] == j
                        || choice_of(p, d, sel[d]).variable == j);
                assert(p.classes.contains_key(d));
                lemma_offered(p.classes[d], sel[d]);
                let m = place(p.classes[d], sel[d]);
                assert(p.classes[d][m] == choice_of(p, d, sel[d]));
            }
            assert(after =~= before.insert(a).insert(v)) by {
                assert forall|j: int| after.contains(j) <==> before.insert(a).insert(v).contains(
                    j,
                ) by {
                    if after.contains(j) {
                        let d = choose|d: ClassId|
                            d < k && #[trigger] sel.contains_key(d) && (actives[d as int] == j
                                || choice_of(p, d, sel[d]).variable == j);
                        if d < k - 1 {
                            assert(before.contains(j));
                        }
                    }
                    if before.contains(j) {
                        let d = choose|d: ClassId|
                            d < k - 1 && #[trigger] sel.contains_key(d) && (actives[d as int] == j
                                || choice_of(p, d, sel[d]).variable == j);
                        assert(sel.contains_key(d));
                    }
                    if j == a || j == v {
                        assert(sel.contains_key(c));
                    }
                }
            }
            lemma_part_insert(w, before, a, width);
            lemma_part_insert(w, before.insert(a), v, width);
            let base = base_cost(list, config) as int;
            lemma_base_cost(p, n, c, i, config);
            assert(sound_class(p, list));
            assert(crate::cost::is_weight(list[i].cost));
            let cost = o.cost as int;
            assert(lp.cols[a].cost == base * 1_000_000);
            assert(lp.cols[v].cost == (cost - base) * 1_000_000);
            let xa = x[a];
            let xv = x[v];
            assert(w(a) == base * 1_000_000 * xa);
            assert(w(v) == (cost - base) * 1_000_000 * xv);
            assert(w(a) + w(v) == cost * 1_000_000 * den) by {
                if xa == den && xv == den {
                    assert(base * 1_000_000 * den + (cost - base) * 1_000_000 * den == cost
                        * 1_000_000 * den) by (nonlinear_arith);
                } else {
                    assert(cost == 0 && base == 0);
                    assert(0 * xa == 0 && 0 * xv == 0 && 0 * den == 0) by (nonlinear_arith);
                }
            }
            assert(old_price * 1_000_000 * den + cost * 1_000_000 * den == (old_price + cost)
                * 1_000_000 * den) by (nonlinear_arith);
        } else {
            assert(after =~= before) by {
                assert forall|j: int| after.contains(j) <==> before.contains(j) by {
                    if after.contains(j) {
                        let d = choose|d: ClassId|
                            d < k && #[trigger] sel.contains_key(d) && (actives[d as int] == j
                                || choice_of(p, d, sel[d]).variable == j);
                        assert(d < k - 1);
                    }
                    if before.contains(j) {
                        let d = choose|d: ClassId|
                            d < k - 1 && #[trigger] sel.contains_key(d) && (actives[d as int] == j
                                || choice_of(p, d, sel[d]).variable == j);
                        assert(sel.contains_key(d));
                    }
                }
            }
        }
    }
}

/// No column costs anything negative.
proof fn lemma_costs_not_negative(
    lp: Lp,
    p: Problem,
    actives: Seq<Col>,
    config: Config,
    n: nat,
    j: int,
)
    requires
        sound(p, n),
        encodes(lp, p, actives, config, n),
        0 <= j < lp.cols.len(),
    ensures
        lp.cols[j].cost >= 0,
        !owned(p, actives, j) ==> lp.cols[j] == fresh_binary(),
        lp.cols[j].integral && lp.cols[j].lower >= 0 && lp.cols[j].upper <= ONE,
{
    if owned(p, actives, j) {
        if exists|c: ClassId| #[trigger] p.classes.contains_key(c) && actives[c as int] == j {
            let c = choose|c: ClassId| #[trigger] p.classes.contains_key(c) && actives[c as int] == j;
            if p.classes[c].len() > 0 {
                lemma_base_cost(p, n, c, 0, config);
            }
        } else {
            let (c, i) = choose|c: ClassId, i: int|
                p.classes.contains_key(c) && 0 <= i < p.classes[c].len() && (
                #[trigger] p.classes[c][i]).variable == j;
            lemma_base_cost(p, n, c, i, config);
            assert(sound_class(p, p.classes[c]));
            assert(crate::cost::is_weight(p.classes[c][i].cost));
        }
    }
}

/// The objective at a feasible point is no less than what it reads as costs.
pub proof fn objective_covers_price(
    lp: Lp,
    p: Problem,
    actives: Seq<Col>,
    config: Config,
    n: nat,
    x: Seq<int>,
    den: int,
    sel: Map<ClassId, NodeId>,
)
    requires
        sound(p, n),
        n <= usize::MAX,
        encodes(lp, p, actives, config, n),
        feasible(lp, x, den),
        reads(p, actives, lit(x), sel),
    ensures
        price(p, sel, n) * ONE * den <= objective_at(lp, x),
{
    let w = objective_term(lp, x);
    point_reads_closed(lp, p, actives, config, n, x, den, sel);
    assert forall|c: ClassId| #[trigger] sel.contains_key(c) implies (x[actives[c as int] as int]
        == den && x[choice_of(p, c, sel[c]).variable as int] == den) || (p.classes[c].len() == 1
        && p.classes[c][0].cost == 0) by {
        assert(offers(p.classes[c], sel[c]));
    }
    lemma_chosen_total(lp, p, actives, config, n, x, den, sel, n);
    assert forall|j: int| 0 <= j < lp.cols.len() implies #[trigger] w(j) >= 0 by {
        lemma_costs_not_negative(lp, p, actives, config, n, j);
        lemma_bit(lp, x, den, j);
        let cost = lp.cols[j].cost as int;
        let v = x[j];
        assert(cost * v >= 0) by (nonlinear_arith)
            requires
                cost >= 0,
                v >= 0,
        ;
    }
    lemma_part_below(w, chosen_columns(p, actives, sel, n), lp.cols.len());
}

// ---------------------------------------------------------------------------
// Solutions as points
// ---------------------------------------------------------------------------

/// The point of a solution: its columns are one, all others zero.
pub open spec fn point_of(
    p: Problem,
    actives: Seq<Col>,
    sel: Map<ClassId, NodeId>,
    n: nat,
    width: nat,
) -> Seq<int> {
    Seq::new(
        width,
        |j: int|
            if chosen_columns(p, actives, sel, n).contains(j) {
                1int
            } else {
                0
            },
    )
}

/// The columns of the problem at the point of a solution.
pub proof fn lemma_point_of(
    p: Problem,
    actives: Seq<Col>,
    n: nat,
    sel: Map<ClassId, NodeId>,
    width: nat,
)
    requires
        sound(p, n),
        columns_apart(p, actives, width),
        forall|c: ClassId| #[trigger]
            sel.contains_key(c) ==> p.classes.contains_key(c) && offers(p.classes[c], sel[c]),
    ensures
        forall|c: ClassId| #[trigger]
            p.classes.contains_key(c) ==> point_of(p, actives, sel, n, width)[actives[c as int] as int]
                == (if sel.contains_key(c) {
                1int
            } else {
                0
            }),
        forall|c: ClassId, i: int|
            p.classes.contains_key(c) && 0 <= i < p.classes[c].len() ==> point_of(
                p,
                actives,
                sel,
                n,
                width,
            )[(#[trigger] p.classes[c][i]).variable as int] == (if sel.contains_key(c) && sel[c]
                == p.classes[c][i].node {
                1int
            } else {
                0
            }),
{
    let x = point_of(p, actives, sel, n, width);
    let set = chosen_columns(p, actives, sel, n);
    assert forall|c: ClassId| #[trigger] p.classes.contains_key(c) implies x[actives[c as int] as int]
        == (if sel.contains_key(c) {
        1int
    } else {
        0
    }) by {
        let j = actives[c as int] as int;
        if sel.contains_key(c) {
            assert(set.contains(j));
        } else if set.contains(j) {
            let d = choose|d: ClassId|
                d < n && #[trigger] sel.contains_key(d) && (actives[d as int] == j || choice_of(
                    p,
                    d,
                    sel[d],
                ).variable == j);
            assert(p.classes.contains_key(d));
            lemma_offered(p.classes[d], sel[d]);
            assert(p.classes[d][place(p.classes[d], sel[d])] == choice_of(p, d, sel[d]));
        }
    }
    assert forall|c: ClassId, i: int|
        p.classes.contains_key(c) && 0 <= i < p.classes[c].len() implies x[(
    #[trigger] p.classes[c][i]).variable as int] == (if sel.contains_key(c) && sel[c]
        == p.classes[c][i].node {
        1int
    } else {
        0
    }) by {
        let j = p.classes[c][i].variable as int;
        assert(sound_class(p, p.classes[c]));
        if sel.contains_key(c) && sel[c] == p.classes[c][i].node {
            lemma_place(p.classes[c], i);
            assert(choice_of(p, c, sel[c]).variable == j);
            assert(set.contains(j));
        } else if set.contains(j) {
            let d = choose|d: ClassId|
                d < n && #[trigger] sel.contains_key(d) && (actives[d as int] == j || choice_of(
                    p,
                    d,
                    sel[d],
                ).variable == j);
            assert(p.classes.contains_key(d));
            lemma_offered(p.classes[d], sel[d]);
            assert(p.classes[d][place(p.classes[d], sel[d])] == choice_of(p, d, sel[d]));
        }
    }
}

proof fn lemma_sum_of_choice(
    p: Problem,
    c: ClassId,
    x: Seq<int>,
    i: int,
    k: nat,
)
    requires
        p.classes.contains_key(c),
        k <= p.classes[c].len(),
        forall|m: int|
            0 <= m < p.classes[c].len() ==> x[(#[trigger] p.classes[c][m]).variable as int] == (
            if m == i {
                1int
            } else {
                0
            }),
    ensures
        choices_sum(p.classes[c], x, k) == (if 0 <= i < k {
            1int
        } else {
            0
        }),
    decreases k,
{
    if k > 0 {
        lemma_sum_of_choice(p, c, x, i, (k - 1) as nat);
        assert(x[p.classes[c][k - 1].variable as int] == (if k - 1 == i {
            1int
        } else {
            0
        }));
    }
}

/// Every row of the problem holds where the columns of the problem are those
/// of a closed choice.
pub proof fn lemma_rows_hold(
    p: Problem,
    actives: Seq<Col>,
    config: Config,
    n: nat,
    sel: Map<ClassId, NodeId>,
    x: Seq<int>,
    row: RowModel,
)
    requires
        sound(p, n),
        n <= usize::MAX,
        x.len() <= usize::MAX,
        columns_apart(p, actives, x.len()),
        forall|c: ClassId| #[trigger]
            sel.contains_key(c) ==> p.classes.contains_key(c) && offers(p.classes[c], sel[c]),
        is_closed_under(p, sel),
        forall|c: ClassId| #[trigger]
            p.classes.contains_key(c) ==> x[actives[c as int] as int] == (if sel.contains_key(c) {
                1int
            } else {
                0
            }),
        forall|c: ClassId, i: int|
            p.classes.contains_key(c) && 0 <= i < p.classes[c].len() ==> x[(
            #[trigger] p.classes[c][i]).variable as int] == (if sel.contains_key(c) && sel[c]
                == p.classes[c][i].node {
                1int
            } else {
                0
            }),
        rows_to(p, actives, config, n).contains(row),
    ensures
        row_holds(row, x, 1),
{
    let c = lemma_row_of_class(p, actives, config, n, row);
    lemma_class_row_kinds(p, actives, config, c, row);
    let list = p.classes[c];
    let active = actives[c as int];
    let shared = shared_kids(list, config);
    assert(sound_class(p, list));
    if row == select_row(active, list) {
        let i = if sel.contains_key(c) {
            place(list, sel[c])
        } else {
            -1
        };
        if sel.contains_key(c) {
            lemma_offered(list, sel[c]);
        }
        assert forall|m: int| 0 <= m < list.len() implies x[(
        #[trigger] p.classes[c][m]).variable as int] == (if m == i {
            1int
        } else {
            0
        }) by {
            if sel.contains_key(c) {
                if m < i {
                    assert(list[m].node != list[i].node);
                } else if i < m {
                    assert(list[i].node != list[m].node);
                }
            }
        }
        lemma_sum_of_choice(p, c, x, i, list.len());
        lemma_select_holds(p, actives, c, x, 1);
    } else if exists|m: int|
        0 <= m < shared.len() && row == implies_row(active, actives[#[trigger] shared[m] as int]) {
        let m = choose|m: int|
            0 <= m < shared.len() && row == implies_row(
                active,
                actives[#[trigger] shared[m] as int],
            );
        let d = shared[m];
        lemma_common_kids(list);
        assert(shared.contains(d));
        assert(list[0].kids.contains(d));
        assert(p.classes.contains_key(d));
        if d == c {
            lemma_self_implies_holds(active, x, 1);
        } else {
            if sel.contains_key(c) {
                lemma_offered(list, sel[c]);
                assert(list[place(list, sel[c])].kids.contains(d));
                assert(choice_of(p, c, sel[c]).kids.contains(d));
            }
            lemma_implies_holds(active, actives[d as int], x, 1);
        }
    } else {
        let i = choose|i: int|
            0 <= i < list.len() && is_need_row(actives, shared, #[trigger] list[i], row);
        let o = list[i];
        let m = choose|m: int|
            0 <= m < o.kids.len() && !shared.contains(o.kids[m]) && row == implies_row(
                o.variable,
                actives[#[trigger] o.kids[m] as int],
            );
        let d = o.kids[m];
        assert(list[i].kids.contains(d));
        assert(p.classes.contains_key(d));
        assert(p.classes[c][i].variable < x.len());
        assert(actives[d as int] != p.classes[c][i].variable);
        if sel.contains_key(c) && sel[c] == o.node {
            lemma_place(list, i);
            assert(choice_of(p, c, sel[c]).kids.contains(d));
        }
        lemma_implies_holds(o.variable, actives[d as int], x, 1);
    }
}

/// The objective at the point of a solution is what it costs.
pub proof fn lemma_solution_objective(
    lp: Lp,
    p: Problem,
    actives: Seq<Col>,
    config: Config,
    n: nat,
    sel: Map<ClassId, NodeId>,
)
    requires
        sound(p, n),
        n <= usize::MAX,
        encodes(lp, p, actives, config, n),
        forall|c: ClassId| #[trigger]
            sel.contains_key(c) ==> p.classes.contains_key(c) && offers(p.classes[c], sel[c]),
    ensures
        objective_at(lp, point_of(p, actives, sel, n, lp.cols.len())) == price(p, sel, n) * ONE,
{
    let width = lp.cols.len();
    let x = point_of(p, actives, sel, n, width);
    let w = objective_term(lp, x);
    let set = chosen_columns(p, actives, sel, n);
    lemma_point_of(p, actives, n, sel, width);
    assert forall|c: ClassId| #[trigger] sel.contains_key(c) implies (x[actives[c as int] as int]
        == 1 && x[choice_of(p, c, sel[c]).variable as int] == 1) || (p.classes[c].len() == 1
        && p.classes[c][0].cost == 0) by {
        assert(p.classes.contains_key(c));
        lemma_offered(p.classes[c], sel[c]);
        let i = place(p.classes[c], sel[c]);
        assert(p.classes[c][i] == choice_of(p, c, sel[c]));
    }
    lemma_chosen_total(lp, p, actives, config, n, x, 1, sel, n);
    assert forall|j: int| 0 <= j < width && !set.contains(j) implies #[trigger] w(j) == 0 by {
        assert(x[j] == 0);
        lemma_zero_product(lp.cols[j].cost as int, x[j]);
    }
    lemma_part_whole(w, set, width);
}

} // verus!
