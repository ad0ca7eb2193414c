//! The model of a problem: one column for each class and each choice, and rows
//! that tie them together. Cycles are not ruled out here.
use crate::collections::{id_set, id_set_get_index, id_set_len};
use crate::cost::{product, wide_product, Cost, MINUS_ONE, NEG_INFINITY, ONE};
use crate::egraph::ClassId;
use crate::extract::faster_ilp_cbc::problem::{choices_in, sound, sound_class, Choice, NodeIlp, Problem, Vars};
use crate::extract::faster_ilp_cbc::prune::{
    cheapest, has_id, least_cost, lemma_cheapest, lemma_cheapest_is,
};
use crate::extract::faster_ilp_cbc::reach::{common_kids, intersection, lemma_common_kids};
use crate::extract::faster_ilp_cbc::Config;
use crate::milp::point::{add_constraint, row_of};
use crate::milp::stage::{fresh_binary, Col, ColDef, Lp, RowModel, Staged};
use indexmap::IndexSet;
use vstd::prelude::*;

verus! {

/// A class without a choice needs no rows, and neither does one that can be
/// had for nothing.
pub open spec fn needs_rows(list: Seq<Choice>) -> bool {
    &&& list.len() > 0
    &&& !(list.len() == 1 && list[0].kids.len() == 0 && list[0].cost == 0)
}

/// The column of the class with `-1`, those of its first `k` choices with `1`.
pub open spec fn select_coeffs(active: Col, list: Seq<Choice>, k: nat) -> Seq<(Col, Cost)>
    decreases k,
{
    if k == 0 {
        seq![(active, MINUS_ONE)]
    } else {
        select_coeffs(active, list, (k - 1) as nat).push((list[k - 1].variable, ONE))
    }
}

/// A class is used if and only if exactly one of its choices is made.
pub open spec fn select_row(active: Col, list: Seq<Choice>) -> RowModel {
    row_of(0, 0, select_coeffs(active, list, list.len()))
}

/// `x <= y`.
pub open spec fn implies_row(x: Col, y: Col) -> RowModel {
    row_of(NEG_INFINITY, 0, seq![(x, ONE), (y, MINUS_ONE)])
}

/// A class that is used needs the first `k` of `shared`.
pub open spec fn shared_rows(actives: Seq<Col>, active: Col, shared: Seq<ClassId>, k: nat) -> Seq<
    RowModel,
>
    decreases k,
{
    if k == 0 {
        Seq::empty()
    } else {
        shared_rows(actives, active, shared, (k - 1) as nat).push(
            implies_row(active, actives[shared[k - 1] as int]),
        )
    }
}

/// A choice that is made needs the first `k` of what it needs, but for what is
/// shared.
pub open spec fn kid_rows(actives: Seq<Col>, o: Choice, shared: Seq<ClassId>, k: nat) -> Seq<
    RowModel,
>
    decreases k,
{
    if k == 0 {
        Seq::empty()
    } else if shared.contains(o.kids[k - 1]) {
        kid_rows(actives, o, shared, (k - 1) as nat)
    } else {
        kid_rows(actives, o, shared, (k - 1) as nat).push(
            implies_row(o.variable, actives[o.kids[k - 1] as int]),
        )
    }
}

/// [`kid_rows`] of the first `i` choices.
pub open spec fn list_rows(
    actives: Seq<Col>,
    list: Seq<Choice>,
    shared: Seq<ClassId>,
    i: nat,
) -> Seq<RowModel>
    decreases i,
{
    if i == 0 {
        Seq::empty()
    } else {
        list_rows(actives, list, shared, (i - 1) as nat) + kid_rows(
            actives,
            list[i - 1],
            shared,
            list[i - 1].kids.len(),
        )
    }
}

/// What every choice for a class needs, if that is taken note of.
pub open spec fn shared_kids(list: Seq<Choice>, config: Config) -> Seq<ClassId> {
    if config.take_intersection_of_children_in_class {
        common_kids(list)
    } else {
        Seq::empty()
    }
}

/// The rows of a class.
pub open spec fn class_rows(actives: Seq<Col>, active: Col, list: Seq<Choice>, config: Config) -> Seq<
    RowModel,
> {
    let shared = shared_kids(list, config);
    if needs_rows(list) {
        seq![select_row(active, list)] + shared_rows(actives, active, shared, shared.len())
            + list_rows(actives, list, shared, list.len())
    } else {
        Seq::empty()
    }
}

/// The rows of the first `c` classes.
pub open spec fn rows_to(p: Problem, actives: Seq<Col>, config: Config, c: nat) -> Seq<RowModel>
    decreases c,
{
    if c == 0 {
        Seq::empty()
    } else {
        let before = rows_to(p, actives, config, (c - 1) as nat);
        if p.classes.contains_key((c - 1) as ClassId) {
            before + class_rows(
                actives,
                actives[c - 1],
                p.classes[(c - 1) as ClassId],
                config,
            )
        } else {
            before
        }
    }
}

/// What using a class costs, whichever choice is made.
pub open spec fn base_cost(list: Seq<Choice>, config: Config) -> Cost {
    if config.move_min_cost_of_members_to_class && list.len() > 0 {
        cheapest(list, list.len())
    } else {
        0
    }
}

/// The columns of classes and choices are different, and below `n`.
pub open spec fn columns_apart(p: Problem, actives: Seq<Col>, n: nat) -> bool {
    &&& forall|c: ClassId| #[trigger]
        p.classes.contains_key(c) ==> c < actives.len() && actives[c as int] < n
    &&& forall|c: ClassId, i: int|
        p.classes.contains_key(c) && 0 <= i < p.classes[c].len() ==> (
        #[trigger] p.classes[c][i]).variable < n
    &&& forall|c: ClassId, d: ClassId| #[trigger]
        p.classes.contains_key(c) && #[trigger] p.classes.contains_key(d) && actives[c as int]
            == actives[d as int] ==> c == d
    &&& forall|c: ClassId, i: int, d: ClassId, j: int|
        p.classes.contains_key(c) && 0 <= i < p.classes[c].len() && p.classes.contains_key(d) && 0
            <= j < p.classes[d].len() && (#[trigger] p.classes[c][i]).variable == (
        #[trigger] p.classes[d][j]).variable ==> c == d && i == j
    &&& forall|c: ClassId, d: ClassId, j: int| #[trigger]
        p.classes.contains_key(c) && p.classes.contains_key(d) && 0 <= j < p.classes[d].len()
            ==> actives[c as int] != (#[trigger] p.classes[d][j]).variable
}

/// A class has no choice.
pub open spec fn is_closed(p: Problem, c: ClassId) -> bool {
    p.classes.contains_key(c) && p.classes[c].len() == 0
}

/// `cols` are the columns of the problem: binary ones, with classes that have
/// no choice shut and roots forced, at the costs of the choices.
pub open spec fn columns_for(
    p: Problem,
    actives: Seq<Col>,
    config: Config,
    cols: Seq<ColDef>,
) -> bool {
    &&& forall|c: ClassId| #[trigger]
        p.classes.contains_key(c) ==> cols[actives[c as int] as int] == (ColDef {
            lower: if p.roots.contains(c) {
                ONE
            } else {
                0
            },
            upper: if is_closed(p, c) {
                0
            } else {
                ONE
            },
            cost: product(base_cost(p.classes[c], config), ONE),
            integral: true,
        })
    &&& forall|c: ClassId, i: int|
        p.classes.contains_key(c) && 0 <= i < p.classes[c].len() ==> cols[(
        #[trigger] p.classes[c][i]).variable as int] == (ColDef {
            lower: 0,
            upper: ONE,
            cost: product((p.classes[c][i].cost - base_cost(p.classes[c], config)) as Cost, ONE),
            integral: true,
        })
    &&& forall|j: int| 0 <= j < cols.len() && !owned(p, actives, j) ==> #[trigger] cols[j]
        == fresh_binary()
}

/// Column `j` is that of a class or a choice.
pub open spec fn owned(p: Problem, actives: Seq<Col>, j: int) -> bool {
    ||| exists|c: ClassId| #[trigger] p.classes.contains_key(c) && actives[c as int] == j
    ||| exists|c: ClassId, i: int|
        p.classes.contains_key(c) && 0 <= i < p.classes[c].len() && (
        #[trigger] p.classes[c][i]).variable == j
}

impl Vars {
    /// The columns of the classes.
    pub open spec fn actives(&self) -> Seq<Col> {
        Seq::new(self.classes@.len(), |c: int| self.classes@[c].active)
    }
}

// ---------------------------------------------------------------------------
// Rows
// ---------------------------------------------------------------------------

fn add_implication(model: &mut Staged, x: Col, y: Col)
    requires
        old(model).wf(),
        x < old(model).lp().cols.len(),
        y < old(model).lp().cols.len(),
    ensures
        final(model).wf(),
        final(model).lp() == (Lp {
            rows: old(model).lp().rows.push(implies_row(x, y)),
            ..old(model).lp()
        }),
        final(model).start() == old(model).start(),
        final(model).sent() == old(model).sent(),
{
    let coeffs: Vec<(Col, Cost)> = vec![(x, ONE), (y, MINUS_ONE)];
    assert(coeffs@ =~= seq![(x, ONE), (y, MINUS_ONE)]);
    add_constraint(model, NEG_INFINITY, 0, &coeffs);
}

fn add_select_row(model: &mut Staged, active: Col, nodes: &Vec<NodeIlp>)
    requires
        old(model).wf(),
        active < old(model).lp().cols.len(),
        forall|i: int|
            0 <= i < nodes@.len() ==> (#[trigger] choices_in(nodes@)[i]).variable < old(
                model,
            ).lp().cols.len(),
    ensures
        final(model).wf(),
        final(model).lp() == (Lp {
            rows: old(model).lp().rows.push(select_row(active, choices_in(nodes@))),
            ..old(model).lp()
        }),
        final(model).start() == old(model).start(),
        final(model).sent() == old(model).sent(),
{
    let ghost list = choices_in(nodes@);
    let ghost width = model.lp().cols.len();
    let mut coeffs: Vec<(Col, Cost)> = vec![(active, MINUS_ONE)];
    assert(coeffs@ =~= select_coeffs(active, list, 0));
    let mut i: usize = 0;
    while i < nodes.len()
        invariant
            list == choices_in(nodes@),
            i <= nodes@.len(),
            active < width,
            coeffs@ == select_coeffs(active, list, i as nat),
            forall|k: int| 0 <= k < coeffs@.len() ==> (#[trigger] coeffs@[k]).0 < width,
            forall|k: int| 0 <= k < list.len() ==> (#[trigger] list[k]).variable < width,
        decreases nodes@.len() - i,
    {
        assert(list[i as int].variable == nodes@[i as int].variable);
        coeffs.push((nodes[i].variable, ONE));
        i += 1;
    }
    add_constraint(model, 0, 0, &coeffs);
}

/// The rows of class `c`.
fn add_class_rows(vars: &Vars, c: ClassId, config: &Config, model: &mut Staged)
    requires
        vars.wf(),
        vars@.classes.contains_key(c),
        needs_rows(vars@.classes[c]),
        columns_apart(vars@, vars.actives(), old(model).lp().cols.len()),
        old(model).wf(),
    ensures
        final(model).wf(),
        final(model).lp() == (Lp {
            rows: old(model).lp().rows + class_rows(
                vars.actives(),
                vars.actives()[c as int],
                vars@.classes[c],
                *config,
            ),
            ..old(model).lp()
        }),
        final(model).start() == old(model).start(),
        final(model).sent() == old(model).sent(),
{
    let ghost p = vars@;
    let ghost actives = vars.actives();
    let ghost width = model.lp().cols.len();
    let ghost lp0 = model.lp();
    let ghost list = p.classes[c];
    let nodes: &Vec<NodeIlp> = &vars.classes[c].nodes;
    let active: Col = vars.classes[c].active;
    proof {
        assert(list == choices_in(nodes@));
        assert(active == actives[c as int]);
        assert(active < width);
        assert(sound_class(p, list));
        assert forall|i: int| 0 <= i < nodes@.len() implies (
        #[trigger] choices_in(nodes@)[i]).variable < width by {
            assert(p.classes[c][i].variable < width);
        }
    }
    add_select_row(model, active, nodes);
    let shared: Vec<ClassId> = if config.take_intersection_of_children_in_class {
        intersection(nodes)
    } else {
        Vec::new()
    };
    proof {
        lemma_common_kids(list);
        assert(shared@ =~= shared_kids(list, *config));
        assert forall|k: int| 0 <= k < shared@.len() implies p.classes.contains_key(
            #[trigger] shared@[k],
        ) by {
            assert(shared@.contains(shared@[k]));
            assert(list[0].kids.contains(shared@[k]));
        }
    }
    let ghost head = lp0.rows.push(select_row(active, list));
    let mut k: usize = 0;
    assert(head + shared_rows(actives, active, shared@, 0) =~= head);
    while k < shared.len()
        invariant
            vars.wf(),
            p == vars@,
            actives == vars.actives(),
            columns_apart(p, actives, width),
            width == lp0.cols.len(),
            active < width,
            forall|k: int| 0 <= k < shared@.len() ==> p.classes.contains_key(#[trigger] shared@[k]),
            k <= shared@.len(),
            model.wf(),
            model.start() == old(model).start(),
            model.sent() == old(model).sent(),
            model.lp() == (Lp {
                rows: head + shared_rows(actives, active, shared@, k as nat),
                ..lp0
            }),
        decreases shared@.len() - k,
    {
        let d: ClassId = shared[k];
        assert(p.classes.contains_key(shared@[k as int]));
        let below: Col = vars.classes[d].active;
        assert(below == actives[d as int]);
        add_implication(model, active, below);
        assert(model.lp().rows =~= head + shared_rows(actives, active, shared@, (k + 1) as nat));
        k += 1;
    }
    let ghost head2 = model.lp().rows;
    let mut i: usize = 0;
    assert(head2 + list_rows(actives, list, shared@, 0) =~= head2);
    while i < nodes.len()
        invariant
            vars.wf(),
            p == vars@,
            p.classes.contains_key(c),
            list == p.classes[c],
            list == choices_in(nodes@),
            sound_class(p, list),
            actives == vars.actives(),
            columns_apart(p, actives, width),
            width == lp0.cols.len(),
            i <= nodes@.len(),
            model.wf(),
            model.start() == old(model).start(),
            model.sent() == old(model).sent(),
            model.lp() == (Lp {
                rows: head2 + list_rows(actives, list, shared@, i as nat),
                ..lp0
            }),
        decreases nodes@.len() - i,
    {
        let kids: &IndexSet<ClassId> = &nodes[i].children_classes;
        let variable: Col = nodes[i].variable;
        let ghost o = list[i as int];
        let ghost head3 = model.lp().rows;
        let len: usize = id_set_len(kids);
        let mut m: usize = 0;
        proof {
            assert(o == nodes@[i as int]@);
            assert(p.classes[c][i as int].variable < width);
            assert(head3 + kid_rows(actives, o, shared@, 0) =~= head3);
        }
        while m < len
            invariant
                vars.wf(),
                p == vars@,
                p.classes.contains_key(c),
                list == p.classes[c],
                i < list.len(),
                o == list[i as int],
                o.kids == id_set(*kids),
                o.variable == variable,
                variable < width,
                sound_class(p, list),
                actives == vars.actives(),
                columns_apart(p, actives, width),
                width == lp0.cols.len(),
                m <= len == o.kids.len(),
                model.wf(),
                model.start() == old(model).start(),
                model.sent() == old(model).sent(),
                model.lp() == (Lp {
                    rows: head3 + kid_rows(actives, o, shared@, m as nat),
                    ..lp0
                }),
            decreases len - m,
        {
            if let Some(d) = id_set_get_index(kids, m) {
                proof {
                    assert(o.kids[m as int] == d);
                    assert(list[i as int].kids.contains(d));
                    assert(p.classes.contains_key(d));
                }
                let below: Col = vars.classes[d].active;
                assert(below == actives[d as int]);
                if !has_id(&shared, d) {
                    add_implication(model, variable, below);
                    assert(model.lp().rows =~= head3 + kid_rows(
                        actives,
                        o,
                        shared@,
                        (m + 1) as nat,
                    ));
                }
            }
            m += 1;
        }
        proof {
            assert(head3 + kid_rows(actives, o, shared@, o.kids.len()) =~= head2 + list_rows(
                actives,
                list,
                shared@,
                (i + 1) as nat,
            ));
        }
        i += 1;
    }
    proof {
        let rows = class_rows(actives, active, list, *config);
        assert(model.lp().rows =~= lp0.rows + rows);
    }
}

// ---------------------------------------------------------------------------
// The model
// ---------------------------------------------------------------------------

/// `cols` are new binary ones, but that those of the first `c` classes without
/// a choice are shut, the first `k` roots are forced, and the costs of the
/// first `m` classes are set.
pub open spec fn columns_so_far(
    p: Problem,
    actives: Seq<Col>,
    config: Config,
    cols: Seq<ColDef>,
    c: int,
    k: int,
    m: int,
) -> bool {
    &&& forall|d: ClassId| #[trigger]
        p.classes.contains_key(d) ==> cols[actives[d as int] as int] == (ColDef {
            lower: if p.roots.take(k).contains(d) {
                ONE
            } else {
                0
            },
            upper: if d < c && is_closed(p, d) {
                0
            } else {
                ONE
            },
            cost: if d < m {
                product(base_cost(p.classes[d], config), ONE)
            } else {
                0
            },
            integral: true,
        })
    &&& forall|d: ClassId, i: int|
        p.classes.contains_key(d) && 0 <= i < p.classes[d].len() ==> cols[(
        #[trigger] p.classes[d][i]).variable as int] == (ColDef {
            lower: 0,
            upper: ONE,
            cost: if d < m {
                product((p.classes[d][i].cost - base_cost(p.classes[d], config)) as Cost, ONE)
            } else {
                0
            },
            integral: true,
        })
    &&& forall|j: int| 0 <= j < cols.len() && !owned(p, actives, j) ==> #[trigger] cols[j]
        == fresh_binary()
}

/// Some root has no choice.
pub open spec fn root_closed(p: Problem) -> bool {
    exists|r: ClassId| #[trigger] p.roots.contains(r) && is_closed(p, r)
}

/// The base cost of a class is that of its choices or less.
pub proof fn lemma_base_cost(p: Problem, n: nat, c: ClassId, i: int, config: Config)
    requires
        sound(p, n),
        p.classes.contains_key(c),
        0 <= i < p.classes[c].len(),
    ensures
        0 <= base_cost(p.classes[c], config) <= p.classes[c][i].cost,
{
    let list = p.classes[c];
    assert(sound_class(p, list));
    lemma_cheapest_is(list, list.len());
    lemma_cheapest(list, list.len(), i);
}

/// Sets what the choices for class `c` cost.
fn set_class_costs(vars: &Vars, c: ClassId, config: &Config, model: &mut Staged)
    requires
        vars.wf(),
        vars@.classes.contains_key(c),
        columns_apart(vars@, vars.actives(), old(model).lp().cols.len()),
        columns_so_far(
            vars@,
            vars.actives(),
            *config,
            old(model).lp().cols,
            vars.size() as int,
            vars@.roots.len() as int,
            c as int,
        ),
        old(model).wf(),
    ensures
        final(model).wf(),
        columns_so_far(
            vars@,
            vars.actives(),
            *config,
            final(model).lp().cols,
            vars.size() as int,
            vars@.roots.len() as int,
            c + 1,
        ),
        final(model).lp() == (Lp { cols: final(model).lp().cols, ..old(model).lp() }),
        final(model).lp().cols.len() == old(model).lp().cols.len(),
        final(model).start() == old(model).start(),
        final(model).sent() == old(model).sent(),
{
    let ghost p = vars@;
    let ghost actives = vars.actives();
    let ghost width = model.lp().cols.len();
    let ghost lp0 = model.lp();
    let ghost list = p.classes[c];
    let nodes: &Vec<NodeIlp> = &vars.classes[c].nodes;
    let active: Col = vars.classes[c].active;
    proof {
        assert(list == choices_in(nodes@));
        assert(active == actives[c as int]);
        assert(sound_class(p, list));
    }
    let base: Cost = if config.move_min_cost_of_members_to_class && nodes.len() > 0 {
        least_cost(nodes)
    } else {
        0
    };
    assert(base == base_cost(list, *config));
    if base != 0 {
        model.set_obj_coeff(active, wide_product(base, ONE));
    }
    let mut i: usize = 0;
    proof {
        assert(model.lp().cols =~= lp0.cols.update(
            active as int,
            ColDef { cost: product(base, ONE), ..lp0.cols[active as int] },
        ));
    }
    while i < nodes.len()
        invariant
            vars.wf(),
            p == vars@,
            p.classes.contains_key(c),
            list == p.classes[c],
            list == choices_in(nodes@),
            actives == vars.actives(),
            active == actives[c as int],
            base == base_cost(list, *config),
            columns_apart(p, actives, width),
            width == lp0.cols.len(),
            i <= nodes@.len(),
            model.wf(),
            model.start() == old(model).start(),
            model.sent() == old(model).sent(),
            model.lp() == (Lp { cols: model.lp().cols, ..lp0 }),
            model.lp().cols.len() == width,
            model.lp().cols[active as int] == (ColDef { cost: product(base, ONE), ..lp0.cols[active as int] }),
            forall|k: int|
                0 <= k < list.len() ==> model.lp().cols[(#[trigger] p.classes[c][k]).variable as int]
                    == (if k < i {
                    ColDef {
                        cost: product((list[k].cost - base) as Cost, ONE),
                        ..lp0.cols[list[k].variable as int]
                    }
                } else {
                    lp0.cols[list[k].variable as int]
                }),
            forall|j: int|
                0 <= j < width && j != active && !(exists|k: int|
                    0 <= k < i && (#[trigger] p.classes[c][k]).variable == j)
                    ==> #[trigger] model.lp().cols[j] == lp0.cols[j],
            columns_so_far(
                p,
                actives,
                *config,
                lp0.cols,
                vars.size() as int,
                p.roots.len() as int,
                c as int,
            ),
        decreases nodes@.len() - i,
    {
        let variable: Col = nodes[i].variable;
        let cost: Cost = nodes[i].cost;
        proof {
            assert(list[i as int] == nodes@[i as int]@);
            assert(p.classes[c][i as int].variable == variable);
            assert(variable < width);
            lemma_base_cost(p, vars.size(), c, i as int, *config);
            assert(crate::cost::is_weight(list[i as int].cost));
            assert(p.classes.contains_key(c));
            assert(active != variable);
        }
        let ghost before = model.lp().cols;
        if cost - base != 0 {
            model.set_obj_coeff(variable, wide_product(cost - base, ONE));
        }
        proof {
            let after = model.lp().cols;
            assert(lp0.cols[p.classes[c][i as int].variable as int].cost == 0);
            assert(after =~= before.update(
                variable as int,
                ColDef { cost: product((cost - base) as Cost, ONE), ..before[variable as int] },
            ));
            assert forall|k: int| 0 <= k < list.len() implies after[(
            #[trigger] p.classes[c][k]).variable as int] == (if k < i + 1 {
                ColDef {
                    cost: product((list[k].cost - base) as Cost, ONE),
                    ..lp0.cols[list[k].variable as int]
                }
            } else {
                lp0.cols[list[k].variable as int]
            }) by {
                if k != i {
                    assert(p.classes[c][k].variable != p.classes[c][i as int].variable);
                }
            }
            assert forall|j: int|
                0 <= j < width && j != active && !(exists|k: int|
                    0 <= k < i + 1 && (#[trigger] p.classes[c][k]).variable
                        == j) implies #[trigger] after[j] == lp0.cols[j] by {
                if j == variable {
                    assert(p.classes[c][i as int].variable == j);
                }
                if exists|k: int| 0 <= k < i && (#[trigger] p.classes[c][k]).variable == j {
                    let k = choose|k: int| 0 <= k < i && (#[trigger] p.classes[c][k]).variable == j;
                    assert(p.classes[c][k].variable == j);
                }
                assert(before[j] == lp0.cols[j]);
            }
        }
        i += 1;
    }
    proof {
        let cols = model.lp().cols;
        let n = vars.size() as int;
        let r = p.roots.len() as int;
        assert forall|d: ClassId| #[trigger] p.classes.contains_key(d) implies cols[actives[d as int] as int]
            == (ColDef {
            lower: if p.roots.take(r).contains(d) {
                ONE
            } else {
                0
            },
            upper: if d < n && is_closed(p, d) {
                0
            } else {
                ONE
            },
            cost: if d < c + 1 {
                product(base_cost(p.classes[d], *config), ONE)
            } else {
                0
            },
            integral: true,
        }) by {
            if d != c {
                assert(actives[d as int] != active);
                assert forall|k: int| 0 <= k < i implies (#[trigger] p.classes[c][k]).variable
                    != actives[d as int] by {}
                assert(cols[actives[d as int] as int] == lp0.cols[actives[d as int] as int]);
            }
        }
        assert forall|d: ClassId, k: int|
            p.classes.contains_key(d) && 0 <= k < p.classes[d].len() implies cols[(
        #[trigger] p.classes[d][k]).variable as int] == (ColDef {
            lower: 0,
            upper: ONE,
            cost: if d < c + 1 {
                product((p.classes[d][k].cost - base_cost(p.classes[d], *config)) as Cost, ONE)
            } else {
                0
            },
            integral: true,
        }) by {
            let j = p.classes[d][k].variable as int;
            if d != c {
                assert(j != active) by {
                    assert(p.classes.contains_key(c));
                }
                assert forall|m: int| 0 <= m < i implies (#[trigger] p.classes[c][m]).variable
                    != j by {}
                assert(cols[j] == lp0.cols[j]);
            } else {
                assert(cols[p.classes[c][k].variable as int].cost == product(
                    (list[k].cost - base) as Cost,
                    ONE,
                ));
            }
        }
        assert forall|j: int| 0 <= j < cols.len() && !owned(p, actives, j) implies #[trigger] cols[j]
            == fresh_binary() by {
            if j == active {
                assert(p.classes.contains_key(c) && actives[c as int] == j);
            }
            if exists|k: int| 0 <= k < i && (#[trigger] p.classes[c][k]).variable == j {
                let k = choose|k: int| 0 <= k < i && (#[trigger] p.classes[c][k]).variable == j;
                assert(p.classes[c][k].variable == j);
            }
            assert(lp0.cols[j] == fresh_binary());
        }
    }
}

/// Builds the model of the problem. `false` if a root has no choice, and the
/// problem so no solution; the model is then of no use.
pub(crate) fn stage_problem(vars: &Vars, config: &Config, model: &mut Staged) -> (r: bool)
    requires
        vars.wf(),
        columns_apart(vars@, vars.actives(), old(model).lp().cols.len()),
        old(model).wf(),
        old(model).lp().rows.len() == 0,
        forall|j: int|
            0 <= j < old(model).lp().cols.len() ==> #[trigger] old(model).lp().cols[j]
                == fresh_binary(),
    ensures
        final(model).wf(),
        final(model).start() == old(model).start(),
        final(model).sent() == old(model).sent(),
        r == !root_closed(vars@),
        r ==> {
            &&& final(model).lp().cols.len() == old(model).lp().cols.len()
            &&& final(model).lp().sense == old(model).lp().sense
            &&& final(model).lp().rows == rows_to(vars@, vars.actives(), *config, vars.size())
            &&& columns_for(vars@, vars.actives(), *config, final(model).lp().cols)
        },
{
    let ghost p = vars@;
    let ghost actives = vars.actives();
    let ghost width = model.lp().cols.len();
    let ghost lp0 = model.lp();
    let n: usize = vars.classes.len();
    let mut c: usize = 0;
    proof {
        assert(p.roots.take(0).len() == 0);
        assert forall|d: ClassId| !#[trigger] p.roots.take(0).contains(d) by {}
        assert forall|d: ClassId, i: int|
            p.classes.contains_key(d) && 0 <= i < p.classes[d].len() implies lp0.cols[(
        #[trigger] p.classes[d][i]).variable as int] == fresh_binary() by {}
        assert(columns_so_far(p, actives, *config, model.lp().cols, 0, 0, 0));
    }
    while c < n
        invariant
            vars.wf(),
            p == vars@,
            n == vars.size(),
            actives == vars.actives(),
            columns_apart(p, actives, width),
            width == lp0.cols.len(),
            c <= n,
            model.wf(),
            model.start() == old(model).start(),
            model.sent() == old(model).sent(),
            model.lp().sense == lp0.sense,
            model.lp().cols.len() == width,
            model.lp().rows == rows_to(p, actives, *config, c as nat),
            columns_so_far(p, actives, *config, model.lp().cols, c as int, 0, 0),
            forall|d: ClassId| d < c && #[trigger] p.roots.contains(d) ==> !is_closed(p, d),
        decreases n - c,
    {
        let ghost cols0 = model.lp().cols;
        if vars.live[c] {
            assert(p.classes.contains_key(c));
            let nodes: &Vec<NodeIlp> = &vars.classes[c].nodes;
            let active: Col = vars.classes[c].active;
            let ghost list = p.classes[c];
            proof {
                assert(list == choices_in(nodes@));
                assert(active == actives[c as int]);
                if nodes@.len() > 0 {
                    assert(list[0] == nodes@[0]@);
                }
            }
            if nodes.len() == 0 {
                if has_id(&vars.roots, c) {
                    assert(p.roots.contains(c) && is_closed(p, c));
                    return false;
                }
                model.set_col_upper(active, 0);
                proof {
                    let cols = model.lp().cols;
                    assert forall|d: ClassId, i: int|
                        p.classes.contains_key(d) && 0 <= i < p.classes[d].len() implies cols[(
                    #[trigger] p.classes[d][i]).variable as int]
                        == cols0[p.classes[d][i].variable as int] by {
                        assert(p.classes.contains_key(c));
                        assert(actives[c as int] != p.classes[d][i].variable);
                    }
                    assert forall|j: int|
                        0 <= j < cols.len() && !owned(p, actives, j) implies #[trigger] cols[j]
                        == fresh_binary() by {
                        if j == active {
                            assert(p.classes.contains_key(c) && actives[c as int] == j);
                        }
                    }
                    assert(columns_so_far(p, actives, *config, cols, c + 1, 0, 0));
                    assert(rows_to(p, actives, *config, (c + 1) as nat) =~= rows_to(
                        p,
                        actives,
                        *config,
                        c as nat,
                    ));
                }
            } else {
                if nodes.len() == 1 && id_set_len(&nodes[0].children_classes) == 0 && nodes[0].cost
                    == 0 {
                    proof {
                        assert(!needs_rows(list));
                        assert(rows_to(p, actives, *config, (c + 1) as nat) =~= rows_to(
                            p,
                            actives,
                            *config,
                            c as nat,
                        ));
                    }
                } else {
                    assert(needs_rows(list));
                    add_class_rows(vars, c, config, model);
                }
                assert(columns_so_far(p, actives, *config, cols0, c + 1, 0, 0));
            }
        } else {
            assert(!p.classes.contains_key(c));
            assert(columns_so_far(p, actives, *config, cols0, c + 1, 0, 0));
        }
        c += 1;
    }
    proof {
        assert forall|d: ClassId| #[trigger] p.roots.contains(d) implies !is_closed(p, d) by {
            assert(p.classes.contains_key(d));
        }
    }
    let mut k: usize = 0;
    while k < vars.roots.len()
        invariant
            vars.wf(),
            p == vars@,
            n == vars.size(),
            actives == vars.actives(),
            columns_apart(p, actives, width),
            k <= p.roots.len(),
            model.wf(),
            model.start() == old(model).start(),
            model.sent() == old(model).sent(),
            model.lp().sense == lp0.sense,
            model.lp().cols.len() == width,
            model.lp().rows == rows_to(p, actives, *config, n as nat),
            columns_so_far(p, actives, *config, model.lp().cols, n as int, k as int, 0),
        decreases p.roots.len() - k,
    {
        let r: ClassId = vars.roots[k];
        proof {
            assert(p.roots.contains(r));
            assert(p.classes.contains_key(r));
        }
        let active: Col = vars.classes[r].active;
        assert(active == actives[r as int]);
        let ghost cols0 = model.lp().cols;
        model.set_col_lower(active, ONE);
        proof {
            let cols = model.lp().cols;
            assert(p.roots.take(k + 1) =~= p.roots.take(k as int).push(r));
            assert forall|d: ClassId| p.roots.take(k + 1).contains(d) <==> p.roots.take(
                k as int,
            ).contains(d) || d == r by {
                let a = p.roots.take(k as int);
                if a.contains(d) {
                    let j = choose|j: int| 0 <= j < a.len() && a[j] == d;
                    assert(a.push(r)[j] == d);
                }
                if d == r {
                    assert(a.push(r)[a.len() as int] == d);
                }
            }
            assert forall|d: ClassId, i: int|
                p.classes.contains_key(d) && 0 <= i < p.classes[d].len() implies cols[(
            #[trigger] p.classes[d][i]).variable as int]
                == cols0[p.classes[d][i].variable as int] by {
                assert(actives[r as int] != p.classes[d][i].variable);
            }
            assert forall|j: int| 0 <= j < cols.len() && !owned(p, actives, j) implies #[trigger] cols[j]
                == fresh_binary() by {
                if j == active {
                    assert(p.classes.contains_key(r) && actives[r as int] == j);
                }
            }
            assert(columns_so_far(p, actives, *config, cols, n as int, k + 1, 0));
        }
        k += 1;
    }
    c = 0;
    while c < n
        invariant
            vars.wf(),
            p == vars@,
            n == vars.size(),
            actives == vars.actives(),
            columns_apart(p, actives, width),
            c <= n,
            model.wf(),
            model.start() == old(model).start(),
            model.sent() == old(model).sent(),
            model.lp().sense == lp0.sense,
            model.lp().cols.len() == width,
            model.lp().rows == rows_to(p, actives, *config, n as nat),
            columns_so_far(
                p,
                actives,
                *config,
                model.lp().cols,
                n as int,
                p.roots.len() as int,
                c as int,
            ),
        decreases n - c,
    {
        if vars.live[c] {
            assert(p.classes.contains_key(c));
            set_class_costs(vars, c, config, model);
        } else {
            assert(!p.classes.contains_key(c));
            assert(columns_so_far(
                p,
                actives,
                *config,
                model.lp().cols,
                n as int,
                p.roots.len() as int,
                c + 1,
            ));
        }
        c += 1;
    }
    proof {
        assert(p.roots.take(p.roots.len() as int) =~= p.roots);
        let cols = model.lp().cols;
        assert forall|d: ClassId| #[trigger] p.classes.contains_key(d) implies d < n by {}
        assert(columns_for(p, actives, *config, cols));
    }
    true
}

} // verus!
