//! The one MILP model behind every ILP extractor.
//!
//! ```text
//! x_n       binary, node n selected           a_c   binary, class c selected
//! sum_{n in c} x_n = a_c                      x_n <= a_cc   for each child class cc of n
//! a_root = 1
//! ```
//!
//! Cycles are blocked exactly: a topological level per class must rise along
//! every selected edge, so any incumbent the solver returns is a valid
//! extraction.
//!
//! Objectives that involve depth add one arrival time `T_c` per class:
//!
//! ```text
//! T_c >= depth_n + T_cc - M*(1 - x_n)   for each child class cc of n
//! T_c >= depth_n        - M*(1 - x_n)   for childless n
//! ```
//!
//! with `0 <= T_c <= S` (`S` = sum of all node depths), so `M = 2S` is sound.
//! With a depth budget every `T_c` is instead capped at the budget, which
//! enforces the budget without extra rows and makes
//! `M = budget + max node depth` sound and much better conditioned. Delays are
//! non-negative, so capping every class (not just the roots) never cuts off a
//! feasible solution.
use crate::collections::{id_set, id_set_get_index, id_set_insert, id_set_len, id_set_new};
use crate::cost::{
    add_costs, larger, max_cost, min_cost, minus, plus, product, saturate, saturate_wide, smaller,
    sub_costs, wide_product, Cost, INFINITY, MINUS_ONE, NEG_INFINITY, ONE,
};
use crate::egraph::{ClassId, EGraph, NodeId};
use crate::extract::ilp::objective::IlpObjective;
use crate::extract::selection::roots_known;
use crate::milp::point::{add_constraint, row_of};
use crate::milp::stage::{fresh_binary, fresh_col, Col, ColDef, Lp, RowModel, Staged};
use crate::milp::MilpSense;
use indexmap::IndexSet;
use vstd::prelude::*;

verus! {

/// What a column stands for.
pub enum Role {
    /// The class is selected.
    Active(ClassId),
    /// The member of the class at that position is selected.
    Pick(ClassId, usize),
    /// The arrival time of the class.
    Arrival(ClassId),
    /// The largest arrival time of a root.
    RootDepth,
    /// The topological level of the class.
    Level(ClassId),
    /// The member of the class at that position is not selected.
    Opposite(ClassId, usize),
}

/// Selection variables for one e-class.
pub struct ClassVars {
    pub active: Col,
    /// One per member node, in the order of the class.
    pub nodes: Vec<Col>,
}

/// The auxiliary columns of the cycle-blocking rows, kept so that a warm start
/// can seed them: a continuous column that is not seeded may be read as zero,
/// which violates the level rows.
pub struct CycleVars {
    /// One continuous "topological level" column per class.
    pub levels: Vec<Col>,
    /// Per class and member, `1 - x_n`: the big-M switch that disables a level
    /// row when its node is not selected.
    pub opposite: Vec<Vec<Col>>,
}

/// The columns of a model that times its classes.
pub struct DepthVars {
    /// `T_c` per class.
    pub arrival: Vec<Col>,
    /// Upper bound applied to every `T_c`.
    pub cap: Cost,
    /// The depth budget the model enforces (the requested one clamped into
    /// `[0, S]`), if any.
    pub budget: Option<Cost>,
    /// `t >= T_root` for every root, when depth is in the objective.
    pub root_depth: Option<Col>,
    /// The big-M of the arrival rows.
    pub big_m: Cost,
}

/// The columns of a model.
pub struct IlpVars {
    pub classes: Vec<ClassVars>,
    pub cycles: CycleVars,
    pub depth: Option<DepthVars>,
    /// What each column stands for.
    pub roles: Ghost<Seq<Role>>,
}

// ---------------------------------------------------------------------------
// Columns
// ---------------------------------------------------------------------------

/// How many members class `c` has.
pub open spec fn members(g: EGraph, c: int) -> nat {
    g.classes@[c].nodes@.len()
}

/// The member of class `c` at position `k`.
pub open spec fn member(g: EGraph, c: int, k: int) -> NodeId {
    g.classes@[c].nodes@[k]
}

/// There is a member `k` of a class `c`.
pub open spec fn is_member(g: EGraph, c: int, k: int) -> bool {
    0 <= c < g.classes@.len() && 0 <= k < members(g, c)
}

/// The selection columns have their roles.
pub open spec fn selection_placed(g: EGraph, classes: Seq<ClassVars>, roles: Seq<Role>) -> bool {
    &&& classes.len() == g.classes@.len()
    &&& forall|c: int|
        0 <= c < classes.len() ==> {
            &&& (#[trigger] classes[c]).active < roles.len()
            &&& roles[classes[c].active as int] == Role::Active(c as ClassId)
            &&& classes[c].nodes@.len() == members(g, c)
        }
    &&& forall|c: int, k: int|
        is_member(g, c, k) ==> (#[trigger] classes[c].nodes@[k]) < roles.len()
            && roles[classes[c].nodes@[k] as int] == Role::Pick(c as ClassId, k as usize)
}

/// The level columns have their roles.
pub open spec fn levels_placed(g: EGraph, levels: Seq<Col>, roles: Seq<Role>) -> bool {
    &&& levels.len() == g.classes@.len()
    &&& forall|c: int|
        0 <= c < levels.len() ==> (#[trigger] levels[c]) < roles.len() && roles[levels[c] as int]
            == Role::Level(c as ClassId)
}

/// The switch columns have their roles.
pub open spec fn opposite_placed(g: EGraph, opposite: Seq<Vec<Col>>, roles: Seq<Role>) -> bool {
    &&& opposite.len() == g.classes@.len()
    &&& forall|c: int|
        0 <= c < opposite.len() ==> (#[trigger] opposite[c])@.len() == members(g, c)
    &&& forall|c: int, k: int|
        is_member(g, c, k) ==> (#[trigger] opposite[c]@[k]) < roles.len()
            && roles[opposite[c]@[k] as int] == Role::Opposite(c as ClassId, k as usize)
}

/// The arrival columns have their roles.
pub open spec fn arrival_placed(g: EGraph, arrival: Seq<Col>, roles: Seq<Role>) -> bool {
    &&& arrival.len() == g.classes@.len()
    &&& forall|c: int|
        0 <= c < arrival.len() ==> (#[trigger] arrival[c]) < roles.len() && roles[arrival[c] as int]
            == Role::Arrival(c as ClassId)
}

/// The column of a root's depth, if there is one, has its role.
pub open spec fn root_depth_placed(root_depth: Option<Col>, roles: Seq<Role>) -> bool {
    root_depth matches Some(t) ==> t < roles.len() && roles[t as int] == Role::RootDepth
}

/// Column `i` is the one that stands for its role.
pub open spec fn is_handle(g: EGraph, vars: IlpVars, i: int) -> bool {
    match vars.roles@[i] {
        Role::Active(c) => c < g.classes@.len() && vars.classes@[c as int].active == i,
        Role::Pick(c, k) => is_member(g, c as int, k as int)
            && vars.classes@[c as int].nodes@[k as int] == i,
        Role::Level(c) => c < g.classes@.len() && vars.cycles.levels@[c as int] == i,
        Role::Opposite(c, k) => is_member(g, c as int, k as int)
            && vars.cycles.opposite@[c as int]@[k as int] == i,
        Role::Arrival(c) => c < g.classes@.len() && (vars.depth matches Some(d)
            && d.arrival@[c as int] == i),
        Role::RootDepth => vars.depth matches Some(d) && d.root_depth == Some(i as Col),
    }
}

/// Every column stands for one thing, and the handles say which.
pub open spec fn vars_placed(g: EGraph, vars: IlpVars) -> bool {
    &&& selection_placed(g, vars.classes@, vars.roles@)
    &&& levels_placed(g, vars.cycles.levels@, vars.roles@)
    &&& opposite_placed(g, vars.cycles.opposite@, vars.roles@)
    &&& vars.depth matches Some(d) ==> arrival_placed(g, d.arrival@, vars.roles@)
        && root_depth_placed(d.root_depth, vars.roles@)
    &&& forall|i: int| 0 <= i < vars.roles@.len() ==> #[trigger] is_handle(g, vars, i)
}

// ---------------------------------------------------------------------------
// Rows
// ---------------------------------------------------------------------------

/// The coefficients of "some member is selected iff the class is".
pub open spec fn choice_coeffs(class: ClassVars) -> Seq<(Col, Cost)> {
    seq![(class.active, MINUS_ONE)] + Seq::new(
        class.nodes@.len(),
        |k: int| (class.nodes@[k], ONE),
    )
}

/// `sum_{n in c} x_n = a_c`.
pub open spec fn choice_row(g: EGraph, classes: Seq<ClassVars>, c: int, row: RowModel) -> bool {
    0 <= c < g.classes@.len() && row == row_of(0, 0, choice_coeffs(classes[c]))
}

/// `x_n <= a_cc`.
pub open spec fn needs_row(
    g: EGraph,
    classes: Seq<ClassVars>,
    c: int,
    k: int,
    cc: ClassId,
    row: RowModel,
) -> bool {
    &&& is_member(g, c, k)
    &&& g.depends(member(g, c, k), cc)
    &&& row == row_of(
        NEG_INFINITY,
        0,
        seq![(classes[c].nodes@[k], ONE), (classes[cc as int].active, MINUS_ONE)],
    )
}

/// `T_c >= depth_n - M*(1 - x_n)`, `n` having no children.
pub open spec fn leaf_row(
    g: EGraph,
    classes: Seq<ClassVars>,
    arrival: Seq<Col>,
    big_m: Cost,
    c: int,
    k: int,
    row: RowModel,
) -> bool {
    &&& is_member(g, c, k)
    &&& g.nodes@[member(g, c, k) as int].children@.len() == 0
    &&& row == row_of(
        minus(g.nodes@[member(g, c, k) as int].delay, big_m),
        INFINITY,
        seq![(arrival[c], ONE), (classes[c].nodes@[k], (-big_m) as Cost)],
    )
}

/// `T_c >= depth_n + T_cc - M*(1 - x_n)`.
pub open spec fn after_row(
    g: EGraph,
    classes: Seq<ClassVars>,
    arrival: Seq<Col>,
    big_m: Cost,
    c: int,
    k: int,
    cc: ClassId,
    row: RowModel,
) -> bool {
    &&& is_member(g, c, k)
    &&& g.depends(member(g, c, k), cc)
    &&& row == row_of(
        minus(g.nodes@[member(g, c, k) as int].delay, big_m),
        INFINITY,
        seq![
            (arrival[c], ONE),
            (arrival[cc as int], MINUS_ONE),
            (classes[c].nodes@[k], (-big_m) as Cost),
        ],
    )
}

/// `t >= T_root`.
pub open spec fn root_row(
    roots: Seq<ClassId>,
    arrival: Seq<Col>,
    t: Col,
    i: int,
    row: RowModel,
) -> bool {
    &&& 0 <= i < roots.len()
    &&& row == row_of(0, INFINITY, seq![(t, ONE), (arrival[roots[i] as int], MINUS_ONE)])
}

/// `opposite_n + x_n = 1`.
pub open spec fn switch_row(
    g: EGraph,
    classes: Seq<ClassVars>,
    opposite: Seq<Vec<Col>>,
    c: int,
    k: int,
    row: RowModel,
) -> bool {
    &&& is_member(g, c, k)
    &&& row == row_of(ONE, ONE, seq![(opposite[c]@[k], ONE), (classes[c].nodes@[k], ONE)])
}

/// `x_n = 0`, `n` being a child of its own class.
pub open spec fn loop_row(g: EGraph, classes: Seq<ClassVars>, c: int, k: int, row: RowModel) -> bool {
    &&& is_member(g, c, k)
    &&& g.depends(member(g, c, k), c as ClassId)
    &&& row == row_of(0, 0, seq![(classes[c].nodes@[k], ONE)])
}

/// What disables a level row: more than any two levels need be apart.
pub open spec fn level_step(g: EGraph) -> Cost {
    saturate((g.classes@.len() as int + 1) * 1_000_000)
}

/// `level_cc >= level_c + 1 - (classes + 1) * opposite_n`.
pub open spec fn level_row(
    g: EGraph,
    classes: Seq<ClassVars>,
    levels: Seq<Col>,
    opposite: Seq<Vec<Col>>,
    c: int,
    k: int,
    cc: ClassId,
    row: RowModel,
) -> bool {
    &&& is_member(g, c, k)
    &&& !g.depends(member(g, c, k), c as ClassId)
    &&& g.depends(member(g, c, k), cc)
    &&& row == row_of(
        ONE,
        INFINITY,
        seq![
            (levels[c], MINUS_ONE),
            (levels[cc as int], ONE),
            (opposite[c]@[k], level_step(g)),
        ],
    )
}

/// A row of the members of class `c`.
pub open spec fn class_row(g: EGraph, classes: Seq<ClassVars>, c: int, row: RowModel) -> bool {
    choice_row(g, classes, c, row) || exists|k: int, cc: ClassId| #[trigger]
        needs_row(g, classes, c, k, cc, row)
}

/// A row of the selection.
pub open spec fn selection_row(g: EGraph, classes: Seq<ClassVars>, row: RowModel) -> bool {
    exists|c: int| #[trigger] class_row(g, classes, c, row)
}

/// A row of the timing of class `c`.
pub open spec fn timing_row(
    g: EGraph,
    classes: Seq<ClassVars>,
    arrival: Seq<Col>,
    big_m: Cost,
    c: int,
    row: RowModel,
) -> bool {
    (exists|k: int| #[trigger] leaf_row(g, classes, arrival, big_m, c, k, row)) || exists|
        k: int,
        cc: ClassId,
    | #[trigger]
        after_row(g, classes, arrival, big_m, c, k, cc, row)
}

/// A row that holds the depth of the roots in column `t`.
pub open spec fn roots_row(
    roots: Seq<ClassId>,
    arrival: Seq<Col>,
    t: Col,
    row: RowModel,
) -> bool {
    exists|i: int| #[trigger] root_row(roots, arrival, t, i, row)
}

/// A row that times the classes or the roots.
pub open spec fn depth_row(
    g: EGraph,
    roots: Seq<ClassId>,
    classes: Seq<ClassVars>,
    d: DepthVars,
    row: RowModel,
) -> bool {
    ||| exists|c: int| #[trigger] timing_row(g, classes, d.arrival@, d.big_m, c, row)
    ||| d.root_depth matches Some(t) && roots_row(roots, d.arrival@, t, row)
}

/// A row that keeps the members of class `c` off cycles.
pub open spec fn order_row(
    g: EGraph,
    classes: Seq<ClassVars>,
    levels: Seq<Col>,
    opposite: Seq<Vec<Col>>,
    c: int,
    row: RowModel,
) -> bool {
    (exists|k: int| #[trigger] loop_row(g, classes, c, k, row)) || exists|k: int, cc: ClassId|
     #[trigger]
        level_row(g, classes, levels, opposite, c, k, cc, row)
}

/// A row that blocks cycles.
pub open spec fn cycle_row(
    g: EGraph,
    classes: Seq<ClassVars>,
    levels: Seq<Col>,
    opposite: Seq<Vec<Col>>,
    row: RowModel,
) -> bool {
    (exists|c: int, k: int| #[trigger] switch_row(g, classes, opposite, c, k, row)) || exists|
        c: int,
    | #[trigger]
        order_row(g, classes, levels, opposite, c, row)
}

/// A row of the model.
pub open spec fn model_row(g: EGraph, roots: Seq<ClassId>, vars: IlpVars, row: RowModel) -> bool {
    ||| selection_row(g, vars.classes@, row)
    ||| vars.depth matches Some(d) && depth_row(g, roots, vars.classes@, d, row)
    ||| cycle_row(g, vars.classes@, vars.cycles.levels@, vars.cycles.opposite@, row)
}

// ---------------------------------------------------------------------------
// Depth figures
// ---------------------------------------------------------------------------

/// The sum of the depths of the first `n` nodes.
pub open spec fn delays_to(g: EGraph, n: nat) -> int
    decreases n,
{
    if n == 0 {
        0
    } else {
        delays_to(g, (n - 1) as nat) + g.nodes@[n - 1].delay
    }
}

/// The sum `S` of all node depths, and at least zero.
pub open spec fn total_delay(g: EGraph) -> Cost {
    larger(saturate(delays_to(g, g.nodes@.len())), 0)
}

/// The largest depth among the first `n` nodes, and at least zero.
pub open spec fn deepest_to(g: EGraph, n: nat) -> Cost
    decreases n,
{
    if n == 0 {
        0
    } else {
        larger(deepest_to(g, (n - 1) as nat), g.nodes@[n - 1].delay)
    }
}

/// The requested budget clamped into `[0, S]`.
pub open spec fn clamped(g: EGraph, requested: Option<Cost>) -> Option<Cost> {
    match requested {
        Some(b) => Some(larger(smaller(b, total_delay(g)), 0)),
        None => None,
    }
}

/// The big-M of the arrival rows.
pub open spec fn big_m_of(g: EGraph, requested: Option<Cost>) -> Cost {
    let m = match clamped(g, requested) {
        Some(b) => plus(b, deepest_to(g, g.nodes@.len())),
        None => plus(total_delay(g), total_delay(g)),
    };
    if m > 0 {
        m
    } else {
        ONE
    }
}

/// Upper bound of every arrival time.
pub open spec fn cap_of(g: EGraph, requested: Option<Cost>) -> Cost {
    match clamped(g, requested) {
        Some(b) => b,
        None => total_delay(g),
    }
}

// ---------------------------------------------------------------------------
// The whole model
// ---------------------------------------------------------------------------

/// What the column of a role is.
pub open spec fn col_of(
    g: EGraph,
    roots: Seq<ClassId>,
    objective: IlpObjective,
    role: Role,
) -> ColDef {
    match role {
        Role::Active(c) => ColDef {
            lower: if roots.contains(c) {
                ONE
            } else {
                0
            },
            ..fresh_binary()
        },
        Role::Pick(c, k) => ColDef {
            cost: product(
                objective.weighting().0,
                g.nodes@[member(g, c as int, k as int) as int].cost,
            ),
            ..fresh_binary()
        },
        Role::Arrival(c) => ColDef { upper: cap_of(g, objective.limit()), ..fresh_col() },
        Role::RootDepth => ColDef {
            upper: total_delay(g),
            cost: product(objective.weighting().1, ONE),
            ..fresh_col()
        },
        Role::Level(c) => fresh_col(),
        Role::Opposite(c, k) => fresh_binary(),
    }
}

/// The depth variables an objective needs.
pub open spec fn depth_vars_for(g: EGraph, objective: IlpObjective, depth: Option<DepthVars>) -> bool {
    match depth {
        None => objective == IlpObjective::Size,
        Some(d) => {
            &&& objective != IlpObjective::Size
            &&& d.cap == cap_of(g, objective.limit())
            &&& d.budget == clamped(g, objective.limit())
            &&& d.big_m == big_m_of(g, objective.limit())
            &&& d.root_depth is None <==> d.budget is Some
        },
    }
}

/// `lp` is the model of extracting `roots` under `objective`.
pub open spec fn is_model(
    g: EGraph,
    roots: Seq<ClassId>,
    objective: IlpObjective,
    vars: IlpVars,
    lp: Lp,
) -> bool {
    &&& lp.sense == MilpSense::Minimize
    &&& lp.cols.len() == vars.roles@.len()
    &&& lp.cols.len() <= usize::MAX
    &&& vars_placed(g, vars)
    &&& depth_vars_for(g, objective, vars.depth)
    &&& forall|i: int|
        0 <= i < lp.cols.len() ==> #[trigger] lp.cols[i] == col_of(
            g,
            roots,
            objective,
            vars.roles@[i],
        )
    &&& forall|row: RowModel| #[trigger] lp.rows.contains(row) <==> model_row(g, roots, vars, row)
}

// ---------------------------------------------------------------------------
// Building it
// ---------------------------------------------------------------------------

proof fn lemma_push_rows(rows: Seq<RowModel>, new_row: RowModel)
    ensures
        forall|row: RowModel| #[trigger]
            rows.push(new_row).contains(row) <==> rows.contains(row) || row == new_row,
{
    assert forall|row: RowModel| #[trigger] rows.push(new_row).contains(row) <==> rows.contains(row)
        || row == new_row by {
        let after = rows.push(new_row);
        if rows.contains(row) {
            let i = choose|i: int| 0 <= i < rows.len() && rows[i] == row;
            assert(after[i] == row);
        }
        if row == new_row {
            assert(after[rows.len() as int] == row);
        }
        if after.contains(row) {
            let i = choose|i: int| 0 <= i < after.len() && after[i] == row;
            if i < rows.len() {
                assert(rows[i] == row);
            }
        }
    }
}

/// The classes of the children of a node, each once, in the order they occur.
pub(crate) fn child_classes(egraph: &EGraph, node_id: NodeId) -> (r: IndexSet<ClassId>)
    requires
        egraph.wf(),
        node_id < egraph.nodes@.len(),
    ensures
        forall|c: ClassId| #[trigger] id_set(r).contains(c) <==> egraph.depends(node_id, c),
{
    let ghost g = *egraph;
    let mut r: IndexSet<ClassId> = id_set_new();
    let mut j: usize = 0;
    while j < egraph.nodes[node_id].children.len()
        invariant
            egraph.wf(),
            g == *egraph,
            node_id < g.nodes@.len(),
            j <= g.nodes@[node_id as int].children@.len(),
            forall|c: ClassId| #[trigger] id_set(r).contains(c) ==> g.depends(node_id, c),
            forall|i: int| 0 <= i < j ==> id_set(r).contains(#[trigger] g.child_class(node_id, i)),
        decreases g.nodes@[node_id as int].children@.len() - j,
    {
        proof {
            g.lemma_child_class(node_id, j as int);
            assert(g.nodes@[node_id as int].children@[j as int] < g.nodes@.len());
        }
        let child: ClassId = egraph.nid_to_cid(egraph.nodes[node_id].children[j]);
        let ghost before = id_set(r);
        id_set_insert(&mut r, child);
        proof {
            let after = id_set(r);
            assert forall|c: ClassId| #[trigger] after.contains(c) <==> before.contains(c) || c
                == child by {
                if before.contains(c) {
                    let k = choose|k: int| 0 <= k < before.len() && before[k] == c;
                    assert(after[k] == c);
                }
                if !before.contains(child) {
                    assert(after[before.len() as int] == child);
                }
                if after.contains(c) {
                    let k = choose|k: int| 0 <= k < after.len() && after[k] == c;
                    if k < before.len() {
                        assert(before[k] == c);
                    }
                }
            }
        }
        j += 1;
    }
    proof {
        assert forall|c: ClassId| g.depends(node_id, c) implies #[trigger] id_set(r).contains(
            c,
        ) by {
            let i = choose|i: int|
                0 <= i < g.nodes@[node_id as int].children@.len() && g.child_class(node_id, i) == c;
            assert(id_set(r).contains(g.child_class(node_id, i)));
        }
    }
    r
}

/// A member is a node of its class.
pub(crate) proof fn lemma_member(g: EGraph, c: int, k: int)
    requires
        g.wf(),
        is_member(g, c, k),
    ensures
        member(g, c, k) < g.nodes@.len(),
        g.nodes@[member(g, c, k) as int].eclass == c,
{
    assert(crate::egraph::lists_members(g.nodes@, c, g.classes@[c].nodes@));
    assert(g.classes@[c].nodes@[k] < g.nodes@.len());
}

/// One binary column per class and per member.
fn add_selection_cols(model: &mut Staged, egraph: &EGraph, roles: &mut Ghost<Seq<Role>>) -> (r: Vec<
    ClassVars,
>)
    requires
        egraph.wf(),
        old(model).wf(),
        old(model).lp().cols.len() == 0,
        old(roles)@.len() == 0,
    ensures
        final(model).wf(),
        final(model).lp().rows == old(model).lp().rows,
        final(model).lp().sense == old(model).lp().sense,
        final(model).start() == old(model).start(),
        final(model).sent() == old(model).sent(),
        final(model).lp().cols.len() == final(roles)@.len(),
        selection_placed(*egraph, r@, final(roles)@),
        forall|i: int|
            0 <= i < final(roles)@.len() ==> #[trigger] final(model).lp().cols[i] == fresh_binary(),
        forall|i: int|
            0 <= i < final(roles)@.len() ==> match #[trigger] final(roles)@[i] {
                Role::Active(c) => c < egraph.classes@.len() && r@[c as int].active == i,
                Role::Pick(c, k) => is_member(*egraph, c as int, k as int)
                    && r@[c as int].nodes@[k as int] == i,
                _ => false,
            },
{
    let ghost g = *egraph;
    let mut classes: Vec<ClassVars> = Vec::new();
    let n_classes: usize = egraph.classes.len();
    let mut c: usize = 0;
    while c < n_classes
        invariant
            egraph.wf(),
            g == *egraph,
            n_classes == g.classes@.len(),
            c <= n_classes,
            classes@.len() == c,
            model.wf(),
            model.lp().rows == old(model).lp().rows,
            model.lp().sense == old(model).lp().sense,
            model.start() == old(model).start(),
            model.sent() == old(model).sent(),
            model.lp().cols.len() == roles@.len(),
            forall|i: int|
                0 <= i < roles@.len() ==> #[trigger] model.lp().cols[i] == fresh_binary(),
            forall|b: int|
                0 <= b < c ==> {
                    &&& (#[trigger] classes@[b]).active < roles@.len()
                    &&& roles@[classes@[b].active as int] == Role::Active(b as ClassId)
                    &&& classes@[b].nodes@.len() == members(g, b)
                },
            forall|b: int, k: int|
                b < c && is_member(g, b, k) ==> (#[trigger] classes@[b].nodes@[k]) < roles@.len()
                    && roles@[classes@[b].nodes@[k] as int] == Role::Pick(b as ClassId, k as usize),
            forall|i: int|
                0 <= i < roles@.len() ==> match #[trigger] roles@[i] {
                    Role::Active(b) => b < c && classes@[b as int].active == i,
                    Role::Pick(b, k) => b < c && is_member(g, b as int, k as int)
                        && classes@[b as int].nodes@[k as int] == i,
                    _ => false,
                },
        decreases n_classes - c,
    {
        let ghost roles0 = roles@;
        let active: Col = model.add_binary();
        let ghost roles1 = roles0.push(Role::Active(c));
        *roles = Ghost(roles1);
        let mut nodes: Vec<Col> = Vec::new();
        let n_members: usize = egraph.classes[c].nodes.len();
        let mut k: usize = 0;
        while k < n_members
            invariant
                g == *egraph,
                c < n_classes == g.classes@.len(),
                n_members == members(g, c as int),
                k <= n_members,
                nodes@.len() == k,
                model.wf(),
                model.lp().rows == old(model).lp().rows,
                model.lp().sense == old(model).lp().sense,
                model.start() == old(model).start(),
                model.sent() == old(model).sent(),
                model.lp().cols.len() == roles@.len(),
                forall|i: int|
                    0 <= i < roles@.len() ==> #[trigger] model.lp().cols[i] == fresh_binary(),
                roles1 == roles0.push(Role::Active(c)),
                roles@.len() == roles1.len() + k,
                forall|i: int| 0 <= i < roles1.len() ==> #[trigger] roles@[i] == roles1[i],
                forall|i: int|
                    0 <= i < k ==> (#[trigger] nodes@[i]) == roles1.len() + i && roles@[nodes@[i] as int]
                        == Role::Pick(c, i as usize),
                forall|i: int|
                    roles1.len() <= i < roles@.len() ==> #[trigger] roles@[i] == Role::Pick(
                        c,
                        (i - roles1.len()) as usize,
                    ),
            decreases n_members - k,
        {
            let ghost before = roles@;
            let col: Col = model.add_binary();
            nodes.push(col);
            *roles = Ghost(before.push(Role::Pick(c, k)));
            k += 1;
        }
        let ghost classes0 = classes@;
        classes.push(ClassVars { active, nodes });
        proof {
            assert(forall|b: int| 0 <= b < c ==> classes@[b] == classes0[b]);
            assert forall|b: int| 0 <= b < c + 1 implies {
                &&& (#[trigger] classes@[b]).active < roles@.len()
                &&& roles@[classes@[b].active as int] == Role::Active(b as ClassId)
                &&& classes@[b].nodes@.len() == members(g, b)
            } by {
                if b < c {
                    assert(classes0[b].active < roles0.len());
                    assert(roles@[classes0[b].active as int] == roles1[classes0[b].active as int]);
                }
            }
            assert forall|b: int, k: int| b < c + 1 && is_member(g, b, k) implies (
            #[trigger] classes@[b].nodes@[k]) < roles@.len() && roles@[classes@[b].nodes@[k] as int]
                == Role::Pick(b as ClassId, k as usize) by {
                if b < c {
                    assert(classes0[b].nodes@[k] < roles0.len());
                    assert(roles@[classes0[b].nodes@[k] as int]
                        == roles1[classes0[b].nodes@[k] as int]);
                }
            }
            assert forall|i: int| 0 <= i < roles@.len() implies match #[trigger] roles@[i] {
                Role::Active(b) => b < c + 1 && classes@[b as int].active == i,
                Role::Pick(b, k) => b < c + 1 && is_member(g, b as int, k as int)
                    && classes@[b as int].nodes@[k as int] == i,
                _ => false,
            } by {
                if i < roles0.len() {
                    assert(roles@[i] == roles1[i]);
                    assert(roles1[i] == roles0[i]);
                } else if i == roles0.len() {
                    assert(roles@[i] == roles1[i]);
                } else {
                    let k = i - roles1.len();
                    assert(classes@[c as int].nodes@[k] == roles1.len() + k);
                }
            }
        }
        c += 1;
    }
    classes
}

/// The rows `x_n <= a_cc` of one node.
fn add_needs_rows(
    model: &mut Staged,
    egraph: &EGraph,
    classes: &Vec<ClassVars>,
    c: usize,
    k: usize,
    Ghost(roles): Ghost<Seq<Role>>,
)
    requires
        egraph.wf(),
        old(model).wf(),
        selection_placed(*egraph, classes@, roles),
        roles.len() == old(model).lp().cols.len(),
        is_member(*egraph, c as int, k as int),
    ensures
        final(model).wf(),
        final(model).lp().cols == old(model).lp().cols,
        final(model).lp().sense == old(model).lp().sense,
        final(model).start() == old(model).start(),
        final(model).sent() == old(model).sent(),
        forall|row: RowModel| #[trigger]
            final(model).lp().rows.contains(row) <==> old(model).lp().rows.contains(row) || exists|
                cc: ClassId,
            | #[trigger]
                needs_row(*egraph, classes@, c as int, k as int, cc, row),
{
    let ghost g = *egraph;
    let ghost base = model.lp();
    proof {
        lemma_member(g, c as int, k as int);
    }
    let children: IndexSet<ClassId> = child_classes(egraph, egraph.classes[c].nodes[k]);
    let n: usize = id_set_len(&children);
    let ghost order = id_set(children);
    let mut j: usize = 0;
    while j < n
        invariant
            egraph.wf(),
            g == *egraph,
            selection_placed(g, classes@, roles),
            roles.len() == base.cols.len(),
            is_member(g, c as int, k as int),
            member(g, c as int, k as int) < g.nodes@.len(),
            order == id_set(children),
            j <= n == order.len(),
            forall|cc: ClassId| #[trigger]
                order.contains(cc) <==> g.depends(member(g, c as int, k as int), cc),
            model.wf(),
            model.lp().cols == base.cols,
            model.lp().sense == base.sense,
            model.start() == old(model).start(),
            model.sent() == old(model).sent(),
            forall|row: RowModel| #[trigger]
                model.lp().rows.contains(row) <==> base.rows.contains(row) || exists|i: int|
                    0 <= i < j && needs_row(
                        g,
                        classes@,
                        c as int,
                        k as int,
                        #[trigger] order[i],
                        row,
                    ),
        decreases n - j,
    {
        if let Some(cc) = id_set_get_index(&children, j) {
            proof {
                assert(order.contains(cc));
                g.lemma_depends(member(g, c as int, k as int), cc);
                assert(classes@[cc as int].active < roles.len());
                assert(classes@[c as int].nodes@[k as int] < roles.len());
            }
            let coeffs: Vec<(Col, Cost)> = vec![
                (classes[c].nodes[k], ONE),
                (classes[cc].active, MINUS_ONE),
            ];
            let ghost before = model.lp().rows;
            add_constraint(model, NEG_INFINITY, 0, &coeffs);
            proof {
                let new_row = row_of(NEG_INFINITY, 0, coeffs@);
                assert(coeffs@ =~= seq![
                    (classes@[c as int].nodes@[k as int], ONE),
                    (classes@[cc as int].active, MINUS_ONE),
                ]);
                assert(needs_row(g, classes@, c as int, k as int, cc, new_row));
                lemma_push_rows(before, new_row);
                assert forall|row: RowModel| #[trigger] model.lp().rows.contains(row)
                    <==> base.rows.contains(row) || exists|i: int|
                    0 <= i < j + 1 && needs_row(
                        g,
                        classes@,
                        c as int,
                        k as int,
                        #[trigger] order[i],
                        row,
                    ) by {
                    if row == new_row {
                        assert(needs_row(g, classes@, c as int, k as int, order[j as int], row));
                    }
                    if before.contains(row) && !base.rows.contains(row) {
                        let i = choose|i: int|
                            0 <= i < j && needs_row(
                                g,
                                classes@,
                                c as int,
                                k as int,
                                #[trigger] order[i],
                                row,
                            );
                        assert(needs_row(g, classes@, c as int, k as int, order[i], row));
                    }
                }
            }
        }
        j += 1;
    }
    proof {
        assert forall|row: RowModel| #[trigger] model.lp().rows.contains(row)
            <==> base.rows.contains(row) || exists|cc: ClassId| #[trigger]
            needs_row(g, classes@, c as int, k as int, cc, row) by {
            if exists|cc: ClassId| #[trigger]
                needs_row(g, classes@, c as int, k as int, cc, row) {
                let cc = choose|cc: ClassId| #[trigger]
                    needs_row(g, classes@, c as int, k as int, cc, row);
                assert(order.contains(cc));
                let i = choose|i: int| 0 <= i < order.len() && order[i] == cc;
                assert(needs_row(g, classes@, c as int, k as int, order[i], row));
            }
        }
    }
}

/// The selection rows of one class.
fn add_class_rows(
    model: &mut Staged,
    egraph: &EGraph,
    classes: &Vec<ClassVars>,
    c: usize,
    Ghost(roles): Ghost<Seq<Role>>,
)
    requires
        egraph.wf(),
        old(model).wf(),
        selection_placed(*egraph, classes@, roles),
        roles.len() == old(model).lp().cols.len(),
        c < egraph.classes@.len(),
    ensures
        final(model).wf(),
        final(model).lp().cols == old(model).lp().cols,
        final(model).lp().sense == old(model).lp().sense,
        final(model).start() == old(model).start(),
        final(model).sent() == old(model).sent(),
        forall|row: RowModel| #[trigger]
            final(model).lp().rows.contains(row) <==> old(model).lp().rows.contains(row)
                || class_row(*egraph, classes@, c as int, row),
{
    let ghost g = *egraph;
    let ghost base = model.lp();
    let class: &ClassVars = &classes[c];
    let mut coeffs: Vec<(Col, Cost)> = vec![(class.active, MINUS_ONE)];
    let mut k: usize = 0;
    while k < class.nodes.len()
        invariant
            g == *egraph,
            *class == classes@[c as int],
            c < g.classes@.len(),
            k <= class.nodes@.len(),
            coeffs@ == choice_coeffs(*class).take(k + 1),
        decreases class.nodes@.len() - k,
    {
        coeffs.push((class.nodes[k], ONE));
        proof {
            let all = choice_coeffs(*class);
            assert(all.take(k + 2) =~= all.take(k + 1).push(all[k + 1]));
        }
        k += 1;
    }
    proof {
        assert(choice_coeffs(*class).take(class.nodes@.len() as int + 1) =~= choice_coeffs(*class));
        assert forall|i: int| 0 <= i < coeffs@.len() implies (#[trigger] coeffs@[i]).0
            < base.cols.len() by {
            if i > 0 {
                assert(coeffs@[i].0 == class.nodes@[i - 1]);
                assert(is_member(g, c as int, i - 1));
                assert(classes@[c as int].nodes@[i - 1] < roles.len());
            }
        }
    }
    add_constraint(model, 0, 0, &coeffs);
    let ghost first = row_of(0, 0, coeffs@);
    proof {
        lemma_push_rows(base.rows, first);
    }
    let n: usize = egraph.classes[c].nodes.len();
    let mut k: usize = 0;
    while k < n
        invariant
            egraph.wf(),
            g == *egraph,
            c < g.classes@.len(),
            selection_placed(g, classes@, roles),
            roles.len() == base.cols.len(),
            k <= n == members(g, c as int),
            model.wf(),
            model.lp().cols == base.cols,
            model.lp().sense == base.sense,
            model.start() == old(model).start(),
            model.sent() == old(model).sent(),
            forall|row: RowModel| #[trigger]
                model.lp().rows.contains(row) <==> base.rows.contains(row) || row == first
                    || exists|i: int, cc: ClassId|
                    i < k && #[trigger] needs_row(g, classes@, c as int, i, cc, row),
        decreases n - k,
    {
        let ghost before = model.lp().rows;
        add_needs_rows(model, egraph, classes, c, k, Ghost(roles));
        proof {
            assert forall|row: RowModel| #[trigger] model.lp().rows.contains(row)
                <==> base.rows.contains(row) || row == first || exists|i: int, cc: ClassId|
                i < k + 1 && #[trigger] needs_row(g, classes@, c as int, i, cc, row) by {
                assert(before.contains(row) <==> base.rows.contains(row) || row == first || exists|
                    i: int,
                    cc: ClassId,
                |
                    i < k && #[trigger] needs_row(g, classes@, c as int, i, cc, row));
                if exists|i: int, cc: ClassId|
                    i < k + 1 && #[trigger] needs_row(g, classes@, c as int, i, cc, row) {
                    let (i, cc) = choose|i: int, cc: ClassId|
                        i < k + 1 && #[trigger] needs_row(g, classes@, c as int, i, cc, row);
                    if i == k {
                        assert(needs_row(g, classes@, c as int, k as int, cc, row));
                    } else {
                        assert(i < k && needs_row(g, classes@, c as int, i, cc, row));
                    }
                }
            }
        }
        k += 1;
    }
    proof {
        assert forall|row: RowModel| #[trigger] model.lp().rows.contains(row)
            <==> base.rows.contains(row) || class_row(g, classes@, c as int, row) by {
            assert(choice_row(g, classes@, c as int, row) <==> row == first);
            if exists|k: int, cc: ClassId| #[trigger]
                needs_row(g, classes@, c as int, k, cc, row) {
                let (k, cc) = choose|k: int, cc: ClassId| #[trigger]
                    needs_row(g, classes@, c as int, k, cc, row);
                assert(k < n && needs_row(g, classes@, c as int, k, cc, row));
            }
        }
    }
}

/// The selection columns and rows.
fn add_selection(model: &mut Staged, egraph: &EGraph, roles: &mut Ghost<Seq<Role>>) -> (r: Vec<
    ClassVars,
>)
    requires
        egraph.wf(),
        old(model).wf(),
        old(model).lp().cols.len() == 0,
        old(model).lp().rows.len() == 0,
        old(roles)@.len() == 0,
    ensures
        final(model).wf(),
        final(model).lp().sense == old(model).lp().sense,
        final(model).start() == old(model).start(),
        final(model).sent() == old(model).sent(),
        final(model).lp().cols.len() == final(roles)@.len(),
        selection_placed(*egraph, r@, final(roles)@),
        forall|i: int|
            0 <= i < final(roles)@.len() ==> #[trigger] final(model).lp().cols[i] == fresh_binary(),
        forall|i: int|
            0 <= i < final(roles)@.len() ==> match #[trigger] final(roles)@[i] {
                Role::Active(c) => c < egraph.classes@.len() && r@[c as int].active == i,
                Role::Pick(c, k) => is_member(*egraph, c as int, k as int)
                    && r@[c as int].nodes@[k as int] == i,
                _ => false,
            },
        forall|row: RowModel| #[trigger]
            final(model).lp().rows.contains(row) <==> selection_row(*egraph, r@, row),
{
    let ghost g = *egraph;
    let classes: Vec<ClassVars> = add_selection_cols(model, egraph, roles);
    let ghost base = model.lp();
    let mut c: usize = 0;
    while c < classes.len()
        invariant
            egraph.wf(),
            g == *egraph,
            selection_placed(g, classes@, roles@),
            roles@.len() == base.cols.len(),
            base.rows.len() == 0,
            c <= classes@.len(),
            model.wf(),
            model.lp().cols == base.cols,
            model.lp().sense == base.sense,
            model.start() == old(model).start(),
            model.sent() == old(model).sent(),
            forall|row: RowModel| #[trigger]
                model.lp().rows.contains(row) <==> exists|b: int|
                    b < c && #[trigger] class_row(g, classes@, b, row),
        decreases classes@.len() - c,
    {
        let ghost before = model.lp().rows;
        add_class_rows(model, egraph, &classes, c, Ghost(roles@));
        proof {
            assert forall|row: RowModel| #[trigger] model.lp().rows.contains(row) <==> exists|
                b: int,
            |
                b < c + 1 && #[trigger] class_row(g, classes@, b, row) by {
                assert(before.contains(row) <==> exists|b: int|
                    b < c && #[trigger] class_row(g, classes@, b, row));
                if exists|b: int| b < c + 1 && #[trigger] class_row(g, classes@, b, row) {
                    let b = choose|b: int| b < c + 1 && #[trigger] class_row(g, classes@, b, row);
                    if b < c {
                        assert(b < c && class_row(g, classes@, b, row));
                    }
                }
                if class_row(g, classes@, c as int, row) {
                    assert((c as int) < c + 1 && class_row(g, classes@, c as int, row));
                }
            }
        }
        c += 1;
    }
    proof {
        assert forall|row: RowModel| #[trigger] model.lp().rows.contains(row) <==> selection_row(
            g,
            classes@,
            row,
        ) by {
            if selection_row(g, classes@, row) {
                let b = choose|b: int| #[trigger] class_row(g, classes@, b, row);
                assert(b < c && class_row(g, classes@, b, row));
            }
        }
    }
    classes
}

/// `S` and the largest node depth.
fn delay_figures(egraph: &EGraph) -> (r: (Cost, Cost))
    ensures
        r.0 == total_delay(*egraph),
        r.1 == deepest_to(*egraph, egraph.nodes@.len()),
{
    let mut sum: i128 = 0;
    let mut deepest: Cost = 0;
    let mut n: usize = 0;
    while n < egraph.nodes.len()
        invariant
            n <= egraph.nodes@.len(),
            sum == delays_to(*egraph, n as nat),
            -0x8000_0000_0000_0000 * n <= sum <= 0x7fff_ffff_ffff_ffff * n,
            deepest == deepest_to(*egraph, n as nat),
        decreases egraph.nodes@.len() - n,
    {
        sum = sum + egraph.nodes[n].delay as i128;
        deepest = max_cost(deepest, egraph.nodes[n].delay);
        n += 1;
    }
    (max_cost(saturate_wide(sum), 0), deepest)
}

/// The timing rows of one node.
fn add_node_timing(
    model: &mut Staged,
    egraph: &EGraph,
    classes: &Vec<ClassVars>,
    arrival: &Vec<Col>,
    big_m: Cost,
    c: usize,
    k: usize,
    Ghost(roles): Ghost<Seq<Role>>,
)
    requires
        egraph.wf(),
        old(model).wf(),
        selection_placed(*egraph, classes@, roles),
        arrival_placed(*egraph, arrival@, roles),
        roles.len() == old(model).lp().cols.len(),
        is_member(*egraph, c as int, k as int),
        big_m > 0,
    ensures
        final(model).wf(),
        final(model).lp().cols == old(model).lp().cols,
        final(model).lp().sense == old(model).lp().sense,
        final(model).start() == old(model).start(),
        final(model).sent() == old(model).sent(),
        forall|row: RowModel| #[trigger]
            final(model).lp().rows.contains(row) <==> old(model).lp().rows.contains(row)
                || leaf_row(*egraph, classes@, arrival@, big_m, c as int, k as int, row) || exists|
                cc: ClassId,
            | #[trigger]
                after_row(*egraph, classes@, arrival@, big_m, c as int, k as int, cc, row),
{
    let ghost g = *egraph;
    let ghost base = model.lp();
    proof {
        lemma_member(g, c as int, k as int);
        assert(classes@[c as int].nodes@[k as int] < roles.len());
        assert(arrival@[c as int] < roles.len());
    }
    let nid: NodeId = egraph.classes[c].nodes[k];
    let x_n: Col = classes[c].nodes[k];
    let t_c: Col = arrival[c];
    let off: Cost = -big_m;
    let lower: Cost = sub_costs(egraph.nodes[nid].delay, big_m);
    if egraph.nodes[nid].children.len() == 0 {
        // T_c - M*x_n >= d_n - M
        let coeffs: Vec<(Col, Cost)> = vec![(t_c, ONE), (x_n, off)];
        add_constraint(model, lower, INFINITY, &coeffs);
        proof {
            let new_row = row_of(lower, INFINITY, coeffs@);
            assert(coeffs@ =~= seq![(t_c, ONE), (x_n, off)]);
            lemma_push_rows(base.rows, new_row);
            assert(leaf_row(g, classes@, arrival@, big_m, c as int, k as int, new_row));
        }
    }
    let ghost mid = model.lp().rows;
    let children: IndexSet<ClassId> = child_classes(egraph, nid);
    let n: usize = id_set_len(&children);
    let ghost order = id_set(children);
    let mut j: usize = 0;
    while j < n
        invariant
            egraph.wf(),
            g == *egraph,
            selection_placed(g, classes@, roles),
            arrival_placed(g, arrival@, roles),
            roles.len() == base.cols.len(),
            is_member(g, c as int, k as int),
            nid == member(g, c as int, k as int),
            nid < g.nodes@.len(),
            x_n == classes@[c as int].nodes@[k as int],
            x_n < roles.len(),
            t_c == arrival@[c as int],
            t_c < roles.len(),
            big_m > 0,
            off == -big_m,
            lower == minus(g.nodes@[nid as int].delay, big_m),
            order == id_set(children),
            j <= n == order.len(),
            forall|cc: ClassId| #[trigger] order.contains(cc) <==> g.depends(nid, cc),
            model.wf(),
            model.lp().cols == base.cols,
            model.lp().sense == base.sense,
            model.start() == old(model).start(),
            model.sent() == old(model).sent(),
            forall|row: RowModel| #[trigger]
                model.lp().rows.contains(row) <==> mid.contains(row) || exists|i: int|
                    0 <= i < j && after_row(
                        g,
                        classes@,
                        arrival@,
                        big_m,
                        c as int,
                        k as int,
                        #[trigger] order[i],
                        row,
                    ),
        decreases n - j,
    {
        if let Some(cc) = id_set_get_index(&children, j) {
            proof {
                assert(order.contains(cc));
                g.lemma_depends(nid, cc);
                assert(arrival@[cc as int] < roles.len());
            }
            // T_c - T_cc - M*x_n >= d_n - M
            let coeffs: Vec<(Col, Cost)> = vec![(t_c, ONE), (arrival[cc], MINUS_ONE), (x_n, off)];
            let ghost before = model.lp().rows;
            add_constraint(model, lower, INFINITY, &coeffs);
            proof {
                let new_row = row_of(lower, INFINITY, coeffs@);
                assert(coeffs@ =~= seq![
                    (t_c, ONE),
                    (arrival@[cc as int], MINUS_ONE),
                    (x_n, off),
                ]);
                assert(after_row(
                    g,
                    classes@,
                    arrival@,
                    big_m,
                    c as int,
                    k as int,
                    cc,
                    new_row,
                ));
                lemma_push_rows(before, new_row);
                assert forall|row: RowModel| #[trigger] model.lp().rows.contains(row)
                    <==> mid.contains(row) || exists|i: int|
                    0 <= i < j + 1 && after_row(
                        g,
                        classes@,
                        arrival@,
                        big_m,
                        c as int,
                        k as int,
                        #[trigger] order[i],
                        row,
                    ) by {
                    if row == new_row {
                        assert(after_row(
                            g,
                            classes@,
                            arrival@,
                            big_m,
                            c as int,
                            k as int,
                            order[j as int],
                            row,
                        ));
                    }
                    if before.contains(row) && !mid.contains(row) {
                        let i = choose|i: int|
                            0 <= i < j && after_row(
                                g,
                                classes@,
                                arrival@,
                                big_m,
                                c as int,
                                k as int,
                                #[trigger] order[i],
                                row,
                            );
                        assert(after_row(
                            g,
                            classes@,
                            arrival@,
                            big_m,
                            c as int,
                            k as int,
                            order[i],
                            row,
                        ));
                    }
                }
            }
        }
        j += 1;
    }
    proof {
        assert forall|row: RowModel| #[trigger] model.lp().rows.contains(row)
            <==> base.rows.contains(row) || leaf_row(
            g,
            classes@,
            arrival@,
            big_m,
            c as int,
            k as int,
            row,
        ) || exists|cc: ClassId| #[trigger]
            after_row(g, classes@, arrival@, big_m, c as int, k as int, cc, row) by {
            if exists|cc: ClassId| #[trigger]
                after_row(g, classes@, arrival@, big_m, c as int, k as int, cc, row) {
                let cc = choose|cc: ClassId| #[trigger]
                    after_row(g, classes@, arrival@, big_m, c as int, k as int, cc, row);
                assert(order.contains(cc));
                let i = choose|i: int| 0 <= i < order.len() && order[i] == cc;
                assert(after_row(
                    g,
                    classes@,
                    arrival@,
                    big_m,
                    c as int,
                    k as int,
                    order[i],
                    row,
                ));
            }
        }
    }
}

/// The timing rows of one class.
fn add_class_timing(
    model: &mut Staged,
    egraph: &EGraph,
    classes: &Vec<ClassVars>,
    arrival: &Vec<Col>,
    big_m: Cost,
    c: usize,
    Ghost(roles): Ghost<Seq<Role>>,
)
    requires
        egraph.wf(),
        old(model).wf(),
        selection_placed(*egraph, classes@, roles),
        arrival_placed(*egraph, arrival@, roles),
        roles.len() == old(model).lp().cols.len(),
        c < egraph.classes@.len(),
        big_m > 0,
    ensures
        final(model).wf(),
        final(model).lp().cols == old(model).lp().cols,
        final(model).lp().sense == old(model).lp().sense,
        final(model).start() == old(model).start(),
        final(model).sent() == old(model).sent(),
        forall|row: RowModel| #[trigger]
            final(model).lp().rows.contains(row) <==> old(model).lp().rows.contains(row)
                || timing_row(*egraph, classes@, arrival@, big_m, c as int, row),
{
    let ghost g = *egraph;
    let ghost base = model.lp();
    let n: usize = egraph.classes[c].nodes.len();
    let mut k: usize = 0;
    while k < n
        invariant
            egraph.wf(),
            g == *egraph,
            c < g.classes@.len(),
            big_m > 0,
            selection_placed(g, classes@, roles),
            arrival_placed(g, arrival@, roles),
            roles.len() == base.cols.len(),
            k <= n == members(g, c as int),
            model.wf(),
            model.lp().cols == base.cols,
            model.lp().sense == base.sense,
            model.start() == old(model).start(),
            model.sent() == old(model).sent(),
            forall|row: RowModel| #[trigger]
                model.lp().rows.contains(row) <==> base.rows.contains(row) || (exists|i: int|
                    i < k && #[trigger] leaf_row(g, classes@, arrival@, big_m, c as int, i, row))
                    || exists|i: int, cc: ClassId|
                    i < k && #[trigger] after_row(
                        g,
                        classes@,
                        arrival@,
                        big_m,
                        c as int,
                        i,
                        cc,
                        row,
                    ),
        decreases n - k,
    {
        let ghost before = model.lp().rows;
        add_node_timing(model, egraph, classes, arrival, big_m, c, k, Ghost(roles));
        proof {
            assert forall|row: RowModel| #[trigger] model.lp().rows.contains(row)
                <==> base.rows.contains(row) || (exists|i: int|
                i < k + 1 && #[trigger] leaf_row(g, classes@, arrival@, big_m, c as int, i, row))
                || exists|i: int, cc: ClassId|
                i < k + 1 && #[trigger] after_row(
                    g,
                    classes@,
                    arrival@,
                    big_m,
                    c as int,
                    i,
                    cc,
                    row,
                ) by {
                assert(before.contains(row) <==> base.rows.contains(row) || (exists|i: int|
                    i < k && #[trigger] leaf_row(g, classes@, arrival@, big_m, c as int, i, row))
                    || exists|i: int, cc: ClassId|
                    i < k && #[trigger] after_row(
                        g,
                        classes@,
                        arrival@,
                        big_m,
                        c as int,
                        i,
                        cc,
                        row,
                    ));
                if exists|i: int|
                    i < k + 1 && #[trigger] leaf_row(
                        g,
                        classes@,
                        arrival@,
                        big_m,
                        c as int,
                        i,
                        row,
                    ) {
                    let i = choose|i: int|
                        i < k + 1 && #[trigger] leaf_row(
                            g,
                            classes@,
                            arrival@,
                            big_m,
                            c as int,
                            i,
                            row,
                        );
                    if i != k {
                        assert(i < k && leaf_row(
                            g,
                            classes@,
                            arrival@,
                            big_m,
                            c as int,
                            i,
                            row,
                        ));
                    }
                }
                if exists|i: int, cc: ClassId|
                    i < k + 1 && #[trigger] after_row(
                        g,
                        classes@,
                        arrival@,
                        big_m,
                        c as int,
                        i,
                        cc,
                        row,
                    ) {
                    let (i, cc) = choose|i: int, cc: ClassId|
                        i < k + 1 && #[trigger] after_row(
                            g,
                            classes@,
                            arrival@,
                            big_m,
                            c as int,
                            i,
                            cc,
                            row,
                        );
                    if i != k {
                        assert(i < k && after_row(
                            g,
                            classes@,
                            arrival@,
                            big_m,
                            c as int,
                            i,
                            cc,
                            row,
                        ));
                    }
                }
            }
        }
        k += 1;
    }
    proof {
        assert forall|row: RowModel| #[trigger] model.lp().rows.contains(row)
            <==> base.rows.contains(row) || timing_row(
            g,
            classes@,
            arrival@,
            big_m,
            c as int,
            row,
        ) by {
            if exists|k: int| #[trigger]
                leaf_row(g, classes@, arrival@, big_m, c as int, k, row) {
                let k = choose|k: int| #[trigger]
                    leaf_row(g, classes@, arrival@, big_m, c as int, k, row);
                assert(k < n && leaf_row(g, classes@, arrival@, big_m, c as int, k, row));
            }
            if exists|k: int, cc: ClassId| #[trigger]
                after_row(g, classes@, arrival@, big_m, c as int, k, cc, row) {
                let (k, cc) = choose|k: int, cc: ClassId| #[trigger]
                    after_row(g, classes@, arrival@, big_m, c as int, k, cc, row);
                assert(k < n && after_row(g, classes@, arrival@, big_m, c as int, k, cc, row));
            }
        }
    }
}

/// The columns that [`add_depth`] adds behind the first `n0`.
pub open spec fn depth_cols_added(
    g: EGraph,
    requested: Option<Cost>,
    d: DepthVars,
    roles: Seq<Role>,
    cols: Seq<ColDef>,
    n0: nat,
) -> bool {
    forall|i: int|
        n0 <= i < roles.len() ==> match #[trigger] roles[i] {
            Role::Arrival(c) => c < g.classes@.len() && d.arrival@[c as int] == i && cols[i]
                == (ColDef { upper: cap_of(g, requested), ..fresh_col() }),
            Role::RootDepth => d.root_depth == Some(i as Col) && cols[i] == (ColDef {
                upper: total_delay(g),
                ..fresh_col()
            }),
            _ => false,
        }
}

/// The arrival columns and rows, and without a budget the depth of the roots.
fn add_depth(
    model: &mut Staged,
    egraph: &EGraph,
    roots: &[ClassId],
    classes: &Vec<ClassVars>,
    requested_budget: Option<Cost>,
    roles: &mut Ghost<Seq<Role>>,
) -> (r: DepthVars)
    requires
        egraph.wf(),
        roots_known(*egraph, roots@),
        old(model).wf(),
        selection_placed(*egraph, classes@, old(roles)@),
        old(roles)@.len() == old(model).lp().cols.len(),
    ensures
        final(model).wf(),
        final(model).lp().sense == old(model).lp().sense,
        final(model).start() == old(model).start(),
        final(model).sent() == old(model).sent(),
        final(model).lp().cols.len() == final(roles)@.len(),
        old(roles)@.len() <= final(roles)@.len(),
        forall|i: int|
            0 <= i < old(roles)@.len() ==> #[trigger] final(roles)@[i] == old(roles)@[i],
        forall|i: int|
            0 <= i < old(roles)@.len() ==> #[trigger] final(model).lp().cols[i]
                == old(model).lp().cols[i],
        arrival_placed(*egraph, r.arrival@, final(roles)@),
        root_depth_placed(r.root_depth, final(roles)@),
        depth_cols_added(
            *egraph,
            requested_budget,
            r,
            final(roles)@,
            final(model).lp().cols,
            old(roles)@.len(),
        ),
        r.cap == cap_of(*egraph, requested_budget),
        r.budget == clamped(*egraph, requested_budget),
        r.big_m == big_m_of(*egraph, requested_budget),
        r.root_depth is None <==> r.budget is Some,
        forall|row: RowModel| #[trigger]
            final(model).lp().rows.contains(row) <==> old(model).lp().rows.contains(row)
                || depth_row(*egraph, roots@, classes@, r, row),
{
    let ghost g = *egraph;
    let ghost base = model.lp();
    let ghost roles0 = roles@;
    let (s, d_max) = delay_figures(egraph);
    let budget: Option<Cost> = match requested_budget {
        Some(b) => Some(max_cost(min_cost(b, s), 0)),
        None => None,
    };
    let m: Cost = match budget {
        Some(b) => add_costs(b, d_max),
        None => add_costs(s, s),
    };
    let big_m: Cost = if m > 0 {
        m
    } else {
        ONE
    };
    let cap: Cost = match budget {
        Some(b) => b,
        None => s,
    };
    let n_classes: usize = egraph.classes.len();
    let mut arrival: Vec<Col> = Vec::new();
    let mut c: usize = 0;
    let ghost arrival_col = ColDef { upper: cap, ..fresh_col() };
    while c < n_classes
        invariant
            g == *egraph,
            c <= n_classes == g.classes@.len(),
            arrival@.len() == c,
            model.wf(),
            model.lp().rows == base.rows,
            model.lp().sense == base.sense,
            model.start() == old(model).start(),
            model.sent() == old(model).sent(),
            model.lp().cols.len() == roles@.len(),
            roles0.len() == base.cols.len(),
            roles@.len() == roles0.len() + c,
            arrival_col == (ColDef { upper: cap, ..fresh_col() }),
            forall|i: int| 0 <= i < roles0.len() ==> #[trigger] roles@[i] == roles0[i],
            forall|i: int|
                0 <= i < roles0.len() ==> #[trigger] model.lp().cols[i] == base.cols[i],
            forall|b: int|
                0 <= b < c ==> (#[trigger] arrival@[b]) == roles0.len() + b && roles@[arrival@[b] as int]
                    == Role::Arrival(b as ClassId),
            forall|i: int|
                roles0.len() <= i < roles@.len() ==> #[trigger] roles@[i] == Role::Arrival(
                    (i - roles0.len()) as ClassId,
                ) && model.lp().cols[i] == arrival_col,
        decreases n_classes - c,
    {
        let ghost before = model.lp().cols;
        let ghost roles1 = roles@;
        let v: Col = model.add_col();
        model.set_col_lower(v, 0);
        model.set_col_upper(v, cap);
        arrival.push(v);
        *roles = Ghost(roles1.push(Role::Arrival(c)));
        proof {
            assert(model.lp().cols =~= before.push(arrival_col));
            assert forall|i: int| roles0.len() <= i < roles@.len() implies #[trigger] roles@[i]
                == Role::Arrival((i - roles0.len()) as ClassId) && model.lp().cols[i]
                == arrival_col by {
                if i < roles1.len() {
                    assert(roles@[i] == roles1[i]);
                }
            }
            assert forall|i: int| 0 <= i < roles0.len() implies #[trigger] roles@[i]
                == roles0[i] by {
                assert(roles@[i] == roles1[i]);
            }
        }
        c += 1;
    }
    let ghost roles2 = roles@;
    proof {
        assert(arrival_placed(g, arrival@, roles2));
        assert(selection_placed(g, classes@, roles2));
    }
    let ghost timed = model.lp();
    let mut c: usize = 0;
    while c < n_classes
        invariant
            egraph.wf(),
            g == *egraph,
            c <= n_classes == g.classes@.len(),
            big_m > 0,
            selection_placed(g, classes@, roles2),
            arrival_placed(g, arrival@, roles2),
            roles2.len() == timed.cols.len(),
            timed.rows == base.rows,
            timed.sense == base.sense,
            model.wf(),
            model.lp().cols == timed.cols,
            model.lp().sense == timed.sense,
            model.start() == old(model).start(),
            model.sent() == old(model).sent(),
            forall|row: RowModel| #[trigger]
                model.lp().rows.contains(row) <==> base.rows.contains(row) || exists|b: int|
                    b < c && #[trigger] timing_row(g, classes@, arrival@, big_m, b, row),
        decreases n_classes - c,
    {
        let ghost before = model.lp().rows;
        add_class_timing(model, egraph, classes, &arrival, big_m, c, Ghost(roles2));
        proof {
            assert forall|row: RowModel| #[trigger] model.lp().rows.contains(row)
                <==> base.rows.contains(row) || exists|b: int|
                b < c + 1 && #[trigger] timing_row(g, classes@, arrival@, big_m, b, row) by {
                assert(before.contains(row) <==> base.rows.contains(row) || exists|b: int|
                    b < c && #[trigger] timing_row(g, classes@, arrival@, big_m, b, row));
                if exists|b: int|
                    b < c + 1 && #[trigger] timing_row(g, classes@, arrival@, big_m, b, row) {
                    let b = choose|b: int|
                        b < c + 1 && #[trigger] timing_row(g, classes@, arrival@, big_m, b, row);
                    if b != c {
                        assert(b < c && timing_row(g, classes@, arrival@, big_m, b, row));
                    }
                }
                if timing_row(g, classes@, arrival@, big_m, c as int, row) {
                    assert((c as int) < c + 1);
                }
            }
        }
        c += 1;
    }
    let ghost rows_timed = model.lp().rows;
    proof {
        assert forall|row: RowModel| #[trigger] rows_timed.contains(row) <==> base.rows.contains(
            row,
        ) || exists|b: int| #[trigger]
            timing_row(g, classes@, arrival@, big_m, b, row) by {
            if exists|b: int| #[trigger] timing_row(g, classes@, arrival@, big_m, b, row) {
                let b = choose|b: int| #[trigger]
                    timing_row(g, classes@, arrival@, big_m, b, row);
                assert(b < n_classes && timing_row(g, classes@, arrival@, big_m, b, row));
            }
        }
    }
    // A budget is enforced by the column caps alone; otherwise depth is in the
    // objective and needs `t >= T_root`.
    if budget.is_some() {
        let r: DepthVars = DepthVars { arrival, cap, budget, root_depth: None, big_m };
        proof {
            assert forall|row: RowModel| #[trigger] model.lp().rows.contains(row)
                <==> base.rows.contains(row) || depth_row(g, roots@, classes@, r, row) by {
                assert(r.arrival@ == arrival@);
                assert(r.big_m == big_m);
                assert(rows_timed.contains(row) <==> base.rows.contains(row) || exists|b: int|
                 #[trigger]
                    timing_row(g, classes@, arrival@, big_m, b, row));
            }
            assert(depth_cols_added(
                g,
                requested_budget,
                r,
                roles@,
                model.lp().cols,
                roles0.len(),
            )) by {
                assert forall|i: int| roles0.len() <= i < roles@.len() implies match #[trigger] roles@[i] {
                    Role::Arrival(c) => c < g.classes@.len() && r.arrival@[c as int] == i
                        && model.lp().cols[i] == (ColDef {
                        upper: cap_of(g, requested_budget),
                        ..fresh_col()
                    }),
                    _ => false,
                } by {
                    let c = i - roles0.len();
                    assert(r.arrival@[c] == roles0.len() + c);
                }
            }
        }
        return r;
    }
    let ghost cols2 = model.lp().cols;
    let t: Col = model.add_col();
    model.set_col_lower(t, 0);
    model.set_col_upper(t, s);
    *roles = Ghost(roles2.push(Role::RootDepth));
    let ghost root_col = ColDef { upper: s, ..fresh_col() };
    proof {
        assert(model.lp().cols =~= cols2.push(root_col));
    }
    let ghost rooted = model.lp();
    let mut i: usize = 0;
    while i < roots.len()
        invariant
            g == *egraph,
            roots_known(g, roots@),
            arrival_placed(g, arrival@, roles2),
            t == roles2.len(),
            rooted.cols.len() == roles2.len() + 1,
            i <= roots@.len(),
            model.wf(),
            model.lp().cols == rooted.cols,
            model.lp().sense == rooted.sense,
            model.start() == old(model).start(),
            model.sent() == old(model).sent(),
            forall|row: RowModel| #[trigger]
                model.lp().rows.contains(row) <==> rows_timed.contains(row) || exists|k: int|
                    k < i && #[trigger] root_row(roots@, arrival@, t, k, row),
        decreases roots@.len() - i,
    {
        let root: ClassId = roots[i];
        // t - T_root >= 0
        let coeffs: Vec<(Col, Cost)> = vec![(t, ONE), (arrival[root], MINUS_ONE)];
        let ghost before = model.lp().rows;
        proof {
            assert(arrival@[root as int] < roles2.len());
        }
        add_constraint(model, 0, INFINITY, &coeffs);
        proof {
            let new_row = row_of(0, INFINITY, coeffs@);
            assert(coeffs@ =~= seq![(t, ONE), (arrival@[roots@[i as int] as int], MINUS_ONE)]);
            assert(root_row(roots@, arrival@, t, i as int, new_row));
            lemma_push_rows(before, new_row);
            assert forall|row: RowModel| #[trigger] model.lp().rows.contains(row)
                <==> rows_timed.contains(row) || exists|k: int|
                k < i + 1 && #[trigger] root_row(roots@, arrival@, t, k, row) by {
                if row == new_row {
                    assert((i as int) < i + 1 && root_row(roots@, arrival@, t, i as int, row));
                }
                if exists|k: int| k < i + 1 && #[trigger] root_row(roots@, arrival@, t, k, row) {
                    let k = choose|k: int|
                        k < i + 1 && #[trigger] root_row(roots@, arrival@, t, k, row);
                    if k != i {
                        assert(k < i && root_row(roots@, arrival@, t, k, row));
                    }
                }
                if before.contains(row) && !rows_timed.contains(row) {
                    let k = choose|k: int|
                        k < i && #[trigger] root_row(roots@, arrival@, t, k, row);
                    assert(k < i + 1 && root_row(roots@, arrival@, t, k, row));
                }
            }
        }
        i += 1;
    }
    let r: DepthVars = DepthVars { arrival, cap, budget, root_depth: Some(t), big_m };
    proof {
        assert forall|row: RowModel| #[trigger] model.lp().rows.contains(row)
            <==> base.rows.contains(row) || depth_row(g, roots@, classes@, r, row) by {
            assert(r.arrival@ == arrival@);
            assert(r.big_m == big_m);
            assert(rows_timed.contains(row) <==> base.rows.contains(row) || exists|b: int|
             #[trigger]
                timing_row(g, classes@, arrival@, big_m, b, row));
            assert(model.lp().rows.contains(row) <==> rows_timed.contains(row) || exists|k: int|
                k < i && #[trigger] root_row(roots@, arrival@, t, k, row));
            if exists|k: int| k < i && #[trigger] root_row(roots@, arrival@, t, k, row) {
                let k = choose|k: int| k < i && #[trigger] root_row(roots@, arrival@, t, k, row);
                assert(root_row(roots@, r.arrival@, t, k, row));
            }
            if exists|k: int| #[trigger] root_row(roots@, r.arrival@, t, k, row) {
                let k = choose|k: int| #[trigger] root_row(roots@, r.arrival@, t, k, row);
                assert(k < i && root_row(roots@, arrival@, t, k, row));
            }
        }
        assert forall|j: int| 0 <= j < roles2.len() implies #[trigger] roles@[j] == roles2[j]
            && model.lp().cols[j] == cols2[j] by {}
        assert(depth_cols_added(g, requested_budget, r, roles@, model.lp().cols, roles0.len())) by {
            assert forall|j: int| roles0.len() <= j < roles@.len() implies match #[trigger] roles@[j] {
                Role::Arrival(c) => c < g.classes@.len() && r.arrival@[c as int] == j
                    && model.lp().cols[j] == (ColDef {
                    upper: cap_of(g, requested_budget),
                    ..fresh_col()
                }),
                Role::RootDepth => r.root_depth == Some(j as Col) && model.lp().cols[j] == (ColDef {
                    upper: total_delay(g),
                    ..fresh_col()
                }),
                _ => false,
            } by {
                if j < roles2.len() {
                    assert(roles@[j] == roles2[j]);
                    let c = j - roles0.len();
                    assert(r.arrival@[c] == roles0.len() + c);
                }
            }
        }
        assert(arrival_placed(g, r.arrival@, roles@)) by {
            assert forall|c: int| 0 <= c < r.arrival@.len() implies (#[trigger] r.arrival@[c])
                < roles@.len() && roles@[r.arrival@[c] as int] == Role::Arrival(c as ClassId) by {
                assert(roles@[r.arrival@[c] as int] == roles2[r.arrival@[c] as int]);
            }
        }
    }
    r
}

/// What [`block_cycles`] adds behind the first `n0` columns.
pub open spec fn cycle_cols_added(
    g: EGraph,
    levels: Seq<Col>,
    opposite: Seq<Vec<Col>>,
    roles: Seq<Role>,
    cols: Seq<ColDef>,
    n0: nat,
) -> bool {
    forall|i: int|
        n0 <= i < roles.len() ==> match #[trigger] roles[i] {
            Role::Level(c) => c < g.classes@.len() && levels[c as int] == i && cols[i]
                == fresh_col(),
            Role::Opposite(c, k) => is_member(g, c as int, k as int)
                && opposite[c as int]@[k as int] == i && cols[i] == fresh_binary(),
            _ => false,
        }
}

/// One level column per class.
fn add_levels(model: &mut Staged, egraph: &EGraph, roles: &mut Ghost<Seq<Role>>) -> (r: Vec<Col>)
    requires
        old(model).wf(),
        old(roles)@.len() == old(model).lp().cols.len(),
    ensures
        final(model).wf(),
        final(model).lp().rows == old(model).lp().rows,
        final(model).lp().sense == old(model).lp().sense,
        final(model).start() == old(model).start(),
        final(model).sent() == old(model).sent(),
        final(model).lp().cols.len() == final(roles)@.len(),
        old(roles)@.len() <= final(roles)@.len(),
        forall|i: int|
            0 <= i < old(roles)@.len() ==> #[trigger] final(roles)@[i] == old(roles)@[i],
        forall|i: int|
            0 <= i < old(roles)@.len() ==> #[trigger] final(model).lp().cols[i]
                == old(model).lp().cols[i],
        levels_placed(*egraph, r@, final(roles)@),
        forall|i: int|
            old(roles)@.len() <= i < final(roles)@.len() ==> match #[trigger] final(roles)@[i] {
                Role::Level(c) => c < egraph.classes@.len() && r@[c as int] == i
                    && final(model).lp().cols[i] == fresh_col(),
                _ => false,
            },
{
    let ghost g = *egraph;
    let ghost base = model.lp();
    let ghost roles0 = roles@;
    let n_classes: usize = egraph.classes.len();
    let mut levels: Vec<Col> = Vec::new();
    let mut c: usize = 0;
    while c < n_classes
        invariant
            g == *egraph,
            c <= n_classes == g.classes@.len(),
            levels@.len() == c,
            model.wf(),
            model.lp().rows == base.rows,
            model.lp().sense == base.sense,
            model.start() == old(model).start(),
            model.sent() == old(model).sent(),
            model.lp().cols.len() == roles@.len(),
            roles0.len() == base.cols.len(),
            roles@.len() == roles0.len() + c,
            forall|i: int| 0 <= i < roles0.len() ==> #[trigger] roles@[i] == roles0[i],
            forall|i: int|
                0 <= i < roles0.len() ==> #[trigger] model.lp().cols[i] == base.cols[i],
            forall|b: int| 0 <= b < c ==> (#[trigger] levels@[b]) == roles0.len() + b,
            forall|i: int|
                roles0.len() <= i < roles@.len() ==> #[trigger] roles@[i] == Role::Level(
                    (i - roles0.len()) as ClassId,
                ) && model.lp().cols[i] == fresh_col(),
        decreases n_classes - c,
    {
        let ghost roles1 = roles@;
        let v: Col = model.add_col();
        levels.push(v);
        *roles = Ghost(roles1.push(Role::Level(c)));
        proof {
            assert forall|i: int| roles0.len() <= i < roles@.len() implies #[trigger] roles@[i]
                == Role::Level((i - roles0.len()) as ClassId) && model.lp().cols[i]
                == fresh_col() by {
                if i < roles1.len() {
                    assert(roles@[i] == roles1[i]);
                }
            }
            assert forall|i: int| 0 <= i < roles0.len() implies #[trigger] roles@[i]
                == roles0[i] by {
                assert(roles@[i] == roles1[i]);
            }
        }
        c += 1;
    }
    proof {
        assert forall|i: int| roles0.len() <= i < roles@.len() implies match #[trigger] roles@[i] {
            Role::Level(c) => c < g.classes@.len() && levels@[c as int] == i
                && model.lp().cols[i] == fresh_col(),
            _ => false,
        } by {
            let c = i - roles0.len();
            assert(levels@[c] == roles0.len() + c);
        }
    }
    levels
}

/// The switch column and row of every member.
fn add_switches(
    model: &mut Staged,
    egraph: &EGraph,
    classes: &Vec<ClassVars>,
    roles: &mut Ghost<Seq<Role>>,
) -> (r: Vec<Vec<Col>>)
    requires
        egraph.wf(),
        old(model).wf(),
        selection_placed(*egraph, classes@, old(roles)@),
        old(roles)@.len() == old(model).lp().cols.len(),
    ensures
        final(model).wf(),
        final(model).lp().sense == old(model).lp().sense,
        final(model).start() == old(model).start(),
        final(model).sent() == old(model).sent(),
        final(model).lp().cols.len() == final(roles)@.len(),
        old(roles)@.len() <= final(roles)@.len(),
        forall|i: int|
            0 <= i < old(roles)@.len() ==> #[trigger] final(roles)@[i] == old(roles)@[i],
        forall|i: int|
            0 <= i < old(roles)@.len() ==> #[trigger] final(model).lp().cols[i]
                == old(model).lp().cols[i],
        opposite_placed(*egraph, r@, final(roles)@),
        forall|i: int|
            old(roles)@.len() <= i < final(roles)@.len() ==> match #[trigger] final(roles)@[i] {
                Role::Opposite(c, k) => is_member(*egraph, c as int, k as int)
                    && r@[c as int]@[k as int] == i && final(model).lp().cols[i] == fresh_binary(),
                _ => false,
            },
        forall|row: RowModel| #[trigger]
            final(model).lp().rows.contains(row) <==> old(model).lp().rows.contains(row) || exists|
                c: int,
                k: int,
            | #[trigger]
                switch_row(*egraph, classes@, r@, c, k, row),
{
    let ghost g = *egraph;
    let ghost base = model.lp();
    let ghost roles0 = roles@;
    let mut opposite: Vec<Vec<Col>> = Vec::new();
    let n_classes: usize = egraph.classes.len();
    let mut c: usize = 0;
    while c < n_classes
        invariant
            egraph.wf(),
            g == *egraph,
            selection_placed(g, classes@, roles0),
            roles0.len() == base.cols.len(),
            c <= n_classes == g.classes@.len(),
            opposite@.len() == c,
            model.wf(),
            model.lp().sense == base.sense,
            model.start() == old(model).start(),
            model.sent() == old(model).sent(),
            model.lp().cols.len() == roles@.len(),
            roles0.len() <= roles@.len(),
            forall|i: int| 0 <= i < roles0.len() ==> #[trigger] roles@[i] == roles0[i],
            forall|i: int|
                0 <= i < roles0.len() ==> #[trigger] model.lp().cols[i] == base.cols[i],
            forall|b: int| 0 <= b < c ==> (#[trigger] opposite@[b])@.len() == members(g, b),
            forall|b: int, k: int|
                b < c && is_member(g, b, k) ==> (#[trigger] opposite@[b]@[k]) < roles@.len()
                    && roles@[opposite@[b]@[k] as int] == Role::Opposite(b as ClassId, k as usize),
            forall|i: int|
                roles0.len() <= i < roles@.len() ==> match #[trigger] roles@[i] {
                    Role::Opposite(b, k) => b < c && is_member(g, b as int, k as int)
                        && opposite@[b as int]@[k as int] == i && model.lp().cols[i]
                        == fresh_binary(),
                    _ => false,
                },
            forall|row: RowModel| #[trigger]
                model.lp().rows.contains(row) <==> base.rows.contains(row) || exists|
                    b: int,
                    k: int,
                |
                    b < c && #[trigger] switch_row(g, classes@, opposite@, b, k, row),
        decreases n_classes - c,
    {
        let ghost roles1 = roles@;
        let ghost rows1 = model.lp().rows;
        let ghost cols1 = model.lp().cols;
        let ghost opposite1 = opposite@;
        let mut switches: Vec<Col> = Vec::new();
        let n_members: usize = egraph.classes[c].nodes.len();
        let mut k: usize = 0;
        while k < n_members
            invariant
                egraph.wf(),
                g == *egraph,
                selection_placed(g, classes@, roles0),
                roles0.len() <= roles1.len(),
                c < n_classes == g.classes@.len(),
                n_members == members(g, c as int),
                k <= n_members,
                switches@.len() == k,
                model.wf(),
                model.lp().sense == base.sense,
                model.start() == old(model).start(),
                model.sent() == old(model).sent(),
                model.lp().cols.len() == roles@.len(),
                cols1.len() == roles1.len(),
                roles@.len() == roles1.len() + k,
                forall|i: int| 0 <= i < roles1.len() ==> #[trigger] roles@[i] == roles1[i],
                forall|i: int|
                    0 <= i < roles1.len() ==> #[trigger] model.lp().cols[i] == cols1[i],
                forall|q: int| 0 <= q < k ==> (#[trigger] switches@[q]) == roles1.len() + q,
                forall|i: int|
                    roles1.len() <= i < roles@.len() ==> #[trigger] roles@[i] == Role::Opposite(
                        c,
                        (i - roles1.len()) as usize,
                    ) && model.lp().cols[i] == fresh_binary(),
                forall|row: RowModel| #[trigger]
                    model.lp().rows.contains(row) <==> rows1.contains(row) || exists|q: int|
                        0 <= q < k && row == row_of(
                            ONE,
                            ONE,
                            seq![
                                (#[trigger] switches@[q], ONE),
                                (classes@[c as int].nodes@[q], ONE),
                            ],
                        ),
            decreases n_members - k,
        {
            let ghost roles2 = roles@;
            let ghost switches0 = switches@;
            let col: Col = model.add_binary();
            switches.push(col);
            *roles = Ghost(roles2.push(Role::Opposite(c, k)));
            proof {
                assert(is_member(g, c as int, k as int));
                assert(classes@[c as int].nodes@[k as int] < roles0.len());
            }
            let coeffs: Vec<(Col, Cost)> = vec![(col, ONE), (classes[c].nodes[k], ONE)];
            let ghost before = model.lp().rows;
            add_constraint(model, ONE, ONE, &coeffs);
            proof {
                let new_row = row_of(ONE, ONE, coeffs@);
                assert(coeffs@ =~= seq![
                    (switches@[k as int], ONE),
                    (classes@[c as int].nodes@[k as int], ONE),
                ]);
                lemma_push_rows(before, new_row);
                assert forall|row: RowModel| #[trigger] model.lp().rows.contains(row)
                    <==> rows1.contains(row) || exists|q: int|
                    0 <= q < k + 1 && row == row_of(
                        ONE,
                        ONE,
                        seq![(#[trigger] switches@[q], ONE), (classes@[c as int].nodes@[q], ONE)],
                    ) by {
                    if before.contains(row) && !rows1.contains(row) {
                        let q = choose|q: int|
                            0 <= q < k && row == row_of(
                                ONE,
                                ONE,
                                seq![
                                    (#[trigger] switches0[q], ONE),
                                    (classes@[c as int].nodes@[q], ONE),
                                ],
                            );
                        assert(switches@[q] == switches0[q]);
                    }
                    if exists|q: int|
                        0 <= q < k + 1 && row == row_of(
                            ONE,
                            ONE,
                            seq![
                                (#[trigger] switches@[q], ONE),
                                (classes@[c as int].nodes@[q], ONE),
                            ],
                        ) {
                        let q = choose|q: int|
                            0 <= q < k + 1 && row == row_of(
                                ONE,
                                ONE,
                                seq![
                                    (#[trigger] switches@[q], ONE),
                                    (classes@[c as int].nodes@[q], ONE),
                                ],
                            );
                        if q < k {
                            assert(switches0[q] == switches@[q]);
                        }
                    }
                    if row == new_row {
                        assert(switches@[k as int] == col);
                    }
                }
                assert forall|i: int|
                    roles1.len() <= i < roles@.len() implies #[trigger] roles@[i]
                    == Role::Opposite(c, (i - roles1.len()) as usize) && model.lp().cols[i]
                    == fresh_binary() by {
                    if i < roles2.len() {
                        assert(roles@[i] == roles2[i]);
                    }
                }
                assert forall|i: int| 0 <= i < roles1.len() implies #[trigger] roles@[i]
                    == roles1[i] by {
                    assert(roles@[i] == roles2[i]);
                }
            }
            k += 1;
        }
        opposite.push(switches);
        proof {
            assert forall|b: int| 0 <= b < c implies opposite@[b] == opposite1[b] by {}
            assert forall|b: int, k: int| b < c + 1 && is_member(g, b, k) implies (
            #[trigger] opposite@[b]@[k]) < roles@.len() && roles@[opposite@[b]@[k] as int]
                == Role::Opposite(b as ClassId, k as usize) by {
                if b < c {
                    assert(opposite1[b]@[k] < roles1.len());
                    assert(roles@[opposite1[b]@[k] as int] == roles1[opposite1[b]@[k] as int]);
                } else {
                    assert(opposite@[b]@[k] == roles1.len() + k);
                }
            }
            assert forall|i: int| roles0.len() <= i < roles@.len() implies match #[trigger] roles@[i] {
                Role::Opposite(b, k) => b < c + 1 && is_member(g, b as int, k as int)
                    && opposite@[b as int]@[k as int] == i && model.lp().cols[i] == fresh_binary(),
                _ => false,
            } by {
                if i < roles1.len() {
                    assert(roles@[i] == roles1[i]);
                    assert(model.lp().cols[i] == cols1[i]);
                } else {
                    let k = i - roles1.len();
                    assert(opposite@[c as int]@[k] == roles1.len() + k);
                }
            }
            assert forall|i: int| 0 <= i < roles0.len() implies #[trigger] roles@[i] == roles0[i]
                && model.lp().cols[i] == base.cols[i] by {
                assert(roles@[i] == roles1[i]);
                assert(model.lp().cols[i] == cols1[i]);
            }
            assert forall|row: RowModel| #[trigger] model.lp().rows.contains(row)
                <==> base.rows.contains(row) || exists|b: int, k: int|
                b < c + 1 && #[trigger] switch_row(g, classes@, opposite@, b, k, row) by {
                assert(rows1.contains(row) <==> base.rows.contains(row) || exists|b: int, k: int|
                    b < c && #[trigger] switch_row(g, classes@, opposite1, b, k, row));
                if rows1.contains(row) && !base.rows.contains(row) {
                    let (b, k) = choose|b: int, k: int|
                        b < c && #[trigger] switch_row(g, classes@, opposite1, b, k, row);
                    assert(switch_row(g, classes@, opposite@, b, k, row));
                }
                if model.lp().rows.contains(row) && !rows1.contains(row) {
                    let q = choose|q: int|
                        0 <= q < n_members && row == row_of(
                            ONE,
                            ONE,
                            seq![
                                (#[trigger] switches@[q], ONE),
                                (classes@[c as int].nodes@[q], ONE),
                            ],
                        );
                    assert(switch_row(g, classes@, opposite@, c as int, q, row));
                }
                if exists|b: int, k: int|
                    b < c + 1 && #[trigger] switch_row(g, classes@, opposite@, b, k, row) {
                    let (b, k) = choose|b: int, k: int|
                        b < c + 1 && #[trigger] switch_row(g, classes@, opposite@, b, k, row);
                    if b < c {
                        assert(switch_row(g, classes@, opposite1, b, k, row));
                    } else {
                        assert(switches@[k] == opposite@[c as int]@[k]);
                    }
                }
            }
        }
        c += 1;
    }
    proof {
        assert forall|row: RowModel| #[trigger] model.lp().rows.contains(row)
            <==> base.rows.contains(row) || exists|b: int, k: int| #[trigger]
            switch_row(g, classes@, opposite@, b, k, row) by {
            if exists|b: int, k: int| #[trigger] switch_row(g, classes@, opposite@, b, k, row) {
                let (b, k) = choose|b: int, k: int| #[trigger]
                    switch_row(g, classes@, opposite@, b, k, row);
                assert(b < c && switch_row(g, classes@, opposite@, b, k, row));
            }
        }
    }
    opposite
}

/// The rows that keep one node off cycles.
fn add_node_order(
    model: &mut Staged,
    egraph: &EGraph,
    classes: &Vec<ClassVars>,
    cycles: &CycleVars,
    c: usize,
    k: usize,
    Ghost(roles): Ghost<Seq<Role>>,
)
    requires
        egraph.wf(),
        old(model).wf(),
        selection_placed(*egraph, classes@, roles),
        levels_placed(*egraph, cycles.levels@, roles),
        opposite_placed(*egraph, cycles.opposite@, roles),
        roles.len() == old(model).lp().cols.len(),
        is_member(*egraph, c as int, k as int),
    ensures
        final(model).wf(),
        final(model).lp().cols == old(model).lp().cols,
        final(model).lp().sense == old(model).lp().sense,
        final(model).start() == old(model).start(),
        final(model).sent() == old(model).sent(),
        forall|row: RowModel| #[trigger]
            final(model).lp().rows.contains(row) <==> old(model).lp().rows.contains(row)
                || loop_row(*egraph, classes@, c as int, k as int, row) || exists|cc: ClassId|
             #[trigger]
                level_row(
                    *egraph,
                    classes@,
                    cycles.levels@,
                    cycles.opposite@,
                    c as int,
                    k as int,
                    cc,
                    row,
                ),
{
    let ghost g = *egraph;
    let ghost base = model.lp();
    let ghost levels = cycles.levels@;
    let ghost opposite = cycles.opposite@;
    proof {
        lemma_member(g, c as int, k as int);
        assert(classes@[c as int].nodes@[k as int] < roles.len());
        assert(levels[c as int] < roles.len());
        assert(opposite[c as int]@[k as int] < roles.len());
    }
    let nid: NodeId = egraph.classes[c].nodes[k];
    let x_n: Col = classes[c].nodes[k];
    let children: IndexSet<ClassId> = child_classes(egraph, nid);
    if crate::collections::id_set_contains(&children, c) {
        // A node below itself is disabled by a row: where the class is a root
        // the model is then infeasible, rather than wrong.
        let coeffs: Vec<(Col, Cost)> = vec![(x_n, ONE)];
        add_constraint(model, 0, 0, &coeffs);
        proof {
            assert(id_set(children).contains(c));
            let new_row = row_of(0, 0, coeffs@);
            assert(coeffs@ =~= seq![(x_n, ONE)]);
            lemma_push_rows(base.rows, new_row);
            assert(loop_row(g, classes@, c as int, k as int, new_row));
        }
        return ;
    }
    proof {
        assert(!id_set(children).contains(c));
    }
    let n_classes: usize = egraph.classes.len();
    let step: Cost = saturate_wide((n_classes as i128 + 1) * 1_000_000);
    let n: usize = id_set_len(&children);
    let ghost order = id_set(children);
    let mut j: usize = 0;
    while j < n
        invariant
            egraph.wf(),
            g == *egraph,
            levels == cycles.levels@,
            opposite == cycles.opposite@,
            selection_placed(g, classes@, roles),
            levels_placed(g, levels, roles),
            opposite_placed(g, opposite, roles),
            roles.len() == base.cols.len(),
            is_member(g, c as int, k as int),
            nid == member(g, c as int, k as int),
            nid < g.nodes@.len(),
            levels[c as int] < roles.len(),
            opposite[c as int]@[k as int] < roles.len(),
            step == level_step(g),
            !g.depends(nid, c),
            order == id_set(children),
            j <= n == order.len(),
            forall|cc: ClassId| #[trigger] order.contains(cc) <==> g.depends(nid, cc),
            model.wf(),
            model.lp().cols == base.cols,
            model.lp().sense == base.sense,
            model.start() == old(model).start(),
            model.sent() == old(model).sent(),
            forall|row: RowModel| #[trigger]
                model.lp().rows.contains(row) <==> base.rows.contains(row) || exists|i: int|
                    0 <= i < j && level_row(
                        g,
                        classes@,
                        levels,
                        opposite,
                        c as int,
                        k as int,
                        #[trigger] order[i],
                        row,
                    ),
        decreases n - j,
    {
        if let Some(cc) = id_set_get_index(&children, j) {
            proof {
                assert(order.contains(cc));
                g.lemma_depends(nid, cc);
                assert(levels[cc as int] < roles.len());
            }
            let coeffs: Vec<(Col, Cost)> = vec![
                (cycles.levels[c], MINUS_ONE),
                (cycles.levels[cc], ONE),
                (cycles.opposite[c][k], step),
            ];
            let ghost before = model.lp().rows;
            add_constraint(model, ONE, INFINITY, &coeffs);
            proof {
                let new_row = row_of(ONE, INFINITY, coeffs@);
                assert(coeffs@ =~= seq![
                    (levels[c as int], MINUS_ONE),
                    (levels[cc as int], ONE),
                    (opposite[c as int]@[k as int], level_step(g)),
                ]);
                assert(level_row(
                    g,
                    classes@,
                    levels,
                    opposite,
                    c as int,
                    k as int,
                    cc,
                    new_row,
                ));
                lemma_push_rows(before, new_row);
                assert forall|row: RowModel| #[trigger] model.lp().rows.contains(row)
                    <==> base.rows.contains(row) || exists|i: int|
                    0 <= i < j + 1 && level_row(
                        g,
                        classes@,
                        levels,
                        opposite,
                        c as int,
                        k as int,
                        #[trigger] order[i],
                        row,
                    ) by {
                    if row == new_row {
                        assert(order[j as int] == cc);
                    }
                    if before.contains(row) && !base.rows.contains(row) {
                        let i = choose|i: int|
                            0 <= i < j && level_row(
                                g,
                                classes@,
                                levels,
                                opposite,
                                c as int,
                                k as int,
                                #[trigger] order[i],
                                row,
                            );
                        assert(0 <= i < j + 1 && level_row(
                            g,
                            classes@,
                            levels,
                            opposite,
                            c as int,
                            k as int,
                            order[i],
                            row,
                        ));
                    }
                }
            }
        }
        j += 1;
    }
    proof {
        assert forall|row: RowModel| #[trigger] model.lp().rows.contains(row)
            <==> base.rows.contains(row) || loop_row(g, classes@, c as int, k as int, row)
            || exists|cc: ClassId| #[trigger]
            level_row(g, classes@, levels, opposite, c as int, k as int, cc, row) by {
            if exists|cc: ClassId| #[trigger]
                level_row(g, classes@, levels, opposite, c as int, k as int, cc, row) {
                let cc = choose|cc: ClassId| #[trigger]
                    level_row(g, classes@, levels, opposite, c as int, k as int, cc, row);
                assert(order.contains(cc));
                let i = choose|i: int| 0 <= i < order.len() && order[i] == cc;
                assert(level_row(
                    g,
                    classes@,
                    levels,
                    opposite,
                    c as int,
                    k as int,
                    order[i],
                    row,
                ));
            }
        }
    }
}

/// The rows that keep one class off cycles.
fn add_class_order(
    model: &mut Staged,
    egraph: &EGraph,
    classes: &Vec<ClassVars>,
    cycles: &CycleVars,
    c: usize,
    Ghost(roles): Ghost<Seq<Role>>,
)
    requires
        egraph.wf(),
        old(model).wf(),
        selection_placed(*egraph, classes@, roles),
        levels_placed(*egraph, cycles.levels@, roles),
        opposite_placed(*egraph, cycles.opposite@, roles),
        roles.len() == old(model).lp().cols.len(),
        c < egraph.classes@.len(),
    ensures
        final(model).wf(),
        final(model).lp().cols == old(model).lp().cols,
        final(model).lp().sense == old(model).lp().sense,
        final(model).start() == old(model).start(),
        final(model).sent() == old(model).sent(),
        forall|row: RowModel| #[trigger]
            final(model).lp().rows.contains(row) <==> old(model).lp().rows.contains(row)
                || order_row(
                *egraph,
                classes@,
                cycles.levels@,
                cycles.opposite@,
                c as int,
                row,
            ),
{
    let ghost g = *egraph;
    let ghost base = model.lp();
    let ghost levels = cycles.levels@;
    let ghost opposite = cycles.opposite@;
    let n: usize = egraph.classes[c].nodes.len();
    let mut k: usize = 0;
    while k < n
        invariant
            egraph.wf(),
            g == *egraph,
            levels == cycles.levels@,
            opposite == cycles.opposite@,
            c < g.classes@.len(),
            selection_placed(g, classes@, roles),
            levels_placed(g, levels, roles),
            opposite_placed(g, opposite, roles),
            roles.len() == base.cols.len(),
            k <= n == members(g, c as int),
            model.wf(),
            model.lp().cols == base.cols,
            model.lp().sense == base.sense,
            model.start() == old(model).start(),
            model.sent() == old(model).sent(),
            forall|row: RowModel| #[trigger]
                model.lp().rows.contains(row) <==> base.rows.contains(row) || (exists|i: int|
                    i < k && #[trigger] loop_row(g, classes@, c as int, i, row)) || exists|
                    i: int,
                    cc: ClassId,
                |
                    i < k && #[trigger] level_row(
                        g,
                        classes@,
                        levels,
                        opposite,
                        c as int,
                        i,
                        cc,
                        row,
                    ),
        decreases n - k,
    {
        let ghost before = model.lp().rows;
        add_node_order(model, egraph, classes, cycles, c, k, Ghost(roles));
        proof {
            assert forall|row: RowModel| #[trigger] model.lp().rows.contains(row)
                <==> base.rows.contains(row) || (exists|i: int|
                i < k + 1 && #[trigger] loop_row(g, classes@, c as int, i, row)) || exists|
                i: int,
                cc: ClassId,
            |
                i < k + 1 && #[trigger] level_row(
                    g,
                    classes@,
                    levels,
                    opposite,
                    c as int,
                    i,
                    cc,
                    row,
                ) by {
                assert(before.contains(row) <==> base.rows.contains(row) || (exists|i: int|
                    i < k && #[trigger] loop_row(g, classes@, c as int, i, row)) || exists|
                    i: int,
                    cc: ClassId,
                |
                    i < k && #[trigger] level_row(
                        g,
                        classes@,
                        levels,
                        opposite,
                        c as int,
                        i,
                        cc,
                        row,
                    ));
                if exists|i: int|
                    i < k + 1 && #[trigger] loop_row(g, classes@, c as int, i, row) {
                    let i = choose|i: int|
                        i < k + 1 && #[trigger] loop_row(g, classes@, c as int, i, row);
                    if i != k {
                        assert(i < k && loop_row(g, classes@, c as int, i, row));
                    }
                }
                if exists|i: int, cc: ClassId|
                    i < k + 1 && #[trigger] level_row(
                        g,
                        classes@,
                        levels,
                        opposite,
                        c as int,
                        i,
                        cc,
                        row,
                    ) {
                    let (i, cc) = choose|i: int, cc: ClassId|
                        i < k + 1 && #[trigger] level_row(
                            g,
                            classes@,
                            levels,
                            opposite,
                            c as int,
                            i,
                            cc,
                            row,
                        );
                    if i != k {
                        assert(i < k && level_row(
                            g,
                            classes@,
                            levels,
                            opposite,
                            c as int,
                            i,
                            cc,
                            row,
                        ));
                    }
                }
            }
        }
        k += 1;
    }
    proof {
        assert forall|row: RowModel| #[trigger] model.lp().rows.contains(row)
            <==> base.rows.contains(row) || order_row(
            g,
            classes@,
            levels,
            opposite,
            c as int,
            row,
        ) by {
            if exists|k: int| #[trigger] loop_row(g, classes@, c as int, k, row) {
                let k = choose|k: int| #[trigger] loop_row(g, classes@, c as int, k, row);
                assert(k < n && loop_row(g, classes@, c as int, k, row));
            }
            if exists|k: int, cc: ClassId| #[trigger]
                level_row(g, classes@, levels, opposite, c as int, k, cc, row) {
                let (k, cc) = choose|k: int, cc: ClassId| #[trigger]
                    level_row(g, classes@, levels, opposite, c as int, k, cc, row);
                assert(k < n && level_row(
                    g,
                    classes@,
                    levels,
                    opposite,
                    c as int,
                    k,
                    cc,
                    row,
                ));
            }
        }
    }
}

/// Blocks cycles by enforcing that a topological ordering exists on the
/// extraction: every class has a level, and if a node is selected, the level
/// of its class is below the level of each of its children. Around a cycle the
/// levels would have to rise for ever.
fn block_cycles(
    model: &mut Staged,
    egraph: &EGraph,
    classes: &Vec<ClassVars>,
    roles: &mut Ghost<Seq<Role>>,
) -> (r: CycleVars)
    requires
        egraph.wf(),
        old(model).wf(),
        selection_placed(*egraph, classes@, old(roles)@),
        old(roles)@.len() == old(model).lp().cols.len(),
    ensures
        final(model).wf(),
        final(model).lp().sense == old(model).lp().sense,
        final(model).start() == old(model).start(),
        final(model).sent() == old(model).sent(),
        final(model).lp().cols.len() == final(roles)@.len(),
        old(roles)@.len() <= final(roles)@.len(),
        forall|i: int|
            0 <= i < old(roles)@.len() ==> #[trigger] final(roles)@[i] == old(roles)@[i],
        forall|i: int|
            0 <= i < old(roles)@.len() ==> #[trigger] final(model).lp().cols[i]
                == old(model).lp().cols[i],
        levels_placed(*egraph, r.levels@, final(roles)@),
        opposite_placed(*egraph, r.opposite@, final(roles)@),
        cycle_cols_added(
            *egraph,
            r.levels@,
            r.opposite@,
            final(roles)@,
            final(model).lp().cols,
            old(roles)@.len(),
        ),
        forall|row: RowModel| #[trigger]
            final(model).lp().rows.contains(row) <==> old(model).lp().rows.contains(row)
                || cycle_row(*egraph, classes@, r.levels@, r.opposite@, row),
{
    let ghost g = *egraph;
    let ghost base = model.lp();
    let ghost roles0 = roles@;
    let levels: Vec<Col> = add_levels(model, egraph, roles);
    let ghost roles1 = roles@;
    let ghost cols1 = model.lp().cols;
    proof {
        assert forall|c: int| 0 <= c < classes@.len() implies roles1[classes@[c].active as int]
            == roles0[(#[trigger] classes@[c]).active as int] by {}
        assert forall|c: int, k: int| is_member(g, c, k) implies roles1[(
        #[trigger] classes@[c].nodes@[k]) as int] == roles0[classes@[c].nodes@[k] as int] by {
            assert(classes@[c].nodes@[k] < roles0.len());
        }
        assert(selection_placed(g, classes@, roles1));
    }
    let opposite: Vec<Vec<Col>> = add_switches(model, egraph, classes, roles);
    let ghost roles2 = roles@;
    let cycles: CycleVars = CycleVars { levels, opposite };
    proof {
        assert forall|c: int| 0 <= c < classes@.len() implies roles2[classes@[c].active as int]
            == roles1[(#[trigger] classes@[c]).active as int] by {}
        assert forall|c: int, k: int| is_member(g, c, k) implies roles2[(
        #[trigger] classes@[c].nodes@[k]) as int] == roles1[classes@[c].nodes@[k] as int] by {
            assert(classes@[c].nodes@[k] < roles1.len());
        }
        assert(selection_placed(g, classes@, roles2));
        assert forall|c: int| 0 <= c < cycles.levels@.len() implies roles2[(
        #[trigger] cycles.levels@[c]) as int] == roles1[cycles.levels@[c] as int] by {}
        assert(levels_placed(g, cycles.levels@, roles2));
        assert(cycle_cols_added(
            g,
            cycles.levels@,
            cycles.opposite@,
            roles2,
            model.lp().cols,
            roles0.len(),
        )) by {
            assert forall|i: int| roles0.len() <= i < roles2.len() implies match #[trigger] roles2[i] {
                Role::Level(c) => c < g.classes@.len() && cycles.levels@[c as int] == i
                    && model.lp().cols[i] == fresh_col(),
                Role::Opposite(c, k) => is_member(g, c as int, k as int)
                    && cycles.opposite@[c as int]@[k as int] == i && model.lp().cols[i]
                    == fresh_binary(),
                _ => false,
            } by {
                if i < roles1.len() {
                    assert(roles2[i] == roles1[i]);
                    assert(model.lp().cols[i] == cols1[i]);
                }
            }
        }
    }
    let ghost switched = model.lp();
    let n_classes: usize = egraph.classes.len();
    let mut c: usize = 0;
    while c < n_classes
        invariant
            egraph.wf(),
            g == *egraph,
            c <= n_classes == g.classes@.len(),
            selection_placed(g, classes@, roles2),
            levels_placed(g, cycles.levels@, roles2),
            opposite_placed(g, cycles.opposite@, roles2),
            roles2.len() == switched.cols.len(),
            model.wf(),
            model.lp().cols == switched.cols,
            model.lp().sense == switched.sense,
            model.start() == old(model).start(),
            model.sent() == old(model).sent(),
            forall|row: RowModel| #[trigger]
                model.lp().rows.contains(row) <==> switched.rows.contains(row) || exists|b: int|
                    b < c && #[trigger] order_row(
                        g,
                        classes@,
                        cycles.levels@,
                        cycles.opposite@,
                        b,
                        row,
                    ),
        decreases n_classes - c,
    {
        let ghost before = model.lp().rows;
        add_class_order(model, egraph, classes, &cycles, c, Ghost(roles2));
        proof {
            assert forall|row: RowModel| #[trigger] model.lp().rows.contains(row)
                <==> switched.rows.contains(row) || exists|b: int|
                b < c + 1 && #[trigger] order_row(
                    g,
                    classes@,
                    cycles.levels@,
                    cycles.opposite@,
                    b,
                    row,
                ) by {
                assert(before.contains(row) <==> switched.rows.contains(row) || exists|b: int|
                    b < c && #[trigger] order_row(
                        g,
                        classes@,
                        cycles.levels@,
                        cycles.opposite@,
                        b,
                        row,
                    ));
                if exists|b: int|
                    b < c + 1 && #[trigger] order_row(
                        g,
                        classes@,
                        cycles.levels@,
                        cycles.opposite@,
                        b,
                        row,
                    ) {
                    let b = choose|b: int|
                        b < c + 1 && #[trigger] order_row(
                            g,
                            classes@,
                            cycles.levels@,
                            cycles.opposite@,
                            b,
                            row,
                        );
                    if b != c {
                        assert(b < c && order_row(
                            g,
                            classes@,
                            cycles.levels@,
                            cycles.opposite@,
                            b,
                            row,
                        ));
                    }
                }
                if order_row(g, classes@, cycles.levels@, cycles.opposite@, c as int, row) {
                    assert((c as int) < c + 1);
                }
            }
        }
        c += 1;
    }
    proof {
        assert forall|row: RowModel| #[trigger] model.lp().rows.contains(row)
            <==> base.rows.contains(row) || cycle_row(
            g,
            classes@,
            cycles.levels@,
            cycles.opposite@,
            row,
        ) by {
            assert(switched.rows.contains(row) <==> base.rows.contains(row) || exists|
                b: int,
                k: int,
            | #[trigger]
                switch_row(g, classes@, cycles.opposite@, b, k, row));
            if exists|b: int| #[trigger]
                order_row(g, classes@, cycles.levels@, cycles.opposite@, b, row) {
                let b = choose|b: int| #[trigger]
                    order_row(g, classes@, cycles.levels@, cycles.opposite@, b, row);
                assert(b < n_classes && order_row(
                    g,
                    classes@,
                    cycles.levels@,
                    cycles.opposite@,
                    b,
                    row,
                ));
            }
        }
    }
    cycles
}

/// Every column that stands for a member is the one the member has.
pub open spec fn picks_are_handles(g: EGraph, classes: Seq<ClassVars>, roles: Seq<Role>) -> bool {
    forall|i: int|
        0 <= i < roles.len() ==> match #[trigger] roles[i] {
            Role::Active(c) => c < g.classes@.len() && classes[c as int].active == i,
            Role::Pick(c, k) => is_member(g, c as int, k as int) && classes[c as int].nodes@[k as int]
                == i,
            _ => true,
        }
}

/// Prices the selection of the members of one class.
fn price_class(
    model: &mut Staged,
    egraph: &EGraph,
    classes: &Vec<ClassVars>,
    size_weight: Cost,
    c: usize,
    Ghost(roles): Ghost<Seq<Role>>,
)
    requires
        egraph.wf(),
        old(model).wf(),
        selection_placed(*egraph, classes@, roles),
        roles.len() == old(model).lp().cols.len(),
        c < egraph.classes@.len(),
        picks_are_handles(*egraph, classes@, roles),
        forall|k: int|
            0 <= k < members(*egraph, c as int)
                ==> old(model).lp().cols[(#[trigger] classes@[c as int].nodes@[k]) as int].cost == 0,
    ensures
        final(model).wf(),
        final(model).lp().rows == old(model).lp().rows,
        final(model).lp().sense == old(model).lp().sense,
        final(model).start() == old(model).start(),
        final(model).sent() == old(model).sent(),
        final(model).lp().cols.len() == roles.len(),
        forall|i: int|
            0 <= i < roles.len() ==> #[trigger] final(model).lp().cols[i] == (match roles[i] {
                Role::Pick(b, k) => if b == c {
                    ColDef {
                        cost: product(
                            size_weight,
                            egraph.nodes@[member(*egraph, c as int, k as int) as int].cost,
                        ),
                        ..old(model).lp().cols[i]
                    }
                } else {
                    old(model).lp().cols[i]
                },
                _ => old(model).lp().cols[i],
            }),
{
    let ghost g = *egraph;
    let ghost base = model.lp();
    let n: usize = egraph.classes[c].nodes.len();
    let mut k: usize = 0;
    while k < n
        invariant
            egraph.wf(),
            g == *egraph,
            c < g.classes@.len(),
            selection_placed(g, classes@, roles),
            roles.len() == base.cols.len(),
            k <= n == members(g, c as int),
            model.wf(),
            model.lp().rows == base.rows,
            model.lp().sense == base.sense,
            model.start() == old(model).start(),
            model.sent() == old(model).sent(),
            model.lp().cols.len() == roles.len(),
            forall|q: int|
                0 <= q < n ==> base.cols[(#[trigger] classes@[c as int].nodes@[q]) as int].cost
                    == 0,
            forall|i: int|
                0 <= i < roles.len() ==> #[trigger] model.lp().cols[i] == (if exists|q: int|
                    0 <= q < k && (#[trigger] classes@[c as int].nodes@[q]) == i {
                    match roles[i] {
                        Role::Pick(_, q) => ColDef {
                            cost: product(
                                size_weight,
                                g.nodes@[member(g, c as int, q as int) as int].cost,
                            ),
                            ..base.cols[i]
                        },
                        _ => base.cols[i],
                    }
                } else {
                    base.cols[i]
                }),
        decreases n - k,
    {
        proof {
            lemma_member(g, c as int, k as int);
            assert(is_member(g, c as int, k as int));
            assert(classes@[c as int].nodes@[k as int] < roles.len());
        }
        let ghost before = model.lp().cols;
        let x_n: Col = classes[c].nodes[k];
        let size: Cost = egraph.nodes[egraph.classes[c].nodes[k]].cost;
        proof {
            // No earlier member has this column.
            assert forall|q: int| 0 <= q < k implies (#[trigger] classes@[c as int].nodes@[q])
                != x_n by {
                assert(is_member(g, c as int, q));
                assert(roles[classes@[c as int].nodes@[q] as int] == Role::Pick(c, q as usize));
                assert(roles[x_n as int] == Role::Pick(c, k));
            }
            assert(before[x_n as int] == base.cols[x_n as int]);
            assert(base.cols[classes@[c as int].nodes@[k as int] as int].cost == 0);
        }
        if size != 0 {
            model.set_obj_coeff(x_n, wide_product(size_weight, size));
        } else {
            proof {
                assert(product(size_weight, 0) == 0) by {
                    assert((size_weight as int) * 0 == 0);
                }
            }
        }
        proof {
            let after = model.lp().cols;
            let new_col = ColDef { cost: product(size_weight, size), ..base.cols[x_n as int] };
            assert(after[x_n as int] == new_col);
            assert forall|i: int| 0 <= i < roles.len() implies #[trigger] after[i] == (
            if exists|q: int| 0 <= q < k + 1 && (#[trigger] classes@[c as int].nodes@[q]) == i {
                match roles[i] {
                    Role::Pick(_, q) => ColDef {
                        cost: product(
                            size_weight,
                            g.nodes@[member(g, c as int, q as int) as int].cost,
                        ),
                        ..base.cols[i]
                    },
                    _ => base.cols[i],
                }
            } else {
                base.cols[i]
            }) by {
                if i == x_n {
                    assert(classes@[c as int].nodes@[k as int] == i);
                    assert(roles[i] == Role::Pick(c, k));
                } else {
                    assert(after[i] == before[i]);
                    if exists|q: int|
                        0 <= q < k + 1 && (#[trigger] classes@[c as int].nodes@[q]) == i {
                        let q = choose|q: int|
                            0 <= q < k + 1 && (#[trigger] classes@[c as int].nodes@[q]) == i;
                        assert(q < k);
                    }
                }
            }
        }
        k += 1;
    }
    proof {
        assert forall|i: int| 0 <= i < roles.len() implies #[trigger] model.lp().cols[i] == (
        match roles[i] {
            Role::Pick(b, k) => if b == c {
                ColDef {
                    cost: product(size_weight, g.nodes@[member(g, c as int, k as int) as int].cost),
                    ..base.cols[i]
                }
            } else {
                base.cols[i]
            },
            _ => base.cols[i],
        }) by {
            if exists|q: int| 0 <= q < n && (#[trigger] classes@[c as int].nodes@[q]) == i {
                let q = choose|q: int|
                    0 <= q < n && (#[trigger] classes@[c as int].nodes@[q]) == i;
                assert(is_member(g, c as int, q));
                assert(roles[i] == Role::Pick(c, q as usize));
            }
        }
    }
}

/// Builds the model of extracting `roots` under `objective` from scratch.
pub fn build(model: &mut Staged, egraph: &EGraph, roots: &[ClassId], objective: IlpObjective) -> (r:
    IlpVars)
    requires
        egraph.wf(),
        roots_known(*egraph, roots@),
        objective.resolved(),
        old(model).wf(),
        old(model).lp().cols.len() == 0,
        old(model).lp().rows.len() == 0,
    ensures
        final(model).wf(),
        final(model).start() == old(model).start(),
        final(model).sent() == old(model).sent(),
        is_model(*egraph, roots@, objective, r, final(model).lp()),
{
    let ghost g = *egraph;
    let mut roles: Ghost<Seq<Role>> = Ghost(Seq::empty());
    let classes: Vec<ClassVars> = add_selection(model, egraph, &mut roles);
    let ghost roles1 = roles@;
    let ghost rows1 = model.lp().rows;
    let mut depth: Option<DepthVars> = None;
    let mut root_depth: Option<Col> = None;
    if objective.uses_depth() {
        let vars: DepthVars = add_depth(
            model,
            egraph,
            roots,
            &classes,
            objective.budget_value(),
            &mut roles,
        );
        root_depth = vars.root_depth;
        depth = Some(vars);
    }
    let ghost roles2 = roles@;
    let ghost rows2 = model.lp().rows;
    proof {
        assert(picks_are_handles(g, classes@, roles2)) by {
            assert forall|i: int| 0 <= i < roles2.len() implies match #[trigger] roles2[i] {
                Role::Active(c) => c < g.classes@.len() && classes@[c as int].active == i,
                Role::Pick(c, k) => is_member(g, c as int, k as int)
                    && classes@[c as int].nodes@[k as int] == i,
                _ => true,
            } by {
                if i < roles1.len() {
                    assert(roles2[i] == roles1[i]);
                }
            }
        }
        assert(selection_placed(g, classes@, roles2)) by {
            assert forall|c: int, k: int| is_member(g, c, k) implies (
            #[trigger] classes@[c].nodes@[k]) < roles2.len()
                && roles2[classes@[c].nodes@[k] as int] == Role::Pick(
                c as ClassId,
                k as usize,
            ) by {
                assert(classes@[c].nodes@[k] < roles1.len());
                assert(roles2[classes@[c].nodes@[k] as int]
                    == roles1[classes@[c].nodes@[k] as int]);
            }
            assert forall|c: int| 0 <= c < classes@.len() implies {
                &&& (#[trigger] classes@[c]).active < roles2.len()
                &&& roles2[classes@[c].active as int] == Role::Active(c as ClassId)
                &&& classes@[c].nodes@.len() == members(g, c)
            } by {
                assert(roles2[classes@[c].active as int] == roles1[classes@[c].active as int]);
            }
        }
    }
    let ghost blank = model.lp().cols;
    proof {
        assert forall|i: int| 0 <= i < roles2.len() implies #[trigger] blank[i] == (
        match roles2[i] {
            Role::Active(_) => fresh_binary(),
            Role::Pick(_, _) => fresh_binary(),
            Role::Arrival(_) => ColDef { upper: cap_of(g, objective.limit()), ..fresh_col() },
            _ => ColDef { upper: total_delay(g), ..fresh_col() },
        }) by {
            if i < roles1.len() {
                assert(roles2[i] == roles1[i]);
            }
        }
    }
    model.set_obj_sense(MilpSense::Minimize);
    let (size_weight, depth_weight) = objective.weights();
    let ghost dw = depth_weight;
    if let Some(t) = root_depth {
        if depth_weight != 0 {
            model.set_obj_coeff(t, wide_product(depth_weight, ONE));
        }
    }
    let ghost timed = model.lp();
    let n_timed: usize = model.num_cols();
    proof {
        assert forall|i: int| 0 <= i < roles2.len() implies #[trigger] timed.cols[i] == (
        match roles2[i] {
            Role::Active(_) => fresh_binary(),
            Role::Pick(_, _) => fresh_binary(),
            Role::Arrival(_) => ColDef { upper: cap_of(g, objective.limit()), ..fresh_col() },
            _ => ColDef { upper: total_delay(g), cost: product(depth_weight, ONE), ..fresh_col() },
        }) by {
            assert(blank[i] == (match roles2[i] {
                Role::Active(_) => fresh_binary(),
                Role::Pick(_, _) => fresh_binary(),
                Role::Arrival(_) => ColDef { upper: cap_of(g, objective.limit()), ..fresh_col() },
                _ => ColDef { upper: total_delay(g), ..fresh_col() },
            }));
            if i < roles1.len() {
                assert(roles2[i] == roles1[i]);
            } else if roles2[i] is RootDepth {
                assert(i < n_timed);
                assert(root_depth == Some(i as Col));
            }
            if let Some(t) = root_depth {
                assert(roles2[t as int] == Role::RootDepth);
            }
        }
    }
    let mut c: usize = 0;
    if size_weight != 0 {
        while c < egraph.classes.len()
            invariant
                egraph.wf(),
                g == *egraph,
                c <= g.classes@.len(),
                selection_placed(g, classes@, roles2),
                picks_are_handles(g, classes@, roles2),
                roles2.len() == timed.cols.len(),
                model.wf(),
                model.lp().rows == timed.rows,
                model.lp().sense == timed.sense,
                model.start() == old(model).start(),
                model.sent() == old(model).sent(),
                model.lp().cols.len() == roles2.len(),
                forall|i: int|
                    0 <= i < roles2.len() && roles2[i] is Pick
                        ==> #[trigger] timed.cols[i] == fresh_binary(),
                forall|i: int|
                    0 <= i < roles2.len() ==> #[trigger] model.lp().cols[i] == (match roles2[i] {
                        Role::Pick(b, k) => if b < c {
                            ColDef {
                                cost: product(
                                    size_weight,
                                    g.nodes@[member(g, b as int, k as int) as int].cost,
                                ),
                                ..fresh_binary()
                            }
                        } else {
                            fresh_binary()
                        },
                        _ => timed.cols[i],
                    }),
            decreases g.classes@.len() - c,
        {
            let ghost before = model.lp().cols;
            proof {
                assert forall|k: int| 0 <= k < members(g, c as int) implies before[(
                #[trigger] classes@[c as int].nodes@[k]) as int].cost == 0 by {
                    assert(is_member(g, c as int, k));
                    let i = classes@[c as int].nodes@[k] as int;
                    assert(roles2[i] == Role::Pick(c, k as usize));
                    assert(before[i] == fresh_binary());
                }
            }
            price_class(model, egraph, &classes, size_weight, c, Ghost(roles2));
            proof {
                assert forall|i: int| 0 <= i < roles2.len() implies #[trigger] model.lp().cols[i]
                    == (match roles2[i] {
                    Role::Pick(b, k) => if b < c + 1 {
                        ColDef {
                            cost: product(
                                size_weight,
                                g.nodes@[member(g, b as int, k as int) as int].cost,
                            ),
                            ..fresh_binary()
                        }
                    } else {
                        fresh_binary()
                    },
                    _ => timed.cols[i],
                }) by {
                    assert(before[i] == (match roles2[i] {
                        Role::Pick(b, k) => if b < c {
                            ColDef {
                                cost: product(
                                    size_weight,
                                    g.nodes@[member(g, b as int, k as int) as int].cost,
                                ),
                                ..fresh_binary()
                            }
                        } else {
                            fresh_binary()
                        },
                        _ => timed.cols[i],
                    }));
                }
            }
            c += 1;
        }
    }
    let ghost priced = model.lp();
    proof {
        assert forall|i: int| 0 <= i < roles2.len() implies #[trigger] priced.cols[i] == (
        match roles2[i] {
            Role::Pick(b, k) => ColDef {
                cost: product(
                    size_weight,
                    g.nodes@[member(g, b as int, k as int) as int].cost,
                ),
                ..fresh_binary()
            },
            _ => timed.cols[i],
        }) by {
            if size_weight == 0 {
                if roles2[i] is Pick {
                    let k = roles2[i]->Pick_1;
                    let b = roles2[i]->Pick_0;
                    let cost = g.nodes@[member(g, b as int, k as int) as int].cost;
                    assert(0 * (cost as int) == 0);
                    assert(product(0, cost) == 0);
                }
            } else if roles2[i] is Pick {
                assert(picks_are_handles(g, classes@, roles2));
                assert(is_member(g, roles2[i]->Pick_0 as int, roles2[i]->Pick_1 as int));
            }
        }
    }
    let mut i: usize = 0;
    while i < roots.len()
        invariant
            g == *egraph,
            roots_known(g, roots@),
            selection_placed(g, classes@, roles2),
            picks_are_handles(g, classes@, roles2),
            roles2.len() == priced.cols.len(),
            i <= roots@.len(),
            model.wf(),
            model.lp().rows == priced.rows,
            model.lp().sense == priced.sense,
            model.start() == old(model).start(),
            model.sent() == old(model).sent(),
            model.lp().cols.len() == roles2.len(),
            forall|j: int|
                0 <= j < roles2.len() ==> #[trigger] model.lp().cols[j] == (match roles2[j] {
                    Role::Active(b) => if roots@.take(i as int).contains(b) {
                        ColDef { lower: ONE, ..priced.cols[j] }
                    } else {
                        priced.cols[j]
                    },
                    _ => priced.cols[j],
                }),
        decreases roots@.len() - i,
    {
        let ghost before = model.lp().cols;
        let root: ClassId = roots[i];
        proof {
            assert(classes@[root as int].active < roles2.len());
        }
        model.set_col_lower(classes[root].active, ONE);
        proof {
            let seen = roots@.take(i as int);
            let seen1 = roots@.take(i + 1);
            assert(seen1 =~= seen.push(root));
            assert forall|j: int| 0 <= j < roles2.len() implies #[trigger] model.lp().cols[j] == (
            match roles2[j] {
                Role::Active(b) => if seen1.contains(b) {
                    ColDef { lower: ONE, ..priced.cols[j] }
                } else {
                    priced.cols[j]
                },
                _ => priced.cols[j],
            }) by {
                assert(before[j] == (match roles2[j] {
                    Role::Active(b) => if seen.contains(b) {
                        ColDef { lower: ONE, ..priced.cols[j] }
                    } else {
                        priced.cols[j]
                    },
                    _ => priced.cols[j],
                }));
                if roles2[j] is Active {
                    let b = roles2[j]->Active_0;
                    assert(classes@[b as int].active == j);
                    if seen.contains(b) {
                        let q = choose|q: int| 0 <= q < seen.len() && seen[q] == b;
                        assert(seen1[q] == b);
                    }
                    if b == root {
                        assert(seen1[i as int] == b);
                    } else if seen1.contains(b) {
                        let q = choose|q: int| 0 <= q < seen1.len() && seen1[q] == b;
                        assert(seen[q] == b);
                    }
                }
            }
        }
        i += 1;
    }
    let ghost rooted = model.lp();
    proof {
        assert(roots@.take(roots@.len() as int) =~= roots@);
    }
    let cycles: CycleVars = block_cycles(model, egraph, &classes, &mut roles);
    let ghost roles3 = roles@;
    let n_cols: usize = model.num_cols();
    let vars: IlpVars = IlpVars { classes, cycles, depth, roles };
    proof {
        lemma_built(g, roots@, objective, vars, roles1, roles2);
        assert forall|j: int| 0 <= j < roles3.len() implies #[trigger] model.lp().cols[j]
            == col_of(g, roots@, objective, vars.roles@[j]) by {
            if j < roles2.len() {
                assert(roles3[j] == roles2[j]);
                assert(model.lp().cols[j] == rooted.cols[j]);
                assert(rooted.cols[j] == (match roles2[j] {
                    Role::Active(b) => if roots@.contains(b) {
                        ColDef { lower: ONE, ..priced.cols[j] }
                    } else {
                        priced.cols[j]
                    },
                    _ => priced.cols[j],
                }));
                assert(timed.cols[j] == (match roles2[j] {
                    Role::Active(_) => fresh_binary(),
                    Role::Pick(_, _) => fresh_binary(),
                    Role::Arrival(_) => ColDef {
                        upper: cap_of(g, objective.limit()),
                        ..fresh_col()
                    },
                    _ => ColDef { upper: total_delay(g), cost: product(depth_weight, ONE), ..fresh_col() },
                }));
            }
        }
        assert forall|row: RowModel| #[trigger] model.lp().rows.contains(row) <==> model_row(
            g,
            roots@,
            vars,
            row,
        ) by {
            assert(rows2.contains(row) <==> rows1.contains(row) || (vars.depth matches Some(d)
                && depth_row(g, roots@, vars.classes@, d, row)));
            assert(rows1.contains(row) <==> selection_row(g, vars.classes@, row));
        }
    }
    vars
}

/// The handles of a built model.
proof fn lemma_built(
    g: EGraph,
    roots: Seq<ClassId>,
    objective: IlpObjective,
    vars: IlpVars,
    roles1: Seq<Role>,
    roles2: Seq<Role>,
)
    requires
        roles1.len() <= roles2.len() <= vars.roles@.len(),
        forall|i: int| 0 <= i < roles1.len() ==> #[trigger] roles2[i] == roles1[i],
        forall|i: int| 0 <= i < roles2.len() ==> #[trigger] vars.roles@[i] == roles2[i],
        selection_placed(g, vars.classes@, roles2),
        picks_are_handles(g, vars.classes@, roles2),
        levels_placed(g, vars.cycles.levels@, vars.roles@),
        opposite_placed(g, vars.cycles.opposite@, vars.roles@),
        vars.depth matches Some(d) ==> arrival_placed(g, d.arrival@, roles2) && root_depth_placed(
            d.root_depth,
            roles2,
        ),
        forall|i: int|
            0 <= i < roles1.len() ==> (#[trigger] roles1[i] is Active || roles1[i] is Pick),
        forall|i: int|
            roles1.len() <= i < roles2.len() ==> match #[trigger] roles2[i] {
                Role::Arrival(c) => c < g.classes@.len() && (vars.depth matches Some(d)
                    && d.arrival@[c as int] == i),
                Role::RootDepth => vars.depth matches Some(d) && d.root_depth == Some(i as Col),
                _ => false,
            },
        forall|i: int|
            roles2.len() <= i < vars.roles@.len() ==> match #[trigger] vars.roles@[i] {
                Role::Level(c) => c < g.classes@.len() && vars.cycles.levels@[c as int] == i,
                Role::Opposite(c, k) => is_member(g, c as int, k as int)
                    && vars.cycles.opposite@[c as int]@[k as int] == i,
                _ => false,
            },
    ensures
        vars_placed(g, vars),
{
    let roles3 = vars.roles@;
    assert(selection_placed(g, vars.classes@, roles3)) by {
        assert forall|c: int, k: int| is_member(g, c, k) implies (
        #[trigger] vars.classes@[c].nodes@[k]) < roles3.len()
            && roles3[vars.classes@[c].nodes@[k] as int] == Role::Pick(
            c as ClassId,
            k as usize,
        ) by {
            assert(vars.classes@[c].nodes@[k] < roles2.len());
        }
        assert forall|c: int| 0 <= c < vars.classes@.len() implies {
            &&& (#[trigger] vars.classes@[c]).active < roles3.len()
            &&& roles3[vars.classes@[c].active as int] == Role::Active(c as ClassId)
            &&& vars.classes@[c].nodes@.len() == members(g, c)
        } by {
            assert(vars.classes@[c].active < roles2.len());
        }
    }
    if vars.depth is Some {
        let d = vars.depth->0;
        assert(arrival_placed(g, d.arrival@, roles3)) by {
            assert forall|c: int| 0 <= c < d.arrival@.len() implies (#[trigger] d.arrival@[c])
                < roles3.len() && roles3[d.arrival@[c] as int] == Role::Arrival(
                c as ClassId,
            ) by {
                assert(d.arrival@[c] < roles2.len());
            }
        }
        assert(root_depth_placed(d.root_depth, roles3));
    }
    assert forall|i: int| 0 <= i < roles3.len() implies #[trigger] is_handle(g, vars, i) by {
        if i < roles2.len() {
            assert(roles3[i] == roles2[i]);
            if i < roles1.len() {
                assert(roles2[i] == roles1[i]);
                assert(roles1[i] is Active || roles1[i] is Pick);
            }
        }
    }
}

} // verus!
