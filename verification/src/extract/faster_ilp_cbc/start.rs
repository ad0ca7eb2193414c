//! The problem an e-graph poses, before anything is simplified.
use crate::collections::{id_set, id_set_insert, id_set_new};
use crate::cost::{is_weight, Cost, INFINITY};
use crate::egraph::{lists_members, ClassId, EGraph, NodeId};
use crate::extract::faster_ilp_cbc::problem::{
    choice_of, choices_in, lemma_offered, offers, place, price, solves, solves_with, sound,
    sound_class, Choice, ClassIlp, NodeIlp, Problem, Vars,
};
use crate::extract::measure::{lemma_reached_known, lemma_roots_of_valid};
use crate::extract::selection;
use crate::extract::selection::{
    acyclic, covers, edge, in_class, infinite_below, ranked, reaches, roots_known, size_below,
    valid,
};
use crate::extract::ExtractionResult;
use crate::milp::stage::{fresh_binary, noted, Col, ColDef, Lp, Staged};
use indexmap::IndexSet;
use vstd::prelude::*;

verus! {

/// The classes of the first `k` children of node `n`, each once.
pub open spec fn kids_of(g: EGraph, n: NodeId, k: nat) -> Seq<ClassId>
    decreases k,
{
    if k == 0 {
        Seq::empty()
    } else {
        noted(kids_of(g, n, (k - 1) as nat), g.child_class(n, k - 1))
    }
}

/// The number of columns of the first `c` classes: one for each class and one
/// for each of its nodes.
pub open spec fn columns_below(g: EGraph, c: nat) -> nat
    decreases c,
{
    if c == 0 {
        0
    } else {
        columns_below(g, (c - 1) as nat) + 1 + g.classes@[c - 1].nodes@.len()
    }
}

/// The choice of the `i`th node of class `c`.
pub open spec fn start_choice(g: EGraph, c: ClassId, i: int) -> Choice {
    let n = g.classes@[c as int].nodes@[i];
    Choice {
        variable: (columns_below(g, c as nat) + 1 + i) as Col,
        cost: g.nodes@[n as int].cost,
        node: n,
        kids: kids_of(g, n, g.nodes@[n as int].children@.len()),
    }
}

/// Which of the first `k` nodes of class `c` have a finite cost.
pub open spec fn finite_places(g: EGraph, c: ClassId, k: nat) -> Seq<int>
    decreases k,
{
    if k == 0 {
        Seq::empty()
    } else if g.nodes@[g.classes@[c as int].nodes@[k - 1] as int].cost < INFINITY {
        finite_places(g, c, (k - 1) as nat).push(k - 1)
    } else {
        finite_places(g, c, (k - 1) as nat)
    }
}

/// The choices for class `c`: its nodes of finite cost.
pub open spec fn start_list(g: EGraph, c: ClassId) -> Seq<Choice> {
    let places = finite_places(g, c, g.classes@[c as int].nodes@.len());
    Seq::new(places.len(), |i: int| start_choice(g, c, places[i]))
}

/// The places of nodes of finite cost, in order.
pub proof fn lemma_finite_places(g: EGraph, c: ClassId, k: nat)
    ensures
        forall|i: int|
            0 <= i < finite_places(g, c, k).len() ==> {
                let j = #[trigger] finite_places(g, c, k)[i];
                &&& 0 <= j < k
                &&& g.nodes@[g.classes@[c as int].nodes@[j] as int].cost < INFINITY
            },
        forall|i: int, j: int|
            0 <= i < j < finite_places(g, c, k).len() ==> finite_places(g, c, k)[i]
                < finite_places(g, c, k)[j],
        forall|j: int|
            0 <= j < k && g.nodes@[g.classes@[c as int].nodes@[j] as int].cost < INFINITY
                ==> #[trigger] finite_places(g, c, k).contains(j),
    decreases k,
{
    if k > 0 {
        let prior = (k - 1) as nat;
        lemma_finite_places(g, c, prior);
        let before = finite_places(g, c, prior);
        let after = finite_places(g, c, k);
        assert forall|j: int|
            0 <= j < k && g.nodes@[g.classes@[c as int].nodes@[j] as int].cost
                < INFINITY implies #[trigger] after.contains(j) by {
            if j < k - 1 {
                assert(before.contains(j));
                let i = choose|i: int| 0 <= i < before.len() && before[i] == j;
                assert(after[i] == j);
            } else {
                assert(after.last() == j);
            }
        }
    }
}

/// The problem of extracting `roots`.
pub open spec fn start_problem(g: EGraph, roots: Seq<ClassId>) -> Problem {
    Problem {
        classes: Map::new(
            |c: ClassId| c < g.classes@.len(),
            |c: ClassId| start_list(g, c),
        ),
        roots,
        decided: Map::empty(),
    }
}

/// No node has a negative cost.
pub open spec fn costs_valid(g: EGraph) -> bool {
    forall|n: int| 0 <= n < g.nodes@.len() ==> (#[trigger] g.nodes@[n]).cost >= 0
}

/// `sorted` has the same classes as `roots`, each once, in order.
pub open spec fn sorts(roots: Seq<ClassId>, sorted: Seq<ClassId>) -> bool {
    &&& forall|c: ClassId| #[trigger] sorted.contains(c) <==> roots.contains(c)
    &&& forall|i: int, j: int| 0 <= i < j < sorted.len() ==> sorted[i] < sorted[j]
}

/// The roots without repetition, in order.
pub(crate) fn sorted_roots(egraph: &EGraph, roots: &[ClassId]) -> (r: Vec<ClassId>)
    requires
        roots_known(*egraph, roots@),
    ensures
        sorts(roots@, r@),
{
    let n: usize = egraph.classes.len();
    let mut sorted: Vec<ClassId> = Vec::new();
    let mut c: usize = 0;
    while c < n
        invariant
            n == egraph.classes@.len(),
            roots_known(*egraph, roots@),
            c <= n,
            forall|d: ClassId| #[trigger] sorted@.contains(d) <==> d < c && roots@.contains(d),
            forall|i: int, j: int| 0 <= i < j < sorted@.len() ==> sorted@[i] < sorted@[j],
        decreases n - c,
    {
        let mut found: bool = false;
        let mut k: usize = 0;
        while k < roots.len()
            invariant
                k <= roots@.len(),
                found == (exists|j: int| 0 <= j < k && roots@[j] == c),
            decreases roots@.len() - k,
        {
            if roots[k] == c {
                found = true;
            }
            k += 1;
        }
        let ghost before = sorted@;
        proof {
            assert(found == roots@.contains(c));
            assert forall|i: int| 0 <= i < before.len() implies #[trigger] before[i] < c by {
                assert(before.contains(before[i]));
            }
        }
        if found {
            sorted.push(c);
            proof {
                assert(sorted@[before.len() as int] == c);
                assert forall|d: ClassId| #[trigger] sorted@.contains(d) <==> d < c + 1
                    && roots@.contains(d) by {
                    if before.contains(d) {
                        let j = choose|j: int| 0 <= j < before.len() && before[j] == d;
                        assert(sorted@[j] == d);
                    }
                    if sorted@.contains(d) {
                        let j = choose|j: int| 0 <= j < sorted@.len() && sorted@[j] == d;
                        if j < before.len() {
                            assert(before[j] == d);
                            assert(before.contains(d));
                        }
                    }
                }
            }
        }
        c += 1;
    }
    proof {
        assert forall|d: ClassId| #[trigger] sorted@.contains(d) <==> roots@.contains(d) by {
            if roots@.contains(d) {
                let i = choose|i: int| 0 <= i < roots@.len() && roots@[i] == d;
                assert(roots@[i] < n);
            }
        }
    }
    sorted
}

/// The classes of the children of a node.
fn children_classes(egraph: &EGraph, n: NodeId) -> (r: IndexSet<ClassId>)
    requires
        egraph.wf(),
        n < egraph.nodes@.len(),
    ensures
        id_set(r) == kids_of(*egraph, n, egraph.nodes@[n as int].children@.len()),
{
    let mut kids: IndexSet<ClassId> = id_set_new();
    let mut k: usize = 0;
    while k < egraph.nodes[n].children.len()
        invariant
            egraph.wf(),
            n < egraph.nodes@.len(),
            k <= egraph.nodes@[n as int].children@.len(),
            id_set(kids) == kids_of(*egraph, n, k as nat),
        decreases egraph.nodes@[n as int].children@.len() - k,
    {
        proof {
            assert(egraph.nodes@[n as int].children@[k as int] < egraph.nodes@.len());
        }
        let d: ClassId = egraph.nid_to_cid(egraph.nodes[n].children[k]);
        id_set_insert(&mut kids, d);
        k += 1;
    }
    kids
}

/// The first `n` columns of a new model, each of which is a binary one.
pub open spec fn binaries(n: nat) -> Seq<ColDef> {
    Seq::new(n, |i: int| fresh_binary())
}

/// The problem of extracting `roots`, with the columns for it.
pub(crate) fn start_vars(egraph: &EGraph, roots: Vec<ClassId>, model: &mut Staged) -> (r: Vars)
    requires
        egraph.wf(),
        costs_valid(*egraph),
        roots_known(*egraph, roots@),
        forall|i: int, j: int| 0 <= i < j < roots@.len() ==> roots@[i] < roots@[j],
        old(model).wf(),
        old(model).lp().cols.len() == 0,
    ensures
        final(model).wf(),
        final(model).lp() == (Lp {
            cols: binaries(columns_below(*egraph, egraph.classes@.len())),
            ..old(model).lp()
        }),
        final(model).start() == old(model).start(),
        final(model).sent() == old(model).sent(),
        r@ == start_problem(*egraph, roots@),
        r.wf(),
        r.size() == egraph.classes@.len(),
        forall|c: ClassId|
            c < egraph.classes@.len() ==> #[trigger] r.active(c) == columns_below(
                *egraph,
                c as nat,
            ),
{
    let ghost g = *egraph;
    let ghost lp0 = model.lp();
    let n: usize = egraph.classes.len();
    let mut classes: Vec<ClassIlp> = Vec::new();
    let mut live: Vec<bool> = Vec::new();
    let mut c: usize = 0;
    assert(model.lp().cols =~= binaries(0));
    while c < n
        invariant
            egraph.wf(),
            g == *egraph,
            n == g.classes@.len(),
            model.wf(),
            model.start() == old(model).start(),
            model.sent() == old(model).sent(),
            c <= n,
            model.lp() == (Lp { cols: binaries(columns_below(g, c as nat)), ..lp0 }),
            classes@.len() == c,
            live@.len() == c,
            forall|d: int| 0 <= d < c ==> #[trigger] live@[d],
            forall|d: int|
                0 <= d < c ==> (#[trigger] classes@[d]).active == columns_below(g, d as nat),
            forall|d: int|
                0 <= d < c ==> choices_in((#[trigger] classes@[d]).nodes@) == start_list(
                    g,
                    d as ClassId,
                ),
        decreases n - c,
    {
        let active: Col = model.add_binary();
        let mut nodes: Vec<NodeIlp> = Vec::new();
        let members: &Vec<NodeId> = &egraph.classes[c].nodes;
        let mut i: usize = 0;
        proof {
            assert(lists_members(g.nodes@, c as int, members@));
            assert(model.lp().cols =~= binaries(columns_below(g, c as nat) + 1));
        }
        while i < members.len()
            invariant
                egraph.wf(),
                g == *egraph,
                n == g.classes@.len(),
                c < n,
                members@ == g.classes@[c as int].nodes@,
                lists_members(g.nodes@, c as int, members@),
                model.wf(),
                model.start() == old(model).start(),
                model.sent() == old(model).sent(),
                i <= members@.len(),
                model.lp() == (Lp { cols: binaries(columns_below(g, c as nat) + 1 + i as nat), ..lp0 }),
                nodes@.len() == finite_places(g, c, i as nat).len(),
                forall|k: int|
                    0 <= k < nodes@.len() ==> (#[trigger] nodes@[k])@ == start_choice(
                        g,
                        c,
                        finite_places(g, c, i as nat)[k],
                    ),
            decreases members@.len() - i,
        {
            let nid: NodeId = members[i];
            assert(members@[i as int] < g.nodes@.len());
            let variable: Col = model.add_binary();
            let cost: Cost = egraph.nodes[nid].cost;
            if cost < INFINITY {
                let kids: IndexSet<ClassId> = children_classes(egraph, nid);
                let ghost last = NodeIlp { variable, cost, member: nid, children_classes: kids };
                nodes.push(NodeIlp { variable, cost, member: nid, children_classes: kids });
                assert(last@ == start_choice(g, c, i as int));
            }
            proof {
                assert(model.lp().cols =~= binaries(columns_below(g, c as nat) + 1 + i as nat + 1));
            }
            i += 1;
        }
        let ghost list = choices_in(nodes@);
        assert(list =~= start_list(g, c));
        classes.push(ClassIlp { active, nodes });
        live.push(true);
        c += 1;
    }
    let r: Vars = Vars { classes, live, roots, decided: ExtractionResult::default() };
    proof {
        assert(r@.classes =~= start_problem(g, roots@).classes) by {
            assert forall|d: ClassId| d < n implies #[trigger] r@.classes[d] == start_list(
                g,
                d,
            ) by {
                assert(choices_in(r.classes@[d as int].nodes@) == start_list(g, d));
            }
        }
        assert(r@.decided =~= Map::empty());
        lemma_start_sound(g, roots@);
        assert forall|d: ClassId| d < n implies #[trigger] r.active(d) == columns_below(
            g,
            d as nat,
        ) by {
            assert(r.classes@[d as int].active == columns_below(g, d as nat));
        }
    }
    r
}

/// The classes of children, as a set.
pub proof fn lemma_kids_of(g: EGraph, n: NodeId, k: nat, d: ClassId)
    ensures
        kids_of(g, n, k).contains(d) <==> exists|j: int|
            0 <= j < k && #[trigger] g.child_class(n, j) == d,
        kids_of(g, n, k).no_duplicates(),
    decreases k,
{
    if k > 0 {
        lemma_kids_of(g, n, (k - 1) as nat, d);
        let before = kids_of(g, n, (k - 1) as nat);
        let e = g.child_class(n, k - 1);
        let after = kids_of(g, n, k);
        if !before.contains(e) {
            assert(after == before.push(e));
            if before.contains(d) {
                let j = choose|j: int| 0 <= j < before.len() && before[j] == d;
                assert(after[j] == d);
            }
            assert(after[before.len() as int] == e);
        }
        if exists|j: int| 0 <= j < k && #[trigger] g.child_class(n, j) == d {
            let j = choose|j: int| 0 <= j < k && #[trigger] g.child_class(n, j) == d;
            if j < k - 1 {
                assert(g.child_class(n, j) == d);
            }
        }
        if after.contains(d) {
            if before.contains(d) {
                let j = choose|j: int| 0 <= j < k - 1 && #[trigger] g.child_class(n, j) == d;
                assert(g.child_class(n, j) == d);
            } else {
                assert(g.child_class(n, k - 1) == d);
            }
        }
    }
}

/// What a node needs is what it depends on.
pub proof fn lemma_kids_depend(g: EGraph, n: NodeId, d: ClassId)
    ensures
        kids_of(g, n, g.nodes@[n as int].children@.len()).contains(d) <==> g.depends(n, d),
{
    lemma_kids_of(g, n, g.nodes@[n as int].children@.len(), d);
    if g.depends(n, d) {
        let j = choose|j: int|
            0 <= j < g.nodes@[n as int].children@.len() && g.child_class(n, j) == d;
        assert(g.child_class(n, j) == d);
    }
}

/// The problem an e-graph poses makes sense.
pub proof fn lemma_start_sound(g: EGraph, roots: Seq<ClassId>)
    requires
        g.wf(),
        costs_valid(g),
        roots_known(g, roots),
        forall|i: int, j: int| 0 <= i < j < roots.len() ==> roots[i] < roots[j],
    ensures
        sound(start_problem(g, roots), g.classes@.len()),
{
    let p = start_problem(g, roots);
    assert forall|c: ClassId| #[trigger] p.classes.contains_key(c) implies c < g.classes@.len()
        && sound_class(p, p.classes[c]) by {
        let members = g.classes@[c as int].nodes@;
        assert(lists_members(g.nodes@, c as int, members));
        let list = p.classes[c];
        let places = finite_places(g, c, members.len());
        lemma_finite_places(g, c, members.len());
        assert forall|i: int, j: int| 0 <= i < j < list.len() implies (#[trigger] list[i]).node != (
        #[trigger] list[j]).node by {
            assert(members[places[i]] < members[places[j]]);
        }
        assert forall|i: int| 0 <= i < list.len() implies is_weight((#[trigger] list[i]).cost)
            && list[i].kids.no_duplicates() by {
            let n = members[places[i]];
            assert(n < g.nodes@.len());
            assert(g.nodes@[n as int].cost >= 0);
            lemma_kids_of(g, n, g.nodes@[n as int].children@.len(), 0);
        }
        assert forall|i: int, d: ClassId|
            0 <= i < list.len() && (#[trigger] list[i].kids.contains(d)) implies p.classes.contains_key(
        d) by {
            let n = members[places[i]];
            assert(n < g.nodes@.len());
            lemma_kids_depend(g, n, d);
            g.lemma_depends(n, d);
        }
    }
    assert forall|r: ClassId| #[trigger] p.roots.contains(r) implies p.classes.contains_key(r) by {
        let i = choose|i: int| 0 <= i < roots.len() && roots[i] == r;
        assert(roots[i] < g.classes@.len());
    }
}

/// The choice of a node of the class, if its cost is finite.
pub proof fn lemma_start_choice(g: EGraph, roots: Seq<ClassId>, c: ClassId, n: NodeId)
    requires
        g.wf(),
        c < g.classes@.len(),
    ensures
        offers(start_problem(g, roots).classes[c], n) <==> n < g.nodes@.len()
            && g.nodes@[n as int].eclass == c && g.nodes@[n as int].cost < INFINITY,
        offers(start_problem(g, roots).classes[c], n) ==> {
            let o = choice_of(start_problem(g, roots), c, n);
            &&& o.cost == g.nodes@[n as int].cost
            &&& o.kids == kids_of(g, n, g.nodes@[n as int].children@.len())
        },
{
    let p = start_problem(g, roots);
    let members = g.classes@[c as int].nodes@;
    assert(lists_members(g.nodes@, c as int, members));
    let list = p.classes[c];
    let places = finite_places(g, c, members.len());
    lemma_finite_places(g, c, members.len());
    if n < g.nodes@.len() && g.nodes@[n as int].eclass == c && g.nodes@[n as int].cost < INFINITY {
        assert(members.contains((n as int) as usize));
        let j = choose|j: int| 0 <= j < members.len() && members[j] == n;
        assert(places.contains(j));
        let i = choose|i: int| 0 <= i < places.len() && places[i] == j;
        assert(list[i].node == n);
    }
    if offers(list, n) {
        lemma_offered(list, n);
        let i = place(list, n);
        assert(members[places[i]] == n);
        assert(members[places[i]] < g.nodes@.len());
    }
}

/// What a valid extraction of finite size chooses below the roots solves the
/// problem and costs its size.
pub proof fn lemma_valid_solves(
    g: EGraph,
    sel: Map<ClassId, NodeId>,
    roots: Seq<ClassId>,
    sorted: Seq<ClassId>,
) -> (part: Map<ClassId, NodeId>)
    requires
        g.wf(),
        costs_valid(g),
        valid(g, sel, roots),
        !infinite_below(g, sel, roots),
        sorts(roots, sorted),
    ensures
        solves(start_problem(g, sorted), part),
        price(start_problem(g, sorted), part, g.classes@.len()) == size_below(
            g,
            sel,
            roots,
            g.classes@.len(),
        ),
{
    let p = start_problem(g, sorted);
    let n = g.classes@.len();
    lemma_roots_of_valid(g, sel, roots);
    let part = Map::new(
        |c: ClassId| reaches(g, sel, roots, c),
        |c: ClassId| sel[c],
    );
    let rank = choose|rank: Map<ClassId, nat>| ranked(g, sel, roots, rank);
    assert forall|c: ClassId| #[trigger] part.contains_key(c) implies p.classes.contains_key(c)
        && offers(p.classes[c], part[c]) && sel.contains_key(c) by {
        lemma_reached_known(g, sel, roots, c);
        lemma_start_choice(g, sorted, c, part[c]);
    }
    assert forall|c: ClassId, d: ClassId|
        part.contains_key(c) && #[trigger] choice_of(p, c, part[c]).kids.contains(
            d,
        ) implies part.contains_key(d) && rank[d] < rank[c] by {
        lemma_reached_known(g, sel, roots, c);
        lemma_start_choice(g, sorted, c, part[c]);
        lemma_kids_depend(g, part[c], d);
        assert(edge(g, sel, c, d));
        selection::lemma_reaches_step(g, sel, roots, c, d);
    }
    assert forall|r: ClassId| #[trigger] p.roots.contains(r) implies part.contains_key(r) by {
        assert(roots.contains(r));
        selection::lemma_reaches_root(g, sel, roots, r);
    }
    assert(solves_with(p, part, rank));
    lemma_size_is_price(g, sel, roots, sorted, part, n);
    part
}

proof fn lemma_size_is_price(
    g: EGraph,
    sel: Map<ClassId, NodeId>,
    roots: Seq<ClassId>,
    sorted: Seq<ClassId>,
    part: Map<ClassId, NodeId>,
    n: nat,
)
    requires
        g.wf(),
        costs_valid(g),
        valid(g, sel, roots),
        !infinite_below(g, sel, roots),
        n <= g.classes@.len(),
        part == Map::new(|c: ClassId| reaches(g, sel, roots, c), |c: ClassId| sel[c]),
    ensures
        price(start_problem(g, sorted), part, n) == size_below(g, sel, roots, n),
    decreases n,
{
    if n > 0 {
        lemma_size_is_price(g, sel, roots, sorted, part, (n - 1) as nat);
        let c = (n - 1) as ClassId;
        vstd::std_specs::vec::axiom_spec_len(&g.classes);
        if reaches(g, sel, roots, c) {
            assert(sel.contains_key(c));
            lemma_start_choice(g, sorted, c, sel[c]);
            assert(g.nodes@[sel[c] as int].cost >= 0);
        }
    }
}

/// A selection that holds a solution is a valid extraction of finite size, no
/// larger than the solution's cost.
pub proof fn lemma_solves_valid(
    g: EGraph,
    sel: Map<ClassId, NodeId>,
    roots: Seq<ClassId>,
    sorted: Seq<ClassId>,
    part: Map<ClassId, NodeId>,
)
    requires
        g.wf(),
        costs_valid(g),
        sorts(roots, sorted),
        in_class(g, sel),
        solves(start_problem(g, sorted), part),
        forall|c: ClassId| #[trigger]
            part.contains_key(c) ==> sel.contains_key(c) && sel[c] == part[c],
    ensures
        valid(g, sel, roots),
        !infinite_below(g, sel, roots),
        size_below(g, sel, roots, g.classes@.len()) <= price(
            start_problem(g, sorted),
            part,
            g.classes@.len(),
        ),
{
    let p = start_problem(g, sorted);
    let rank = choose|rank: Map<ClassId, nat>| solves_with(p, part, rank);
    assert forall|c: ClassId, d: ClassId|
        part.contains_key(c) && #[trigger] edge(g, sel, c, d) implies part.contains_key(d)
        && rank[d] < rank[c] by {
        assert(p.classes.contains_key(c));
        assert(offers(p.classes[c], part[c]));
        lemma_start_choice(g, sorted, c, part[c]);
        lemma_kids_depend(g, part[c], d);
        assert(choice_of(p, c, part[c]).kids.contains(d));
    }
    assert forall|c: ClassId| #[trigger] reaches(g, sel, roots, c) implies part.contains_key(c) by {
        assert forall|r: ClassId| #[trigger] roots.contains(r) implies part.dom().contains(r) by {
            assert(sorted.contains(r));
            assert(p.roots.contains(r));
        }
        assert forall|a: ClassId, b: ClassId|
            part.dom().contains(a) && #[trigger] edge(g, sel, a, b) implies part.dom().contains(
        b) by {
            assert(part.contains_key(a));
        }
        selection::lemma_reaches_closed(g, sel, roots, part.dom(), c);
    }
    assert(covers(g, sel, roots));
    assert(ranked(g, sel, roots, rank)) by {
        assert forall|a: ClassId, b: ClassId|
            reaches(g, sel, roots, a) && #[trigger] edge(g, sel, a, b) implies Seq::<
            ClassId,
        >::empty().contains(b) || rank[b] < rank[a] by {
            assert(part.contains_key(a));
        }
    }
    assert(acyclic(g, sel, roots));
    assert forall|c: ClassId| #[trigger] reaches(g, sel, roots, c) implies g.nodes@[sel[c] as int].cost
        != INFINITY by {
        assert(part.contains_key(c));
        lemma_start_choice(g, sorted, c, part[c]);
    }
    lemma_size_below_price(g, sel, roots, sorted, part, g.classes@.len());
}

proof fn lemma_size_below_price(
    g: EGraph,
    sel: Map<ClassId, NodeId>,
    roots: Seq<ClassId>,
    sorted: Seq<ClassId>,
    part: Map<ClassId, NodeId>,
    n: nat,
)
    requires
        g.wf(),
        costs_valid(g),
        n <= g.classes@.len(),
        solves(start_problem(g, sorted), part),
        forall|c: ClassId| #[trigger]
            part.contains_key(c) ==> sel.contains_key(c) && sel[c] == part[c],
        forall|c: ClassId| #[trigger] reaches(g, sel, roots, c) ==> part.contains_key(c),
    ensures
        size_below(g, sel, roots, n) <= price(start_problem(g, sorted), part, n),
    decreases n,
{
    if n > 0 {
        lemma_size_below_price(g, sel, roots, sorted, part, (n - 1) as nat);
        let p = start_problem(g, sorted);
        let rank = choose|rank: Map<ClassId, nat>| solves_with(p, part, rank);
        let c = (n - 1) as ClassId;
        vstd::std_specs::vec::axiom_spec_len(&g.classes);
        if part.contains_key(c) {
            assert(p.classes.contains_key(c));
            lemma_start_choice(g, sorted, c, part[c]);
            assert(g.nodes@[part[c] as int].cost >= 0);
        } else {
            assert(!reaches(g, sel, roots, c));
        }
    }
}

} // verus!
