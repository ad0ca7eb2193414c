//! A starting point for the solver, built on the simplified problem.
use crate::collections::{fx_set_insert, id_set, id_set_get_index, id_set_len};
use crate::cost::{Cost, ONE};
use crate::egraph::{ClassId, NodeId};
use crate::extract::faster_ilp_cbc::block::shows;
use crate::extract::faster_ilp_cbc::cycles::{
    closed_by_steps, find_cycles_in_result, holds_part, is_part, is_used, lemma_picked, picked,
    picks_fit, step,
};
use crate::extract::faster_ilp_cbc::encoding::is_closed_under;
use crate::extract::faster_ilp_cbc::problem::{
    choice_of, choices_in, lemma_offered, lemma_place, offers, place, solves, solves_with, sound,
    sound_class, Choice, NodeIlp, Problem, Vars,
};
use crate::extract::faster_ilp_cbc::rows::{columns_apart, owned};
use crate::extract::measure::lemma_below_finite;
use crate::extract::{ids_to_vec, ExtractionResult};
use crate::milp::stage::{Col, Staged};
use indexmap::IndexSet;
use rustc_hash::FxHashSet;
use vstd::prelude::*;

verus! {

/// Why there is no starting point.
#[derive(Debug, Clone, Copy, PartialEq, Eq)]
pub enum SeedFailure {
    /// The walk reached a class without a choice.
    NoMembers { class: ClassId },
    /// The choices the walk committed to contain a cycle.
    Cycle,
}

/// Choice `k` is the first of the cheapest.
pub open spec fn first_cheapest(list: Seq<Choice>, k: int) -> bool {
    &&& 0 <= k < list.len()
    &&& forall|i: int|
        0 <= i < list.len() ==> list[k].cost <= (#[trigger] list[i]).cost && (i < k ==> list[k].cost
            < list[i].cost)
}

/// Choice `i` is the seed of class `c`: the preferred node if it is offered,
/// else the fallback's if that is, else the first of the cheapest.
pub open spec fn is_seed_pick(
    p: Problem,
    preferred: Map<ClassId, NodeId>,
    fallback: Map<ClassId, NodeId>,
    c: ClassId,
    i: int,
) -> bool {
    let list = p.classes[c];
    if preferred.contains_key(c) && offers(list, preferred[c]) {
        i == place(list, preferred[c])
    } else if fallback.contains_key(c) && offers(list, fallback[c]) {
        i == place(list, fallback[c])
    } else {
        first_cheapest(list, i)
    }
}

/// The seed of every class that has a choice.
pub open spec fn seed_choices(
    p: Problem,
    preferred: Map<ClassId, NodeId>,
    fallback: Map<ClassId, NodeId>,
) -> Map<ClassId, NodeId> {
    Map::new(
        |c: ClassId| p.classes.contains_key(c) && p.classes[c].len() > 0,
        |c: ClassId|
            p.classes[c][choose|i: int| is_seed_pick(p, preferred, fallback, c, i)].node,
    )
}

/// The classes used that the preferred nodes do not serve.
pub open spec fn reseeded(
    p: Problem,
    preferred: Map<ClassId, NodeId>,
    fallback: Map<ClassId, NodeId>,
) -> Set<ClassId> {
    Set::new(
        |c: ClassId|
            is_used(p, seed_choices(p, preferred, fallback), c) && !(preferred.contains_key(c)
                && offers(p.classes[c], preferred[c])),
    )
}

/// Every class used has a choice.
pub open spec fn all_served(p: Problem, sel: Map<ClassId, NodeId>) -> bool {
    forall|c: ClassId| #[trigger] is_used(p, sel, c) ==> sel.contains_key(c)
}

fn find_member(nodes: &Vec<NodeIlp>, n: NodeId) -> (r: Option<usize>)
    ensures
        r is Some <==> offers(choices_in(nodes@), n),
        r matches Some(i) ==> i < nodes@.len() && choices_in(nodes@)[i as int].node == n,
{
    let ghost list = choices_in(nodes@);
    let mut i: usize = 0;
    while i < nodes.len()
        invariant
            list == choices_in(nodes@),
            i <= nodes@.len(),
            forall|k: int| 0 <= k < i ==> (#[trigger] list[k]).node != n,
        decreases nodes@.len() - i,
    {
        assert(list[i as int].node == nodes@[i as int].member);
        if nodes[i].member == n {
            return Some(i);
        }
        i += 1;
    }
    None
}

fn cheapest_place(nodes: &Vec<NodeIlp>) -> (r: usize)
    requires
        nodes@.len() > 0,
    ensures
        first_cheapest(choices_in(nodes@), r as int),
{
    let ghost list = choices_in(nodes@);
    let mut best: usize = 0;
    let mut i: usize = 1;
    while i < nodes.len()
        invariant
            list == choices_in(nodes@),
            best < i <= nodes@.len(),
            forall|k: int|
                0 <= k < i ==> list[best as int].cost <= (#[trigger] list[k]).cost && (k < best
                    ==> list[best as int].cost < list[k].cost),
        decreases nodes@.len() - i,
    {
        assert(list[i as int].cost == nodes@[i as int].cost);
        assert(list[best as int].cost == nodes@[best as int].cost);
        if nodes[i].cost < nodes[best].cost {
            best = i;
        }
        i += 1;
    }
    best
}

pub proof fn lemma_seed_pick_unique(
    p: Problem,
    n: nat,
    preferred: Map<ClassId, NodeId>,
    fallback: Map<ClassId, NodeId>,
    c: ClassId,
    i: int,
)
    requires
        sound(p, n),
        p.classes.contains_key(c),
        is_seed_pick(p, preferred, fallback, c, i),
        p.classes[c].len() > 0,
    ensures
        0 <= i < p.classes[c].len(),
        seed_choices(p, preferred, fallback).contains_key(c),
        seed_choices(p, preferred, fallback)[c] == p.classes[c][i].node,
        choice_of(p, c, p.classes[c][i].node) == p.classes[c][i],
        offers(p.classes[c], p.classes[c][i].node),
{
    let list = p.classes[c];
    let j = choose|j: int| is_seed_pick(p, preferred, fallback, c, j);
    assert(is_seed_pick(p, preferred, fallback, c, j));
    if preferred.contains_key(c) && offers(list, preferred[c]) {
        lemma_offered(list, preferred[c]);
    } else if fallback.contains_key(c) && offers(list, fallback[c]) {
        lemma_offered(list, fallback[c]);
    } else {
        let a = list[i];
        let b = list[j];
        assert(i == j);
    }
    assert(sound_class(p, list));
    lemma_place(list, i);
}

/// The seed of class `c`, and whether it is not the preferred node.
fn seed_pick(
    vars: &Vars,
    c: ClassId,
    preferred: &ExtractionResult,
    fallback: &ExtractionResult,
) -> (r: (usize, bool))
    requires
        vars.wf(),
        vars@.classes.contains_key(c),
        vars@.classes[c].len() > 0,
    ensures
        is_seed_pick(vars@, preferred@, fallback@, c, r.0 as int),
        r.0 < vars@.classes[c].len(),
        r.1 == !(preferred@.contains_key(c) && offers(vars@.classes[c], preferred@[c])),
{
    let nodes: &Vec<NodeIlp> = &vars.classes[c].nodes;
    let ghost list = vars@.classes[c];
    proof {
        assert(list == choices_in(nodes@));
        assert(sound_class(vars@, list));
    }
    if let Some(nid) = preferred.get(c) {
        if let Some(i) = find_member(nodes, nid) {
            proof {
                lemma_place(list, i as int);
            }
            return (i, false);
        }
    }
    if let Some(nid) = fallback.get(c) {
        if let Some(i) = find_member(nodes, nid) {
            proof {
                lemma_place(list, i as int);
            }
            return (i, true);
        }
    }
    (cheapest_place(nodes), true)
}

/// Builds a complete starting point by walking the problem itself: committing
/// to a node, then descending through what *that* node needs. Nodes are taken
/// from `preferred` where they are still offered, else from `fallback`, else
/// the cheapest is. Also how many classes were not served by `preferred`.
pub(crate) fn seed_simplified(
    vars: &Vars,
    preferred: &ExtractionResult,
    fallback: &ExtractionResult,
) -> (r: Result<(Vec<Option<usize>>, usize), SeedFailure>)
    requires
        vars.wf(),
    ensures
        r matches Ok((picks, repaired)) ==> {
            let sel = seed_choices(vars@, preferred@, fallback@);
            &&& picks@.len() == vars.size()
            &&& picks_fit(vars@, picks@)
            &&& solves(vars@, picked(vars@, picks@))
            &&& forall|c: ClassId| #[trigger]
                picked(vars@, picks@).contains_key(c) <==> is_used(vars@, sel, c)
            &&& forall|c: ClassId| #[trigger]
                picked(vars@, picks@).contains_key(c) ==> picked(vars@, picks@)[c] == sel[c]
            &&& repaired == reseeded(vars@, preferred@, fallback@).len()
        },
        r matches Err(SeedFailure::NoMembers { class }) ==> is_used(
            vars@,
            seed_choices(vars@, preferred@, fallback@),
            class,
        ) && vars@.classes.contains_key(class) && vars@.classes[class].len() == 0,
        r matches Err(why) ==> (why is Cycle <==> all_served(
            vars@,
            seed_choices(vars@, preferred@, fallback@),
        )),
        r is Ok <==> all_served(vars@, seed_choices(vars@, preferred@, fallback@)) && holds_part(
            vars@,
            seed_choices(vars@, preferred@, fallback@),
        ),
{
    let ghost p = vars@;
    let n: usize = vars.classes.len();
    let ghost sel = seed_choices(p, preferred@, fallback@);
    let ghost known = Set::new(|x: ClassId| x < n);
    proof {
        lemma_below_finite(n as nat);
        crate::extract::ilp::warm::lemma_below_len(n as nat);
    }
    let mut picks: Vec<Option<usize>> = Vec::new();
    while picks.len() < n
        invariant
            picks@.len() <= n,
            forall|k: int| 0 <= k < picks@.len() ==> (#[trigger] picks@[k]) is None,
        decreases n - picks@.len(),
    {
        picks.push(None);
    }
    let mut repaired: usize = 0;
    let ghost mut fixed: Set<ClassId> = Set::empty();
    let mut todo: Vec<ClassId> = ids_to_vec(vars.roots.as_slice());
    let mut done: FxHashSet<ClassId> = FxHashSet::default();
    proof {
        assert forall|k: int| 0 <= k < todo@.len() implies is_used(p, sel, #[trigger] todo@[k])
            && p.classes.contains_key(todo@[k]) by {
            assert(p.roots.contains(todo@[k]));
        }
        assert forall|c: ClassId| !#[trigger] picked(p, picks@).contains_key(c) by {}
    }
    while todo.len() > 0
        invariant
            vars.wf(),
            p == vars@,
            n == vars.size(),
            sel == seed_choices(p, preferred@, fallback@),
            known == Set::new(|x: ClassId| x < n),
            known.finite(),
            known.len() <= n,
            picks@.len() == n,
            picks_fit(p, picks@),
            forall|c: ClassId| #[trigger]
                picked(p, picks@).contains_key(c) <==> done@.contains(c),
            forall|c: ClassId| #[trigger]
                picked(p, picks@).contains_key(c) ==> is_used(p, sel, c) && sel.contains_key(c)
                    && p.classes.contains_key(c) && picked(p, picks@)[c] == sel[c],
            forall|k: int|
                0 <= k < todo@.len() ==> is_used(p, sel, #[trigger] todo@[k])
                    && p.classes.contains_key(todo@[k]),
            forall|r: ClassId| #[trigger]
                p.roots.contains(r) ==> done@.contains(r) || todo@.contains(r),
            forall|a: ClassId, b: ClassId|
                done@.contains(a) && #[trigger] step(p, sel, a, b) ==> done@.contains(b)
                    || todo@.contains(b),
            fixed.finite(),
            repaired == fixed.len(),
            forall|c: ClassId| #[trigger]
                fixed.contains(c) <==> done@.contains(c) && !(preferred@.contains_key(c) && offers(
                    p.classes[c],
                    preferred@[c],
                )),
        decreases known.difference(done@).len(), todo@.len(),
    {
        let ghost todo0 = todo@;
        let ghost done0 = done@;
        let ghost picks0 = picks@;
        let c: ClassId = todo[todo.len() - 1];
        todo.pop();
        proof {
            assert(todo0[todo0.len() - 1] == c);
            assert(p.classes.contains_key(c));
            assert forall|d: ClassId| todo0.contains(d) implies d == c
                || #[trigger] todo@.contains(d) by {
                let k = choose|k: int| 0 <= k < todo0.len() && todo0[k] == d;
                if k < todo0.len() - 1 {
                    assert(todo@[k] == d);
                }
            }
        }
        if fx_set_insert(&mut done, c) {
            let nodes: &Vec<NodeIlp> = &vars.classes[c].nodes;
            assert(p.classes[c] == choices_in(nodes@));
            if nodes.len() == 0 {
                assert(!sel.contains_key(c));
                assert(is_used(p, sel, c));
                return Err(SeedFailure::NoMembers { class: c });
            }
            let (i, off) = seed_pick(vars, c, preferred, fallback);
            proof {
                lemma_seed_pick_unique(p, n as nat, preferred@, fallback@, c, i as int);
            }
            let ghost rest = todo@;
            let kids: &IndexSet<ClassId> = &nodes[i].children_classes;
            let len: usize = id_set_len(kids);
            let ghost o = p.classes[c][i as int];
            assert(o == nodes@[i as int]@);
            let mut k: usize = 0;
            while k < len
                invariant
                    vars.wf(),
                    p == vars@,
                    n == vars.size(),
                    p.classes.contains_key(c),
                    i < p.classes[c].len(),
                    o == p.classes[c][i as int],
                    o.kids == id_set(*kids),
                    sel.contains_key(c),
                    choice_of(p, c, sel[c]) == o,
                    is_used(p, sel, c),
                    k <= len == o.kids.len(),
                    forall|k: int|
                        0 <= k < todo@.len() ==> is_used(p, sel, #[trigger] todo@[k])
                            && p.classes.contains_key(todo@[k]),
                    forall|d: ClassId| rest.contains(d) ==> #[trigger] todo@.contains(d),
                    forall|j: int| 0 <= j < k ==> todo@.contains(#[trigger] o.kids[j]),
                decreases len - k,
            {
                if let Some(d) = id_set_get_index(kids, k) {
                    proof {
                        assert(o.kids[k as int] == d);
                        assert(p.classes[c][i as int].kids.contains(d));
                        assert(sound_class(p, p.classes[c]));
                        assert(step(p, sel, c, d));
                        assert(is_used(p, sel, d)) by {
                            assert forall|classes: Set<ClassId>| #[trigger]
                                closed_by_steps(p, sel, classes) implies classes.contains(d) by {
                                assert(classes.contains(c));
                            }
                        }
                    }
                    let ghost before = todo@;
                    todo.push(d);
                    proof {
                        assert(todo@[before.len() as int] == d);
                        assert forall|x: ClassId| before.contains(x) implies #[trigger] todo@.contains(
                        x) by {
                            let j = choose|j: int| 0 <= j < before.len() && before[j] == x;
                            assert(todo@[j] == x);
                        }
                    }
                }
                k += 1;
            }
            picks.set(c, Some(i));
            proof {
                assert forall|d: ClassId| #[trigger]
                    picked(p, picks@).contains_key(d) <==> done@.contains(d) by {
                    assert(picked(p, picks0).contains_key(d) <==> done0.contains(d));
                }
                assert forall|d: ClassId| #[trigger] picked(p, picks@).contains_key(d) implies is_used(
                    p,
                    sel,
                    d,
                ) && sel.contains_key(d) && p.classes.contains_key(d) && picked(p, picks@)[d]
                    == sel[d] by {
                    if d != c {
                        assert(picked(p, picks0).contains_key(d));
                        assert(picked(p, picks0)[d] == picked(p, picks@)[d]);
                    }
                }
                assert forall|a: ClassId, b: ClassId|
                    done@.contains(a) && #[trigger] step(p, sel, a, b) implies done@.contains(b)
                    || todo@.contains(b) by {
                    if a == c {
                        let j = choose|j: int| 0 <= j < o.kids.len() && o.kids[j] == b;
                        assert(todo@.contains(o.kids[j]));
                    } else {
                        assert(done0.contains(a));
                        if !done0.contains(b) && b != c {
                            assert(todo0.contains(b));
                            assert(rest.contains(b));
                        }
                    }
                }
                assert forall|r: ClassId| #[trigger] p.roots.contains(r) implies done@.contains(r)
                    || todo@.contains(r) by {
                    if !done0.contains(r) && r != c {
                        assert(todo0.contains(r));
                        assert(rest.contains(r));
                    }
                }
                let left0 = known.difference(done0);
                assert(left0.contains(c));
                assert(known.difference(done@) =~= left0.remove(c));
            }
            if off {
                proof {
                    assert(!fixed.contains(c));
                    assert(fixed.insert(c).subset_of(known)) by {
                        assert forall|d: ClassId| fixed.insert(c).contains(d) implies known.contains(
                        d) by {
                            if d != c {
                                assert(done0.contains(d));
                                assert(picked(p, picks0).contains_key(d));
                            }
                        }
                    }
                    vstd::set_lib::lemma_len_subset(fixed.insert(c), known);
                    fixed = fixed.insert(c);
                }
                repaired += 1;
            }
        } else {
            assert(done@ =~= done0);
        }
    }
    let ghost taken = picked(p, picks@);
    proof {
        lemma_picked(p, n as nat, picks@);
        assert(closed_by_steps(p, sel, done@)) by {
            assert forall|r: ClassId| #[trigger] p.roots.contains(r) implies done@.contains(r) by {
                assert(done@.contains(r) || todo@.contains(r));
            }
            assert forall|a: ClassId, b: ClassId|
                done@.contains(a) && #[trigger] step(p, sel, a, b) implies done@.contains(b) by {
                assert(done@.contains(b) || todo@.contains(b));
            }
        }
        assert forall|c: ClassId| #[trigger] taken.contains_key(c) <==> is_used(p, sel, c) by {
            if is_used(p, sel, c) {
                assert(done@.contains(c));
            }
        }
        assert(all_served(p, sel)) by {
            assert forall|c: ClassId| #[trigger] is_used(p, sel, c) implies sel.contains_key(c) by {
                assert(taken.contains_key(c));
            }
        }
        assert forall|a: ClassId, b: ClassId|
            taken.contains_key(a) && #[trigger] choice_of(p, a, taken[a]).kids.contains(
                b,
            ) implies taken.contains_key(b) by {
            assert(step(p, sel, a, b));
            assert(done@.contains(a));
            assert(done@.contains(b));
        }
        assert forall|r: ClassId| #[trigger] p.roots.contains(r) implies taken.contains_key(r) by {
            assert(done@.contains(r));
        }
        assert(reseeded(p, preferred@, fallback@) =~= fixed) by {
            assert forall|c: ClassId| reseeded(p, preferred@, fallback@).contains(c)
                <==> fixed.contains(c) by {
                assert(taken.contains_key(c) <==> is_used(p, sel, c));
            }
        }
        lemma_taken(p, n as nat, sel, taken);
    }
    if seed_has_cycle(vars, &picks) {
        return Err(SeedFailure::Cycle);
    }
    Ok((picks, repaired))
}

/// The choices that are used hold a solution if all choices do, and are then
/// one.
proof fn lemma_taken(
    p: Problem,
    n: nat,
    sel: Map<ClassId, NodeId>,
    taken: Map<ClassId, NodeId>,
)
    requires
        sound(p, n),
        is_part(taken, sel),
        is_closed_under(p, taken),
        forall|c: ClassId| #[trigger] taken.contains_key(c) <==> is_used(p, sel, c),
        forall|c: ClassId| #[trigger]
            taken.contains_key(c) ==> p.classes.contains_key(c) && offers(p.classes[c], taken[c]),
    ensures
        holds_part(p, sel) <==> holds_part(p, taken),
        holds_part(p, taken) <==> solves(p, taken),
{
    if solves(p, taken) {
        assert(is_part(taken, taken));
    }
    if holds_part(p, taken) {
        let part = choose|part: Map<ClassId, NodeId>|
            is_part(part, taken) && #[trigger] solves(p, part);
        assert(is_part(part, sel)) by {
            assert forall|c: ClassId| #[trigger] part.contains_key(c) implies sel.contains_key(c)
                && sel[c] == part[c] by {
                assert(taken.contains_key(c));
            }
        }
    }
    if holds_part(p, sel) {
        let part = choose|part: Map<ClassId, NodeId>|
            is_part(part, sel) && #[trigger] solves(p, part);
        let rank = choose|rank: Map<ClassId, nat>| solves_with(p, part, rank);
        assert(closed_by_steps(p, sel, part.dom())) by {
            assert forall|r: ClassId| #[trigger] p.roots.contains(r) implies part.dom().contains(
            r) by {
                assert(part.contains_key(r));
            }
            assert forall|c: ClassId, d: ClassId|
                part.dom().contains(c) && #[trigger] step(p, sel, c, d) implies part.dom().contains(
            d) by {
                assert(part.contains_key(c));
                assert(choice_of(p, c, part[c]).kids.contains(d));
            }
        }
        assert(solves_with(p, taken, rank)) by {
            assert forall|c: ClassId, d: ClassId|
                taken.contains_key(c) && #[trigger] choice_of(p, c, taken[c]).kids.contains(
                    d,
                ) implies taken.contains_key(d) && rank[d] < rank[c] by {
                assert(is_used(p, sel, c));
                assert(part.dom().contains(c));
                assert(part.contains_key(c));
                assert(part[c] == taken[c]);
                assert(choice_of(p, c, part[c]).kids.contains(d));
            }
        }
        assert(solves(p, taken));
    }
}

/// Whether the choices contain a cycle below the roots.
fn seed_has_cycle(vars: &Vars, picks: &Vec<Option<usize>>) -> (r: bool)
    requires
        vars.wf(),
        picks@.len() == vars.size(),
        picks_fit(vars@, picks@),
        is_closed_under(vars@, picked(vars@, picks@)),
    ensures
        r == !holds_part(vars@, picked(vars@, picks@)),
{
    find_cycles_in_result(vars, picks).len() > 0
}

/// What a starting point says of a column: nothing of a column that is not of
/// the problem.
pub open spec fn is_start(
    p: Problem,
    actives: Seq<Col>,
    sel: Map<ClassId, NodeId>,
    start: Map<Col, Cost>,
) -> bool {
    &&& forall|j: Col| #[trigger] start.contains_key(j) <==> owned(p, actives, j as int)
    &&& forall|c: ClassId| #[trigger]
        p.classes.contains_key(c) ==> start[actives[c as int]] == (if sel.contains_key(c) {
            ONE
        } else {
            0
        })
    &&& forall|c: ClassId, i: int|
        p.classes.contains_key(c) && 0 <= i < p.classes[c].len() ==> start[(
        #[trigger] p.classes[c][i]).variable] == (if sel.contains_key(c) && sel[c]
            == p.classes[c][i].node {
            ONE
        } else {
            0
        })
}

/// Columns of the first `c` classes, and of class `c` with its first `i`
/// choices where `own`.
pub open spec fn owned_to(p: Problem, actives: Seq<Col>, c: int, own: bool, i: int, j: int) -> bool {
    ||| exists|d: ClassId| #[trigger]
        p.classes.contains_key(d) && (d < c || (d == c && own)) && actives[d as int] == j
    ||| exists|d: ClassId, k: int|
        p.classes.contains_key(d) && 0 <= k < p.classes[d].len() && (d < c || (d == c && k < i)) && (
        #[trigger] p.classes[d][k]).variable == j
}

/// [`is_start`] of the columns in [`owned_to`].
pub open spec fn is_start_to(
    p: Problem,
    actives: Seq<Col>,
    sel: Map<ClassId, NodeId>,
    start: Map<Col, Cost>,
    c: int,
    own: bool,
    i: int,
) -> bool {
    &&& forall|j: Col| #[trigger]
        start.contains_key(j) <==> owned_to(p, actives, c, own, i, j as int)
    &&& forall|d: ClassId| #[trigger]
        p.classes.contains_key(d) && (d < c || (d == c && own)) ==> start[actives[d as int]] == (
        if sel.contains_key(d) {
            ONE
        } else {
            0
        })
    &&& forall|d: ClassId, k: int|
        p.classes.contains_key(d) && 0 <= k < p.classes[d].len() && (d < c || (d == c && k < i))
            ==> start[(#[trigger] p.classes[d][k]).variable] == (if sel.contains_key(d) && sel[d]
            == p.classes[d][k].node {
            ONE
        } else {
            0
        })
}

/// Stages the choices as a MIP start. Every column of the problem gets a
/// value, so that no backend has to guess.
pub(crate) fn apply_seed(vars: &Vars, picks: &Vec<Option<usize>>, model: &mut Staged)
    requires
        vars.wf(),
        picks@.len() == vars.size(),
        picks_fit(vars@, picks@),
        columns_apart(vars@, vars.actives(), old(model).lp().cols.len()),
        old(model).wf(),
        old(model).start() == Map::<Col, Cost>::empty(),
    ensures
        final(model).wf(),
        final(model).lp() == old(model).lp(),
        final(model).sent() == old(model).sent(),
        is_start(vars@, vars.actives(), picked(vars@, picks@), final(model).start()),
{
    let ghost p = vars@;
    let ghost actives = vars.actives();
    let ghost sel = picked(p, picks@);
    let ghost width = model.lp().cols.len();
    let n: usize = vars.classes.len();
    let mut c: usize = 0;
    assert(is_start_to(p, actives, sel, model.start(), 0, false, 0));
    while c < n
        invariant
            vars.wf(),
            p == vars@,
            n == vars.size(),
            actives == vars.actives(),
            sel == picked(p, picks@),
            picks@.len() == n,
            picks_fit(p, picks@),
            columns_apart(p, actives, width),
            c <= n,
            model.wf(),
            model.lp() == old(model).lp(),
            model.sent() == old(model).sent(),
            is_start_to(p, actives, sel, model.start(), c as int, false, 0),
        decreases n - c,
    {
        if vars.live[c] {
            let nodes: &Vec<NodeIlp> = &vars.classes[c].nodes;
            let active: Col = vars.classes[c].active;
            let value: Cost = if picks[c].is_some() {
                ONE
            } else {
                0
            };
            let ghost list = p.classes[c];
            let ghost start0 = model.start();
            proof {
                assert(p.classes.contains_key(c));
                assert(list == choices_in(nodes@));
                assert(active == actives[c as int]);
                assert(sound_class(p, list));
            }
            model.set_warm(active, value);
            proof {
                lemma_start_active(p, actives, sel, start0, model.start(), c, width);
            }
            let mut i: usize = 0;
            while i < nodes.len()
                invariant
                    vars.wf(),
                    p == vars@,
                    n == vars.size(),
                    actives == vars.actives(),
                    sel == picked(p, picks@),
                    picks@.len() == n,
                    picks_fit(p, picks@),
                    columns_apart(p, actives, width),
                    c < n,
                    p.classes.contains_key(c),
                    list == p.classes[c],
                    list == choices_in(nodes@),
                    sound_class(p, list),
                    i <= nodes@.len(),
                    model.wf(),
                    model.lp() == old(model).lp(),
                    model.sent() == old(model).sent(),
                    is_start_to(p, actives, sel, model.start(), c as int, true, i as int),
                decreases nodes@.len() - i,
            {
                let chosen: bool = match picks[c] {
                    Some(k) => k == i,
                    None => false,
                };
                let value: Cost = if chosen {
                    ONE
                } else {
                    0
                };
                let ghost start1 = model.start();
                proof {
                    assert(p.classes[c][i as int] == nodes@[i as int]@);
                    if let Some(k) = picks@[c as int] {
                        assert(picks@[c as int] is Some);
                        if k < i {
                            assert(list[k as int].node != list[i as int].node);
                        } else if i < k {
                            assert(list[i as int].node != list[k as int].node);
                        }
                    }
                }
                model.set_warm(nodes[i].variable, value);
                proof {
                    lemma_start_choice(
                        p,
                        actives,
                        sel,
                        start1,
                        model.start(),
                        c,
                        i as int,
                        width,
                    );
                }
                i += 1;
            }
            proof {
                lemma_start_class(p, actives, sel, model.start(), c);
            }
        } else {
            proof {
                assert(!p.classes.contains_key(c));
                let start = model.start();
                assert forall|j: Col| #[trigger] start.contains_key(j) <==> owned_to(
                    p,
                    actives,
                    c + 1,
                    false,
                    0,
                    j as int,
                ) by {
                    assert(owned_to(p, actives, c + 1, false, 0, j as int) == owned_to(
                        p,
                        actives,
                        c as int,
                        false,
                        0,
                        j as int,
                    ));
                }
                assert(is_start_to(p, actives, sel, start, c + 1, false, 0));
            }
        }
        c += 1;
    }
    proof {
        let start = model.start();
        assert forall|d: ClassId| #[trigger] p.classes.contains_key(d) implies d < n by {}
        assert forall|j: Col| #[trigger] start.contains_key(j) <==> owned(p, actives, j as int) by {
            assert(owned_to(p, actives, n as int, false, 0, j as int) == owned(
                p,
                actives,
                j as int,
            ));
        }
    }
}

proof fn lemma_start_active(
    p: Problem,
    actives: Seq<Col>,
    sel: Map<ClassId, NodeId>,
    before: Map<Col, Cost>,
    after: Map<Col, Cost>,
    c: ClassId,
    width: nat,
)
    requires
        columns_apart(p, actives, width),
        p.classes.contains_key(c),
        is_start_to(p, actives, sel, before, c as int, false, 0),
        after == before.insert(
            actives[c as int],
            if sel.contains_key(c) {
                ONE
            } else {
                0
            },
        ),
    ensures
        is_start_to(p, actives, sel, after, c as int, true, 0),
{
    let a = actives[c as int];
    assert forall|j: Col| #[trigger] after.contains_key(j) <==> owned_to(
        p,
        actives,
        c as int,
        true,
        0,
        j as int,
    ) by {
        assert(before.contains_key(j) <==> owned_to(p, actives, c as int, false, 0, j as int));
        if j == a {
            assert(p.classes.contains_key(c) && actives[c as int] == j);
        }
    }
    assert forall|d: ClassId, k: int|
        p.classes.contains_key(d) && 0 <= k < p.classes[d].len() && (d < c || (d == c && k
            < 0)) implies after[(#[trigger] p.classes[d][k]).variable] == (if sel.contains_key(d)
        && sel[d] == p.classes[d][k].node {
        ONE
    } else {
        0
    }) by {
        assert(p.classes.contains_key(c));
        assert(a != p.classes[d][k].variable);
    }
}

proof fn lemma_start_choice(
    p: Problem,
    actives: Seq<Col>,
    sel: Map<ClassId, NodeId>,
    before: Map<Col, Cost>,
    after: Map<Col, Cost>,
    c: ClassId,
    i: int,
    width: nat,
)
    requires
        columns_apart(p, actives, width),
        p.classes.contains_key(c),
        0 <= i < p.classes[c].len(),
        is_start_to(p, actives, sel, before, c as int, true, i),
        after == before.insert(
            p.classes[c][i].variable,
            if sel.contains_key(c) && sel[c] == p.classes[c][i].node {
                ONE
            } else {
                0
            },
        ),
    ensures
        is_start_to(p, actives, sel, after, c as int, true, i + 1),
{
    let v = p.classes[c][i].variable;
    assert forall|j: Col| #[trigger] after.contains_key(j) <==> owned_to(
        p,
        actives,
        c as int,
        true,
        i + 1,
        j as int,
    ) by {
        assert(before.contains_key(j) <==> owned_to(p, actives, c as int, true, i, j as int));
        if j == v {
            assert(p.classes[c][i].variable == j);
        }
    }
    assert forall|d: ClassId, k: int|
        p.classes.contains_key(d) && 0 <= k < p.classes[d].len() && (d < c || (d == c && k < i
            + 1)) implies after[(#[trigger] p.classes[d][k]).variable] == (if sel.contains_key(d)
        && sel[d] == p.classes[d][k].node {
        ONE
    } else {
        0
    }) by {
        if p.classes[d][k].variable == p.classes[c][i].variable {
            assert(d == c && k == i);
        }
    }
}

proof fn lemma_start_class(
    p: Problem,
    actives: Seq<Col>,
    sel: Map<ClassId, NodeId>,
    start: Map<Col, Cost>,
    c: ClassId,
)
    requires
        p.classes.contains_key(c),
        is_start_to(p, actives, sel, start, c as int, true, p.classes[c].len() as int),
    ensures
        is_start_to(p, actives, sel, start, c + 1, false, 0),
{
    let len = p.classes[c].len() as int;
    assert forall|j: Col| #[trigger] start.contains_key(j) <==> owned_to(
        p,
        actives,
        c + 1,
        false,
        0,
        j as int,
    ) by {
        assert(owned_to(p, actives, c + 1, false, 0, j as int) == owned_to(
            p,
            actives,
            c as int,
            true,
            len,
            j as int,
        ));
    }
}

/// A starting point is feasible: the point of the model that is the solution
/// it was made of agrees with it on every column it speaks of.
pub proof fn start_is_solution(
    p: Problem,
    actives: Seq<Col>,
    sel: Map<ClassId, NodeId>,
    start: Map<Col, Cost>,
    x: Seq<int>,
    j: Col,
)
    requires
        is_start(p, actives, sel, start),
        shows(p, actives, sel, x),
        start.contains_key(j),
    ensures
        start[j] == x[j as int] * ONE,
{
    assert(owned(p, actives, j as int));
    if exists|c: ClassId| #[trigger] p.classes.contains_key(c) && actives[c as int] == j as int {
        let c = choose|c: ClassId| #[trigger]
            p.classes.contains_key(c) && actives[c as int] == j as int;
        assert(start[actives[c as int]] == (if sel.contains_key(c) {
            ONE
        } else {
            0
        }));
    } else {
        let (c, i) = choose|c: ClassId, i: int|
            p.classes.contains_key(c) && 0 <= i < p.classes[c].len() && (
            #[trigger] p.classes[c][i]).variable == j as int;
        assert(p.classes[c][i].variable == j);
    }
}

} // verus!
