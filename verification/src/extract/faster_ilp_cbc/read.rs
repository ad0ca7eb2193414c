//! Reading a solver's solution.
use crate::collections::{id_set, id_set_get_index, id_set_len};
use crate::cost::{add_costs, plus, Cost};
use crate::egraph::{ClassId, NodeId};
use crate::extract::faster_ilp_cbc::cycles::{lemma_picked, picked, picks_fit};
use crate::extract::faster_ilp_cbc::encoding::{is_closed_under, only_on, reads};
use crate::extract::faster_ilp_cbc::problem::{
    choice_of, choices_in, offers, place, sound_class, Choice, NodeIlp, Problem, Vars,
};
use crate::extract::ExtractionResult;
use crate::milp::stage::Col;
use crate::milp::MilpSolution;
use indexmap::IndexSet;
use vstd::prelude::*;

verus! {

/// The columns that are on in a solution.
pub open spec fn on_in(solution: MilpSolution) -> spec_fn(Col) -> bool {
    |j: Col| solution.value_of(j) > 0
}

/// Of the first `k` choices exactly the `i`th is on.
pub open spec fn sole_on(list: Seq<Choice>, on: spec_fn(Col) -> bool, k: int, i: int) -> bool {
    &&& 0 <= i < k
    &&& forall|m: int| 0 <= m < k ==> on((#[trigger] list[m]).variable) == (m == i)
}

/// What a class whose column is on is to be read as: its only choice, or the
/// only one that is on.
pub open spec fn readable(list: Seq<Choice>, on: spec_fn(Col) -> bool) -> bool {
    list.len() == 1 || exists|i: int| sole_on(list, on, list.len() as int, i)
}

/// Every class that is on can be read.
pub open spec fn all_readable(p: Problem, actives: Seq<Col>, on: spec_fn(Col) -> bool) -> bool {
    forall|c: ClassId| #[trigger]
        p.classes.contains_key(c) && on(actives[c as int]) ==> readable(p.classes[c], on)
}

/// The place of the only node that is on.
fn find_on(nodes: &Vec<NodeIlp>, solution: &MilpSolution) -> (r: Option<usize>)
    ensures
        r is Some <==> exists|i: int|
            sole_on(choices_in(nodes@), on_in(*solution), nodes@.len() as int, i),
        r matches Some(i) ==> sole_on(
            choices_in(nodes@),
            on_in(*solution),
            nodes@.len() as int,
            i as int,
        ),
{
    let ghost list = choices_in(nodes@);
    let ghost on = on_in(*solution);
    let mut found: Option<usize> = None;
    let mut i: usize = 0;
    while i < nodes.len()
        invariant
            list == choices_in(nodes@),
            on == on_in(*solution),
            i <= nodes@.len(),
            match found {
                Some(k) => sole_on(list, on, i as int, k as int),
                None => forall|m: int| 0 <= m < i ==> !on((#[trigger] list[m]).variable),
            },
        decreases nodes@.len() - i,
    {
        assert(list[i as int].variable == nodes@[i as int].variable);
        if solution.col(nodes[i].variable) > 0 {
            assert(on(list[i as int].variable));
            if let Some(k) = found {
                proof {
                    assert(on(list[k as int].variable));
                    if exists|j: int| sole_on(list, on, list.len() as int, j) {
                        let j = choose|j: int| sole_on(list, on, list.len() as int, j);
                        assert(k == j);
                        assert(i == j);
                    }
                }
                return None;
            }
            found = Some(i);
        } else {
            assert(!on(list[i as int].variable));
        }
        i += 1;
    }
    proof {
        let len = nodes@.len() as int;
        if let Some(k) = found {
            assert(sole_on(list, on, len, k as int));
        } else if exists|j: int| sole_on(list, on, len, j) {
            let j = choose|j: int| sole_on(list, on, len, j);
            assert(on(list[j].variable));
        }
    }
    found
}

/// The choices of a solution; nothing if a class is on and cannot be read.
pub(crate) fn read_choices(vars: &Vars, solution: &MilpSolution) -> (r: Option<Vec<Option<usize>>>)
    requires
        vars.wf(),
    ensures
        r is Some <==> all_readable(vars@, vars.actives(), on_in(*solution)),
        r matches Some(picks) ==> {
            &&& picks@.len() == vars.size()
            &&& picks_fit(vars@, picks@)
            &&& reads(vars@, vars.actives(), on_in(*solution), picked(vars@, picks@))
        },
{
    let ghost p = vars@;
    let ghost actives = vars.actives();
    let ghost on = on_in(*solution);
    let n: usize = vars.classes.len();
    let mut picks: Vec<Option<usize>> = Vec::new();
    let mut c: usize = 0;
    while c < n
        invariant
            vars.wf(),
            p == vars@,
            actives == vars.actives(),
            on == on_in(*solution),
            n == vars.size(),
            c <= n,
            picks@.len() == c,
            forall|d: ClassId|
                d < c ==> {
                    let list = p.classes[d];
                    match #[trigger] picks@[d as int] {
                        Some(i) => {
                            &&& p.classes.contains_key(d)
                            &&& on(actives[d as int])
                            &&& i < list.len()
                            &&& list.len() == 1 || sole_on(list, on, list.len() as int, i as int)
                        },
                        None => !(p.classes.contains_key(d) && on(actives[d as int])),
                    }
                },
        decreases n - c,
    {
        let mut pick: Option<usize> = None;
        if vars.live[c] {
            assert(p.classes.contains_key(c));
            let nodes: &Vec<NodeIlp> = &vars.classes[c].nodes;
            assert(p.classes[c] == choices_in(nodes@));
            assert(actives[c as int] == vars.classes@[c as int].active);
            if solution.col(vars.classes[c].active) > 0 {
                assert(on(actives[c as int]));
                if nodes.len() == 1 {
                    pick = Some(0);
                } else {
                    match find_on(nodes, solution) {
                        Some(i) => {
                            pick = Some(i);
                        },
                        None => {
                            assert(!readable(p.classes[c], on));
                            return None;
                        },
                    }
                }
            }
        } else {
            assert(!p.classes.contains_key(c));
        }
        picks.push(pick);
        c += 1;
    }
    proof {
        let sel = picked(p, picks@);
        assert(picks_fit(p, picks@)) by {
            assert forall|d: ClassId|
                d < picks@.len() && (#[trigger] picks@[d as int]) is Some implies p.classes.contains_key(
                d,
            ) && picks@[d as int]->0 < p.classes[d].len() by {}
        }
        lemma_picked(p, n as nat, picks@);
        assert forall|d: ClassId| #[trigger] sel.contains_key(d) <==> p.classes.contains_key(d)
            && on(actives[d as int]) by {
            if d < n {
                assert(picks@[d as int] is Some || picks@[d as int] is None);
            }
            if p.classes.contains_key(d) {
                assert(d < n);
            }
        }
        assert forall|d: ClassId| #[trigger] sel.contains_key(d) implies offers(
            p.classes[d],
            sel[d],
        ) && (p.classes[d].len() == 1 || only_on(p.classes[d], on, sel[d])) by {
            let list = p.classes[d];
            let i = picks@[d as int]->0 as int;
            assert(picks@[d as int] is Some);
            assert(sound_class(p, list));
            if list.len() != 1 {
                assert(sole_on(list, on, list.len() as int, i));
                assert forall|m: int| 0 <= m < list.len() implies on(
                    (#[trigger] list[m]).variable,
                ) == (list[m].node == sel[d]) by {
                    if m < i {
                        assert(list[m].node != list[i].node);
                    } else if i < m {
                        assert(list[i].node != list[m].node);
                    }
                }
            }
        }
        assert forall|d: ClassId| #[trigger]
            p.classes.contains_key(d) && on(actives[d as int]) implies readable(
            p.classes[d],
            on,
        ) by {
            assert(sel.contains_key(d));
            assert(picks@[d as int] is Some);
        }
    }
    Some(picks)
}

fn kids_picked(node: &NodeIlp, picks: &Vec<Option<usize>>) -> (r: bool)
    ensures
        r == (forall|d: ClassId| #[trigger]
            node@.kids.contains(d) ==> d < picks@.len() && picks@[d as int] is Some),
{
    let kids: &IndexSet<ClassId> = &node.children_classes;
    let len: usize = id_set_len(kids);
    let mut k: usize = 0;
    while k < len
        invariant
            node@.kids == id_set(*kids),
            k <= len == node@.kids.len(),
            forall|j: int|
                0 <= j < k ==> (#[trigger] node@.kids[j]) < picks@.len()
                    && picks@[node@.kids[j] as int] is Some,
        decreases len - k,
    {
        if let Some(d) = id_set_get_index(kids, k) {
            assert(node@.kids[k as int] == d);
            if d >= picks.len() || picks[d].is_none() {
                assert(node@.kids.contains(d));
                return false;
            }
        }
        k += 1;
    }
    true
}

/// Whether the roots are chosen for, and with a class all it needs.
pub(crate) fn is_complete(vars: &Vars, picks: &Vec<Option<usize>>) -> (r: bool)
    requires
        vars.wf(),
        picks@.len() == vars.size(),
        picks_fit(vars@, picks@),
    ensures
        r == is_closed_under(vars@, picked(vars@, picks@)),
{
    let ghost p = vars@;
    let ghost n = vars.size();
    let ghost sel = picked(p, picks@);
    proof {
        lemma_picked(p, n, picks@);
    }
    let mut k: usize = 0;
    while k < vars.roots.len()
        invariant
            vars.wf(),
            p == vars@,
            n == vars.size(),
            sel == picked(p, picks@),
            picks@.len() == n,
            k <= p.roots.len(),
            forall|j: int| 0 <= j < k ==> sel.contains_key(#[trigger] p.roots[j]),
        decreases p.roots.len() - k,
    {
        let r: ClassId = vars.roots[k];
        assert(p.roots.contains(r));
        assert(p.classes.contains_key(r));
        if picks[r].is_none() {
            assert(!sel.contains_key(r));
            return false;
        }
        k += 1;
    }
    let mut c: usize = 0;
    while c < picks.len()
        invariant
            vars.wf(),
            p == vars@,
            n == vars.size(),
            sel == picked(p, picks@),
            picks@.len() == n,
            picks_fit(p, picks@),
            c <= n,
            forall|d: ClassId| #[trigger]
                sel.contains_key(d) ==> choice_of(p, d, sel[d])
                    == p.classes[d][picks@[d as int]->0 as int],
            forall|d: ClassId, e: ClassId|
                d < c && sel.contains_key(d) && #[trigger] choice_of(p, d, sel[d]).kids.contains(e)
                    ==> sel.contains_key(e),
        decreases n - c,
    {
        if let Some(i) = picks[c] {
            proof {
                assert(picks@[c as int] is Some);
                assert(p.classes.contains_key(c));
                assert(p.classes[c] == choices_in(vars.classes@[c as int].nodes@));
                assert(sel.contains_key(c));
                assert(choice_of(p, c, sel[c]) == vars.classes@[c as int].nodes@[i as int]@);
            }
            if !kids_picked(&vars.classes[c].nodes[i], picks) {
                proof {
                    let o = choice_of(p, c, sel[c]);
                    let e = choose|e: ClassId| #[trigger]
                        o.kids.contains(e) && !(e < picks@.len() && picks@[e as int] is Some);
                    assert(choice_of(p, c, sel[c]).kids.contains(e));
                    assert(!sel.contains_key(e));
                }
                return false;
            }
        }
        c += 1;
    }
    proof {
        assert forall|r: ClassId| #[trigger] p.roots.contains(r) implies sel.contains_key(r) by {
            let j = choose|j: int| 0 <= j < p.roots.len() && p.roots[j] == r;
            assert(sel.contains_key(p.roots[j]));
        }
    }
    true
}

/// What the choices for the first `k` classes cost.
pub open spec fn chosen_cost(p: Problem, sel: Map<ClassId, NodeId>, k: nat) -> Cost
    decreases k,
{
    if k == 0 {
        0
    } else {
        let before = chosen_cost(p, sel, (k - 1) as nat);
        let c = (k - 1) as ClassId;
        if sel.contains_key(c) {
            plus(before, choice_of(p, c, sel[c]).cost)
        } else {
            before
        }
    }
}

/// The choices with what has been decided, and what the choices cost.
pub(crate) fn complete(vars: &Vars, picks: &Vec<Option<usize>>) -> (r: (ExtractionResult, Cost))
    requires
        vars.wf(),
        picks@.len() == vars.size(),
        picks_fit(vars@, picks@),
    ensures
        r.0@ == vars@.decided.union_prefer_right(picked(vars@, picks@)),
        r.1 == chosen_cost(vars@, picked(vars@, picks@), vars.size()),
{
    let ghost p = vars@;
    let ghost n = vars.size();
    let mut result: ExtractionResult = vars.decided.clone();
    let mut cost: Cost = 0;
    let mut c: usize = 0;
    let ghost sel = picked(p, picks@);
    proof {
        lemma_picked(p, n, picks@);
    }
    assert(result@ =~= p.decided.union_prefer_right(
        Map::new(|d: ClassId| d < 0 && sel.contains_key(d), |d: ClassId| sel[d]),
    ));
    while c < picks.len()
        invariant
            vars.wf(),
            p == vars@,
            n == vars.size(),
            sel == picked(p, picks@),
            picks@.len() == n,
            picks_fit(p, picks@),
            c <= n,
            forall|d: ClassId| #[trigger]
                sel.contains_key(d) ==> choice_of(p, d, sel[d])
                    == p.classes[d][picks@[d as int]->0 as int],
            cost == chosen_cost(p, sel, c as nat),
            result@ == p.decided.union_prefer_right(
                Map::new(|d: ClassId| d < c && sel.contains_key(d), |d: ClassId| sel[d]),
            ),
        decreases n - c,
    {
        if let Some(i) = picks[c] {
            proof {
                assert(picks@[c as int] is Some);
                assert(p.classes.contains_key(c));
                assert(p.classes[c] == choices_in(vars.classes@[c as int].nodes@));
                assert(p.classes[c][i as int] == vars.classes@[c as int].nodes@[i as int]@);
                assert(sel.contains_key(c));
            }
            let node: &NodeIlp = &vars.classes[c].nodes[i];
            result.select(c, node.member);
            cost = add_costs(cost, node.cost);
        }
        proof {
            assert(result@ =~= p.decided.union_prefer_right(
                Map::new(|d: ClassId| d < c + 1 && sel.contains_key(d), |d: ClassId| sel[d]),
            ));
        }
        c += 1;
    }
    assert(result@ =~= p.decided.union_prefer_right(sel));
    (result, cost)
}

} // verus!
