//! Dropping nodes that need a class nothing can be chosen for.
use crate::collections::{id_set, id_set_get_index, id_set_len};
use crate::egraph::{ClassId, NodeId};
use crate::extract::faster_ilp_cbc::problem::{
    attains, choice_of, choices_in, lemma_offered, lemma_simplifies_itself, no_worse, place, price,
    simplifies, solves, solves_with, sound, Choice, NodeIlp, Problem, Vars,
};
use crate::extract::faster_ilp_cbc::prune::{lemma_thinned_ends, lemma_thinned_step};
use crate::extract::faster_ilp_cbc::thin::{
    lemma_marked_solution, lemma_thinned, thinned, thinned_to,
};
use crate::extract::faster_ilp_cbc::Config;
use crate::extract::measure::lemma_below_finite;
use indexmap::IndexSet;
use vstd::prelude::*;

verus! {

/// All that a choice needs is among `classes`.
pub open spec fn served(o: Choice, classes: Set<ClassId>) -> bool {
    forall|d: ClassId| #[trigger] o.kids.contains(d) ==> classes.contains(d)
}

/// Every one of `classes` has a choice that needs only classes among them.
pub open spec fn supported(p: Problem, classes: Set<ClassId>) -> bool {
    forall|c: ClassId| #[trigger]
        classes.contains(c) ==> p.classes.contains_key(c) && some_served(p.classes[c], classes)
}

pub open spec fn some_served(list: Seq<Choice>, classes: Set<ClassId>) -> bool {
    exists|i: int| 0 <= i < list.len() && #[trigger] served(list[i], classes)
}

/// Nothing can be chosen for class `c`, and for all that then is needed: a
/// class without a choice is hopeless, and so is one of which every choice
/// needs a hopeless class.
pub open spec fn hopeless(p: Problem, c: ClassId) -> bool {
    forall|classes: Set<ClassId>| #[trigger] supported(p, classes) ==> !classes.contains(c)
}

/// A choice needs a hopeless class.
pub open spec fn needs_hopeless(p: Problem, o: Choice) -> bool {
    exists|d: ClassId| #[trigger] o.kids.contains(d) && hopeless(p, d)
}

pub open spec fn hope_mask(p: Problem, list: Seq<Choice>) -> Seq<bool> {
    Seq::new(list.len(), |i: int| !needs_hopeless(p, list[i]))
}

/// Marks the choices that need no hopeless class.
pub open spec fn hope_masks(p: Problem) -> spec_fn(ClassId) -> Seq<bool> {
    |c: ClassId| hope_mask(p, p.classes[c])
}

/// Some class `o` needs is marked.
pub open spec fn needs_marked(o: Choice, dead: Seq<bool>) -> bool {
    exists|k: int| 0 <= k < o.kids.len() && dead[(#[trigger] o.kids[k]) as int]
}

fn hits(node: &NodeIlp, dead: &Vec<bool>) -> (r: bool)
    requires
        forall|d: ClassId| #[trigger] node@.kids.contains(d) ==> d < dead@.len(),
    ensures
        r == needs_marked(node@, dead@),
{
    let kids: &IndexSet<ClassId> = &node.children_classes;
    let len: usize = id_set_len(kids);
    let mut k: usize = 0;
    while k < len
        invariant
            forall|d: ClassId| #[trigger] node@.kids.contains(d) ==> d < dead@.len(),
            node@.kids == id_set(*kids),
            k <= len == node@.kids.len(),
            forall|j: int| 0 <= j < k ==> !dead@[(#[trigger] node@.kids[j]) as int],
        decreases len - k,
    {
        if let Some(d) = id_set_get_index(kids, k) {
            assert(node@.kids[k as int] == d);
            assert(node@.kids.contains(d));
            if dead[d] {
                return true;
            }
        }
        k += 1;
    }
    false
}

/// Every choice needs a marked class.
pub open spec fn all_need_marked(list: Seq<Choice>, dead: Seq<bool>) -> bool {
    forall|i: int| 0 <= i < list.len() ==> #[trigger] needs_marked(list[i], dead)
}

fn all_hit(nodes: &Vec<NodeIlp>, dead: &Vec<bool>) -> (r: bool)
    requires
        forall|i: int, d: ClassId|
            0 <= i < nodes@.len() && #[trigger] choices_in(nodes@)[i].kids.contains(d) ==> d
                < dead@.len(),
    ensures
        r == all_need_marked(choices_in(nodes@), dead@),
{
    let ghost list = choices_in(nodes@);
    let mut i: usize = 0;
    while i < nodes.len()
        invariant
            list == choices_in(nodes@),
            forall|i: int, d: ClassId|
                0 <= i < nodes@.len() && #[trigger] list[i].kids.contains(d) ==> d < dead@.len(),
            i <= nodes@.len(),
            forall|k: int| 0 <= k < i ==> #[trigger] needs_marked(list[k], dead@),
        decreases nodes@.len() - i,
    {
        proof {
            assert(list[i as int] == nodes@[i as int]@);
            assert forall|d: ClassId| #[trigger] nodes@[i as int]@.kids.contains(d) implies d
                < dead@.len() by {
                assert(list[i as int].kids.contains(d));
            }
        }
        if !hits(&nodes[i], dead) {
            return false;
        }
        i += 1;
    }
    true
}

/// The kids of live classes are known.
proof fn lemma_kids_known(p: Problem, n: nat, c: ClassId)
    requires
        sound(p, n),
        p.classes.contains_key(c),
    ensures
        forall|i: int, d: ClassId|
            0 <= i < p.classes[c].len() && #[trigger] p.classes[c][i].kids.contains(d) ==> d < n
                && p.classes.contains_key(d),
{
}

/// The hopeless classes.
fn find_hopeless(vars: &Vars) -> (r: Vec<bool>)
    requires
        vars.wf(),
    ensures
        r@.len() == vars.size(),
        forall|c: ClassId| #[trigger]
            vars@.classes.contains_key(c) ==> r@[c as int] == hopeless(vars@, c),
{
    let ghost p = vars@;
    let n: usize = vars.classes.len();
    let mut dead: Vec<bool> = Vec::new();
    while dead.len() < n
        invariant
            dead@.len() <= n,
            forall|k: int| 0 <= k < dead@.len() ==> !#[trigger] dead@[k],
        decreases n - dead@.len(),
    {
        dead.push(false);
    }
    let ghost mut alive: Set<ClassId> = Set::new(|c: ClassId| c < n);
    proof {
        lemma_below_finite(n as nat);
    }
    let mut changed: bool = true;
    while changed
        invariant
            vars.wf(),
            p == vars@,
            n == vars.size(),
            dead@.len() == n,
            alive.finite(),
            forall|c: ClassId| #[trigger] alive.contains(c) <==> c < n && !dead@[c as int],
            forall|c: ClassId|
                p.classes.contains_key(c) && #[trigger] dead@[c as int] ==> hopeless(p, c),
            !changed ==> forall|c: ClassId| #[trigger]
                p.classes.contains_key(c) && all_need_marked(p.classes[c], dead@)
                    ==> dead@[c as int],
        decreases
                alive.len() + (if changed {
                    1nat
                } else {
                    0nat
                }),
    {
        changed = false;
        let ghost start = alive.len();
        let ghost dead0 = dead@;
        let mut c: usize = 0;
        while c < n
            invariant
                vars.wf(),
                p == vars@,
                n == vars.size(),
                dead@.len() == n,
                c <= n,
                alive.finite(),
                alive.len() <= start,
                changed ==> alive.len() < start,
                !changed ==> dead@ == dead0,
                forall|d: ClassId| #[trigger] alive.contains(d) <==> d < n && !dead@[d as int],
                forall|d: ClassId|
                    p.classes.contains_key(d) && #[trigger] dead@[d as int] ==> hopeless(p, d),
                !changed ==> forall|d: ClassId| #[trigger]
                    p.classes.contains_key(d) && d < c && all_need_marked(p.classes[d], dead@)
                        ==> dead@[d as int],
            decreases n - c,
        {
            if vars.live[c] && !dead[c] {
                assert(p.classes.contains_key(c));
                proof {
                    lemma_kids_known(p, n as nat, c);
                    assert(p.classes[c] == choices_in(vars.classes@[c as int].nodes@));
                }
                if all_hit(&vars.classes[c].nodes, &dead) {
                    proof {
                        assert(hopeless(p, c)) by {
                            assert forall|classes: Set<ClassId>| #[trigger]
                                supported(p, classes) implies !classes.contains(c) by {
                                if classes.contains(c) {
                                    let list = p.classes[c];
                                    assert(some_served(list, classes));
                                    let i = choose|i: int|
                                        0 <= i < list.len() && #[trigger] served(list[i], classes);
                                    assert(needs_marked(list[i], dead@));
                                    let k = choose|k: int|
                                        0 <= k < list[i].kids.len() && dead@[(
                                        #[trigger] list[i].kids[k]) as int];
                                    let d = list[i].kids[k];
                                    assert(list[i].kids.contains(d));
                                    assert(p.classes.contains_key(d));
                                    assert(dead@[d as int]);
                                    assert(hopeless(p, d));
                                    assert(classes.contains(d));
                                }
                            }
                        }
                        assert(alive.contains(c));
                        alive = alive.remove(c);
                    }
                    dead.set(c, true);
                    changed = true;
                }
            }
            c += 1;
        }
    }
    proof {
        // What is left supports itself.
        let hope = Set::new(|c: ClassId| p.classes.contains_key(c) && !dead@[c as int]);
        assert(supported(p, hope)) by {
            assert forall|c: ClassId| #[trigger] hope.contains(c) implies p.classes.contains_key(c)
                && some_served(p.classes[c], hope) by {
                let list = p.classes[c];
                assert(p.classes.contains_key(c));
                lemma_kids_known(p, n as nat, c);
                assert(!all_need_marked(list, dead@));
                let i = choose|i: int|
                    0 <= i < list.len() && !#[trigger] needs_marked(list[i], dead@);
                assert(served(list[i], hope)) by {
                    assert forall|d: ClassId| #[trigger] list[i].kids.contains(
                        d,
                    ) implies hope.contains(d) by {
                        let k = choose|k: int|
                            0 <= k < list[i].kids.len() && list[i].kids[k] == d;
                        assert(!dead@[(list[i].kids[k]) as int]);
                    }
                }
            }
        }
        assert forall|c: ClassId| #[trigger] p.classes.contains_key(c) implies dead@[c as int]
            == hopeless(p, c) by {
            if !dead@[c as int] {
                assert(hope.contains(c));
            }
        }
    }
    dead
}

fn mark_hope(nodes: &Vec<NodeIlp>, dead: &Vec<bool>, Ghost(p): Ghost<Problem>) -> (r: Vec<bool>)
    requires
        forall|i: int, d: ClassId|
            0 <= i < nodes@.len() && #[trigger] choices_in(nodes@)[i].kids.contains(d) ==> d
                < dead@.len() && dead@[d as int] == hopeless(p, d),
    ensures
        r@ == hope_mask(p, choices_in(nodes@)),
{
    let ghost list = choices_in(nodes@);
    let mut mask: Vec<bool> = Vec::new();
    let mut i: usize = 0;
    while i < nodes.len()
        invariant
            list == choices_in(nodes@),
            forall|i: int, d: ClassId|
                0 <= i < nodes@.len() && #[trigger] list[i].kids.contains(d) ==> d < dead@.len()
                    && dead@[d as int] == hopeless(p, d),
            i <= nodes@.len(),
            mask@.len() == i,
            forall|k: int| 0 <= k < i ==> mask@[k] == !needs_hopeless(p, #[trigger] list[k]),
        decreases nodes@.len() - i,
    {
        proof {
            assert(list[i as int] == nodes@[i as int]@);
            assert forall|d: ClassId| #[trigger] nodes@[i as int]@.kids.contains(d) implies d
                < dead@.len() by {
                assert(list[i as int].kids.contains(d));
            }
        }
        let hit: bool = hits(&nodes[i], dead);
        proof {
            let o = list[i as int];
            if hit {
                let k = choose|k: int| 0 <= k < o.kids.len() && dead@[(#[trigger] o.kids[k]) as int];
                assert(o.kids.contains(o.kids[k]));
                assert(needs_hopeless(p, o));
            }
            if needs_hopeless(p, o) {
                let d = choose|d: ClassId| #[trigger] o.kids.contains(d) && hopeless(p, d);
                let k = choose|k: int| 0 <= k < o.kids.len() && o.kids[k] == d;
                assert(dead@[(o.kids[k]) as int]);
            }
        }
        mask.push(!hit);
        i += 1;
    }
    assert(mask@ =~= hope_mask(p, list));
    mask
}

/// Removes nodes that need a class nothing can be chosen for; if that leaves
/// another class without a choice, the nodes that need that one too.
pub fn remove_empty_classes(vars: &mut Vars, config: &Config)
    requires
        old(vars).wf(),
    ensures
        final(vars)@ == (if config.remove_empty_classes {
            thinned(old(vars)@, hope_masks(old(vars)@))
        } else {
            old(vars)@
        }),
        final(vars).wf(),
        final(vars).same_columns(old(vars)),
        forall|bound: int| #[trigger]
            simplifies(old(vars)@, final(vars)@, old(vars).size(), bound),
{
    let ghost p = vars@;
    let ghost n = vars.size();
    if !config.remove_empty_classes {
        proof {
            assert forall|bound: int| #[trigger] simplifies(p, p, n, bound) by {
                lemma_simplifies_itself(p, n, bound);
            }
        }
        return ;
    }
    let ghost masks = hope_masks(p);
    let dead: Vec<bool> = find_hopeless(vars);
    proof {
        lemma_thinned_ends(p, masks, n);
    }
    let mut c: usize = 0;
    while c < vars.classes.len()
        invariant
            sound(p, n),
            n == vars.size() == old(vars).size(),
            vars.live@.len() == n,
            c <= n,
            masks == hope_masks(p),
            dead@.len() == n,
            forall|d: ClassId| #[trigger]
                p.classes.contains_key(d) ==> dead@[d as int] == hopeless(p, d),
            vars@ == thinned_to(p, masks, c as nat),
            vars.same_columns(old(vars)),
        decreases n - c,
    {
        proof {
            lemma_thinned_step(p, masks, c);
        }
        if vars.live[c] {
            proof {
                assert(vars@.classes.contains_key(c));
                assert(p.classes.contains_key(c));
                assert(vars@.classes[c] == p.classes[c]);
                lemma_kids_known(p, n, c);
            }
            let mask: Vec<bool> = mark_hope(&vars.classes[c].nodes, &dead, Ghost(p));
            vars.thin(c, &mask);
        } else {
            assert(!vars@.classes.contains_key(c));
        }
        c += 1;
    }
    proof {
        lemma_thinned(p, masks, n);
        assert forall|bound: int| #[trigger] simplifies(p, vars@, n, bound) by {
            lemma_hope(p, n, bound);
        }
    }
}

/// No solution needs a hopeless class.
proof fn lemma_hope(p: Problem, n: nat, bound: int)
    requires
        sound(p, n),
    ensures
        no_worse(p, thinned(p, hope_masks(p)), n, bound),
{
    let masks = hope_masks(p);
    assert forall|sel: Map<ClassId, NodeId>| #[trigger]
        solves(p, sel) && price(p, sel, n) <= bound implies attains(
        thinned(p, masks),
        n,
        price(p, sel, n),
    ) by {
        let rank = choose|rank: Map<ClassId, nat>| solves_with(p, sel, rank);
        let used = sel.dom();
        assert(supported(p, used)) by {
            assert forall|c: ClassId| #[trigger] used.contains(c) implies p.classes.contains_key(c)
                && some_served(p.classes[c], used) by {
                assert(sel.contains_key(c));
                lemma_offered(p.classes[c], sel[c]);
                let o = choice_of(p, c, sel[c]);
                assert(served(p.classes[c][place(p.classes[c], sel[c])], used)) by {
                    assert forall|d: ClassId| #[trigger] o.kids.contains(d) implies used.contains(
                    d) by {
                        assert(choice_of(p, c, sel[c]).kids.contains(d));
                    }
                }
            }
        }
        assert forall|c: ClassId| #[trigger] sel.contains_key(c) implies masks(c)[place(
            p.classes[c],
            sel[c],
        )] by {
            assert(p.classes.contains_key(c));
            lemma_offered(p.classes[c], sel[c]);
            let o = choice_of(p, c, sel[c]);
            if needs_hopeless(p, o) {
                let d = choose|d: ClassId| #[trigger] o.kids.contains(d) && hopeless(p, d);
                assert(choice_of(p, c, sel[c]).kids.contains(d));
                assert(used.contains(d));
            }
        }
        lemma_marked_solution(p, masks, n, sel, rank);
    }
}

} // verus!
