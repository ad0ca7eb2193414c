//! Dropping nodes that another node of their class makes needless.
use crate::collections::{id_set, id_set_contains, id_set_get_index, id_set_len};
use crate::egraph::{ClassId, NodeId};
use crate::extract::faster_ilp_cbc::problem::{
    attains, choice_of, choices_in, class_price, lemma_offered, lemma_place, lemma_price_below,
    lemma_simplifies_itself, no_worse, offers, place, price, simplifies, solves, solves_with, sound,
    Choice, NodeIlp, Problem, Vars,
};
use crate::extract::faster_ilp_cbc::prune::{lemma_thinned_ends, lemma_thinned_step};
use crate::extract::faster_ilp_cbc::thin::{
    lemma_marked_solution, lemma_thinned, thinned, thinned_to,
};
use crate::extract::faster_ilp_cbc::Config;
use indexmap::IndexSet;
use vstd::prelude::*;

verus! {

/// Everything in `a` is in `b`.
pub open spec fn within(a: Seq<ClassId>, b: Seq<ClassId>) -> bool {
    forall|d: ClassId| #[trigger] a.contains(d) ==> b.contains(d)
}

/// Choice `j` costs no more than choice `i` and needs nothing that `i` does
/// not need.
pub open spec fn covers(list: Seq<Choice>, j: int, i: int) -> bool {
    list[j].cost <= list[i].cost && within(list[j].kids, list[i].kids)
}

/// Choice `j` makes choice `i` needless; of two that make each other needless,
/// the first stays.
pub open spec fn beats(list: Seq<Choice>, j: int, i: int) -> bool {
    covers(list, j, i) && (!covers(list, i, j) || j < i)
}

/// Nothing makes choice `i` needless.
pub open spec fn unbeaten(list: Seq<Choice>, i: int) -> bool {
    forall|j: int| 0 <= j < list.len() ==> !#[trigger] beats(list, j, i)
}

pub open spec fn subsumed_mask(list: Seq<Choice>) -> Seq<bool> {
    Seq::new(list.len(), |i: int| unbeaten(list, i))
}

/// Marks the choices that nothing makes needless.
pub open spec fn subsumed_masks(p: Problem) -> spec_fn(ClassId) -> Seq<bool> {
    |c: ClassId| subsumed_mask(p.classes[c])
}

pub(crate) fn is_subset(a: &IndexSet<ClassId>, b: &IndexSet<ClassId>) -> (r: bool)
    ensures
        r == within(id_set(*a), id_set(*b)),
{
    let len: usize = id_set_len(a);
    let mut k: usize = 0;
    while k < len
        invariant
            k <= len == id_set(*a).len(),
            forall|j: int| 0 <= j < k ==> id_set(*b).contains(#[trigger] id_set(*a)[j]),
        decreases len - k,
    {
        if let Some(d) = id_set_get_index(a, k) {
            if !id_set_contains(b, d) {
                assert(id_set(*a)[k as int] == d);
                assert(id_set(*a).contains(d));
                return false;
            }
        }
        k += 1;
    }
    true
}

fn node_covers(nodes: &Vec<NodeIlp>, j: usize, i: usize) -> (r: bool)
    requires
        j < nodes@.len(),
        i < nodes@.len(),
    ensures
        r == covers(choices_in(nodes@), j as int, i as int),
{
    nodes[j].cost <= nodes[i].cost && is_subset(
        &nodes[j].children_classes,
        &nodes[i].children_classes,
    )
}

fn mark_unbeaten(nodes: &Vec<NodeIlp>) -> (r: Vec<bool>)
    ensures
        r@ == subsumed_mask(choices_in(nodes@)),
{
    let ghost list = choices_in(nodes@);
    let mut mask: Vec<bool> = Vec::new();
    let mut i: usize = 0;
    while i < nodes.len()
        invariant
            list == choices_in(nodes@),
            i <= nodes@.len(),
            mask@.len() == i,
            forall|k: int| 0 <= k < i ==> mask@[k] == unbeaten(list, k),
        decreases nodes@.len() - i,
    {
        let mut keep: bool = true;
        let mut j: usize = 0;
        while j < nodes.len()
            invariant
                list == choices_in(nodes@),
                i < nodes@.len(),
                j <= nodes@.len(),
                keep == (forall|k: int| 0 <= k < j ==> !#[trigger] beats(list, k, i as int)),
            decreases nodes@.len() - j,
        {
            let beaten: bool = node_covers(nodes, j, i) && (!node_covers(nodes, i, j) || j < i);
            assert(beaten == beats(list, j as int, i as int));
            if beaten {
                keep = false;
            }
            j += 1;
        }
        mask.push(keep);
        i += 1;
    }
    assert(mask@ =~= subsumed_mask(list));
    mask
}

/// Removes a node if another node of its class costs no more and needs no
/// other classes.
pub fn remove_more_expensive_subsumed_nodes(vars: &mut Vars, config: &Config)
    requires
        old(vars).wf(),
    ensures
        final(vars)@ == (if config.remove_more_expensive_subsumed_nodes {
            thinned(old(vars)@, subsumed_masks(old(vars)@))
        } else {
            old(vars)@
        }),
        final(vars).wf(),
        final(vars).same_columns(old(vars)),
        forall|bound: int| #[trigger]
            simplifies(old(vars)@, final(vars)@, old(vars).size(), bound),
{
    let ghost p = vars@;
    let ghost n = vars.size();
    if !config.remove_more_expensive_subsumed_nodes {
        proof {
            assert forall|bound: int| #[trigger] simplifies(p, p, n, bound) by {
                lemma_simplifies_itself(p, n, bound);
            }
        }
        return ;
    }
    let ghost masks = subsumed_masks(p);
    proof {
        lemma_thinned_ends(p, masks, n);
    }
    let mut c: usize = 0;
    while c < vars.classes.len()
        invariant
            sound(p, n),
            n == vars.size() == old(vars).size(),
            vars.live@.len() == n,
            c <= n,
            masks == subsumed_masks(p),
            vars@ == thinned_to(p, masks, c as nat),
            vars.same_columns(old(vars)),
        decreases n - c,
    {
        proof {
            lemma_thinned_step(p, masks, c);
        }
        if vars.live[c] {
            assert(vars@.classes.contains_key(c));
            assert(p.classes.contains_key(c));
            assert(vars@.classes[c] == p.classes[c]);
            let mask: Vec<bool> = mark_unbeaten(&vars.classes[c].nodes);
            vars.thin(c, &mask);
        } else {
            assert(!vars@.classes.contains_key(c));
        }
        c += 1;
    }
    proof {
        lemma_thinned(p, masks, n);
        assert forall|bound: int| #[trigger] simplifies(p, vars@, n, bound) by {
            lemma_subsumed(p, n, bound);
        }
    }
}

/// Of two lists without repetition, one within the other, the inner one is no
/// longer, and if it is as long they hold the same.
proof fn lemma_within_len(a: Seq<ClassId>, b: Seq<ClassId>)
    requires
        a.no_duplicates(),
        b.no_duplicates(),
        within(a, b),
    ensures
        a.len() <= b.len(),
        a.len() == b.len() ==> within(b, a),
{
    a.unique_seq_to_set();
    b.unique_seq_to_set();
    let sa = a.to_set();
    let sb = b.to_set();
    assert forall|d: ClassId| sa.contains(d) implies sb.contains(d) by {
        assert(a.contains(d));
    }
    vstd::set_lib::lemma_len_subset(sa, sb);
    if a.len() == b.len() {
        vstd::set_lib::lemma_subset_equality(sa, sb);
        assert forall|d: ClassId| #[trigger] b.contains(d) implies a.contains(d) by {
            assert(sb.contains(d));
        }
    }
}

/// Every choice is covered by one that stays.
pub proof fn lemma_covered(list: Seq<Choice>, i: int) -> (j: int)
    requires
        0 <= i < list.len(),
        forall|k: int| 0 <= k < list.len() ==> (#[trigger] list[k]).kids.no_duplicates(),
        forall|k: int| 0 <= k < list.len() ==> (#[trigger] list[k]).cost >= 0,
    ensures
        0 <= j < list.len(),
        covers(list, j, i),
        unbeaten(list, j),
    decreases list[i].kids.len(), list[i].cost, i,
{
    if unbeaten(list, i) {
        i
    } else {
        let k = choose|k: int| 0 <= k < list.len() && #[trigger] beats(list, k, i);
        assert(list[k].cost >= 0);
        assert(list[i].cost >= 0);
        lemma_within_len(list[k].kids, list[i].kids);
        if list[k].kids.len() == list[i].kids.len() && list[k].cost == list[i].cost {
            assert(covers(list, i, k));
        }
        let j = lemma_covered(list, k);
        assert forall|d: ClassId| #[trigger] list[j].kids.contains(d) implies list[i].kids.contains(
        d) by {
            assert(list[k].kids.contains(d));
        }
        j
    }
}

/// The choice that stays in place of choice `i`.
pub open spec fn keeper(list: Seq<Choice>, i: int) -> int {
    choose|j: int| 0 <= j < list.len() && #[trigger] covers(list, j, i) && unbeaten(list, j)
}

proof fn lemma_keeper(p: Problem, n: nat, c: ClassId, node: NodeId)
    requires
        sound(p, n),
        p.classes.contains_key(c),
        offers(p.classes[c], node),
    ensures
        ({
            let list = p.classes[c];
            let i = place(list, node);
            let j = keeper(list, i);
            0 <= j < list.len() && covers(list, j, i) && unbeaten(list, j) && place(
                list,
                list[j].node,
            ) == j && offers(list, list[j].node) && choice_of(p, c, list[j].node) == list[j]
        }),
{
    let list = p.classes[c];
    lemma_offered(list, node);
    let i = place(list, node);
    let j = lemma_covered(list, i);
    let k = keeper(list, i);
    assert(covers(list, j, i));
    lemma_place(list, k);
}

/// A solution with needless choices can be had without them at no higher cost.
proof fn lemma_subsumed(p: Problem, n: nat, bound: int)
    requires
        sound(p, n),
    ensures
        no_worse(p, thinned(p, subsumed_masks(p)), n, bound),
{
    let masks = subsumed_masks(p);
    assert forall|sel: Map<ClassId, NodeId>| #[trigger]
        solves(p, sel) && price(p, sel, n) <= bound implies attains(
        thinned(p, masks),
        n,
        price(p, sel, n),
    ) by {
        let rank = choose|rank: Map<ClassId, nat>| solves_with(p, sel, rank);
        let better = Map::new(
            |c: ClassId| sel.contains_key(c),
            |c: ClassId| p.classes[c][keeper(p.classes[c], place(p.classes[c], sel[c]))].node,
        );
        assert forall|c: ClassId| #[trigger] better.contains_key(c) implies {
            &&& p.classes.contains_key(c)
            &&& offers(p.classes[c], better[c])
            &&& masks(c)[place(p.classes[c], better[c])]
            &&& choice_of(p, c, better[c]).cost <= choice_of(p, c, sel[c]).cost
            &&& within(choice_of(p, c, better[c]).kids, choice_of(p, c, sel[c]).kids)
        } by {
            assert(sel.contains_key(c));
            assert(p.classes.contains_key(c));
            lemma_keeper(p, n, c, sel[c]);
        }
        assert forall|c: ClassId, d: ClassId|
            better.contains_key(c) && #[trigger] choice_of(p, c, better[c]).kids.contains(
                d,
            ) implies better.contains_key(d) && rank[d] < rank[c] by {
            assert(choice_of(p, c, sel[c]).kids.contains(d));
        }
        assert(solves_with(p, better, rank));
        assert forall|c: ClassId| #[trigger] class_price(p, better, c) <= class_price(p, sel, c) by {
            if better.contains_key(c) {
                assert(sel.contains_key(c));
            }
        }
        lemma_price_below(p, better, p, sel, n);
        lemma_marked_solution(p, masks, n, better, rank);
        let q = thinned(p, masks);
        assert(solves(q, better));
    }
}

} // verus!
