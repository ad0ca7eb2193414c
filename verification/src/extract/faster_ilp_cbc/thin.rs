//! Dropping nodes from the choices of a class.
use crate::cost::is_weight;
use crate::egraph::{ClassId, NodeId};
use crate::extract::faster_ilp_cbc::problem::{
    attains, choice_of, choices_in, class_price, decisions_kept, descends, distinct_nodes,
    drawn_from, holds_solution, lemma_place, lemma_price_below, lifts, listed, offers, place, price,
    solves, solves_with, sound, sound_class, Choice, NodeIlp, Problem, Vars,
};
use vstd::prelude::*;

verus! {

/// The entries of `list` from `k` on that are marked.
pub open spec fn kept(list: Seq<Choice>, mask: Seq<bool>, k: nat) -> Seq<Choice>
    decreases list.len() - k,
{
    if k >= list.len() {
        Seq::empty()
    } else if mask[k as int] {
        seq![list[k as int]] + kept(list, mask, k + 1)
    } else {
        kept(list, mask, k + 1)
    }
}

/// `x` is a marked entry of `list` from `k` on.
pub open spec fn marked_in(list: Seq<Choice>, mask: Seq<bool>, k: nat, x: Choice) -> bool {
    exists|i: int| k <= i < list.len() && mask[i] && #[trigger] list[i] == x
}

/// The problem with only the marked choices of the first `n` classes.
pub open spec fn thinned_to(p: Problem, masks: spec_fn(ClassId) -> Seq<bool>, n: nat) -> Problem {
    Problem {
        classes: Map::new(
            |c: ClassId| p.classes.contains_key(c),
            |c: ClassId|
                if c < n {
                    kept(p.classes[c], masks(c), 0)
                } else {
                    p.classes[c]
                },
        ),
        ..p
    }
}

/// The problem with only the marked choices.
pub open spec fn thinned(p: Problem, masks: spec_fn(ClassId) -> Seq<bool>) -> Problem {
    Problem {
        classes: Map::new(
            |c: ClassId| p.classes.contains_key(c),
            |c: ClassId| kept(p.classes[c], masks(c), 0),
        ),
        ..p
    }
}

/// Keeps the marked nodes.
fn keep_marked(nodes: &mut Vec<NodeIlp>, mask: &Vec<bool>)
    requires
        mask@.len() == old(nodes)@.len(),
    ensures
        choices_in(final(nodes)@) == kept(choices_in(old(nodes)@), mask@, 0),
{
    let ghost list = choices_in(nodes@);
    let mut i: usize = nodes.len();
    assert(choices_in(nodes@) =~= list.take(i as int) + kept(list, mask@, i as nat));
    while i > 0
        invariant
            i <= mask@.len() == list.len(),
            choices_in(nodes@) == list.take(i as int) + kept(list, mask@, i as nat),
            nodes@.len() >= i,
        decreases i,
    {
        i -= 1;
        let ghost rest = kept(list, mask@, (i + 1) as nat);
        let ghost before = nodes@;
        if mask[i] {
            assert(list.take(i + 1) + rest =~= list.take(i as int) + (seq![list[i as int]] + rest));
        } else {
            nodes.remove(i);
            proof {
                assert(choices_in(nodes@) =~= choices_in(before).remove(i as int));
                assert((list.take(i + 1) + rest).remove(i as int) =~= list.take(i as int) + rest);
            }
        }
    }
    assert(list.take(0) + kept(list, mask@, 0) =~= kept(list, mask@, 0));
}

impl Vars {
    /// Keeps the marked nodes of a class.
    pub(crate) fn thin(&mut self, c: ClassId, mask: &Vec<bool>)
        requires
            old(self).live@.len() == old(self).classes@.len(),
            old(self).has(c),
            mask@.len() == old(self).classes@[c as int].nodes@.len(),
        ensures
            final(self)@ == (Problem {
                classes: old(self)@.classes.insert(
                    c,
                    kept(old(self)@.classes[c], mask@, 0),
                ),
                ..old(self)@
            }),
            final(self).live@ == old(self).live@,
            final(self).same_columns(old(self)),
    {
        let ghost before = *self;
        keep_marked(&mut self.classes[c].nodes, mask);
        proof {
            assert forall|d: ClassId| d != c && before.has(d) implies #[trigger] self.classes@[d as int]
                == before.classes@[d as int] by {}
            assert(self@.classes =~= before@.classes.insert(
                c,
                kept(before@.classes[c], mask@, 0),
            ));
        }
    }
}

/// What is kept is from the list, in its order, and nothing marked is lost.
pub proof fn lemma_kept(list: Seq<Choice>, mask: Seq<bool>, k: nat)
    requires
        k <= list.len(),
    ensures
        kept(list, mask, k).len() <= list.len() - k,
        forall|j: int|
            0 <= j < kept(list, mask, k).len() ==> marked_in(
                list,
                mask,
                k,
                #[trigger] kept(list, mask, k)[j],
            ),
        forall|i: int|
            k <= i < list.len() && mask[i] ==> kept(list, mask, k).contains(#[trigger] list[i]),
        distinct_nodes(list) ==> distinct_nodes(kept(list, mask, k)),
    decreases list.len() - k,
{
    let all = kept(list, mask, k);
    if k < list.len() {
        lemma_kept(list, mask, k + 1);
        let rest = kept(list, mask, k + 1);
        assert forall|j: int| 0 <= j < all.len() implies marked_in(
            list,
            mask,
            k,
            #[trigger] all[j],
        ) by {
            if mask[k as int] {
                if j == 0 {
                    assert(list[k as int] == all[j]);
                } else {
                    assert(all[j] == rest[j - 1]);
                    assert(marked_in(list, mask, k + 1, rest[j - 1]));
                    let i = choose|i: int|
                        k + 1 <= i < list.len() && mask[i] && list[i] == rest[j - 1];
                    assert(list[i] == all[j]);
                }
            } else {
                assert(all[j] == rest[j]);
                assert(marked_in(list, mask, k + 1, rest[j]));
                let i = choose|i: int| k + 1 <= i < list.len() && mask[i] && list[i] == rest[j];
                assert(list[i] == all[j]);
            }
        }
        assert forall|i: int| k <= i < list.len() && mask[i] implies all.contains(
            #[trigger] list[i],
        ) by {
            if i == k {
                assert(all[0] == list[i]);
            } else {
                assert(rest.contains(list[i]));
                let j = choose|j: int| 0 <= j < rest.len() && rest[j] == list[i];
                if mask[k as int] {
                    assert(all[j + 1] == list[i]);
                } else {
                    assert(all[j] == list[i]);
                }
            }
        }
        if distinct_nodes(list) {
            assert forall|a: int, b: int| 0 <= a < b < all.len() implies (#[trigger] all[a]).node
                != (#[trigger] all[b]).node by {
                if mask[k as int] {
                    assert(all[b] == rest[b - 1]);
                    if a == 0 {
                        assert(marked_in(list, mask, k + 1, rest[b - 1]));
                        let i = choose|i: int|
                            k + 1 <= i < list.len() && mask[i] && list[i] == rest[b - 1];
                        assert(list[k as int].node != list[i].node);
                    } else {
                        assert(all[a] == rest[a - 1]);
                        assert(rest[a - 1].node != rest[b - 1].node);
                    }
                } else {
                    assert(all[a] == rest[a]);
                    assert(all[b] == rest[b]);
                    assert(rest[a].node != rest[b].node);
                }
            }
        }
    }
}

/// A choice of the thinned problem is one of the problem.
pub proof fn lemma_thinned_choice(
    p: Problem,
    masks: spec_fn(ClassId) -> Seq<bool>,
    n: nat,
    c: ClassId,
    node: NodeId,
)
    requires
        sound(p, n),
        p.classes.contains_key(c),
        offers(thinned(p, masks).classes[c], node),
    ensures
        offers(p.classes[c], node),
        choice_of(p, c, node) == choice_of(thinned(p, masks), c, node),
{
    let q = thinned(p, masks);
    let list = p.classes[c];
    lemma_kept(list, masks(c), 0);
    let j = place(q.classes[c], node);
    assert(marked_in(list, masks(c), 0, q.classes[c][j]));
    let i = choose|i: int| 0 <= i < list.len() && masks(c)[i] && list[i] == q.classes[c][j];
    lemma_place(list, i);
}

/// A choice of the problem that is marked is one of the thinned problem.
pub proof fn lemma_marked_choice(
    p: Problem,
    masks: spec_fn(ClassId) -> Seq<bool>,
    n: nat,
    c: ClassId,
    node: NodeId,
)
    requires
        sound(p, n),
        p.classes.contains_key(c),
        offers(p.classes[c], node),
        masks(c)[place(p.classes[c], node)],
    ensures
        offers(thinned(p, masks).classes[c], node),
        choice_of(p, c, node) == choice_of(thinned(p, masks), c, node),
{
    let q = thinned(p, masks);
    let list = p.classes[c];
    lemma_kept(list, masks(c), 0);
    let i = place(list, node);
    assert(q.classes[c].contains(list[i]));
    let j = choose|j: int| 0 <= j < q.classes[c].len() && q.classes[c][j] == list[i];
    lemma_place(q.classes[c], j);
}

/// A problem with fewer choices makes sense, and its solutions solve the
/// problem.
pub proof fn lemma_thinned(p: Problem, masks: spec_fn(ClassId) -> Seq<bool>, n: nat)
    requires
        sound(p, n),
    ensures
        sound(thinned(p, masks), n),
        decisions_kept(p.decided, thinned(p, masks).decided),
        descends(p, thinned(p, masks)),
        lifts(p, thinned(p, masks), n),
{
    let q = thinned(p, masks);
    assert forall|c: ClassId| #[trigger] q.classes.contains_key(c) implies c < n && sound_class(
        q,
        q.classes[c],
    ) by {
        assert(p.classes.contains_key(c));
        let list = p.classes[c];
        lemma_kept(list, masks(c), 0);
        assert forall|j: int| 0 <= j < q.classes[c].len() implies is_weight(
            (#[trigger] q.classes[c][j]).cost,
        ) && q.classes[c][j].kids.no_duplicates() by {
            assert(marked_in(list, masks(c), 0, q.classes[c][j]));
            let i = choose|i: int| 0 <= i < list.len() && masks(c)[i] && list[i] == q.classes[c][j];
        }
        assert forall|j: int, d: ClassId|
            0 <= j < q.classes[c].len() && (#[trigger] q.classes[c][j].kids.contains(
                d,
            )) implies q.classes.contains_key(d) by {
            assert(marked_in(list, masks(c), 0, q.classes[c][j]));
            let i = choose|i: int| 0 <= i < list.len() && masks(c)[i] && list[i] == q.classes[c][j];
            assert(list[i].kids.contains(d));
        }
    }
    assert forall|r: ClassId| #[trigger] q.roots.contains(r) implies q.classes.contains_key(r) by {
        assert(p.roots.contains(r));
    }
    assert forall|c: ClassId| #[trigger]
        q.decided.contains_key(c) implies !q.classes.contains_key(c) by {
        assert(p.decided.contains_key(c));
    }
    assert forall|c: ClassId, j: int|
        q.classes.contains_key(c) && 0 <= j < q.classes[c].len() implies listed(
        p.classes[c],
        #[trigger] q.classes[c][j],
    ) by {
        let list = p.classes[c];
        lemma_kept(list, masks(c), 0);
        assert(marked_in(list, masks(c), 0, q.classes[c][j]));
    }
    assert forall|sel: Map<ClassId, NodeId>| #[trigger] solves(q, sel) implies holds_solution(
        p,
        n,
        sel,
        q.decided,
        price(q, sel, n),
    ) by {
        let rank = choose|rank: Map<ClassId, nat>| solves_with(q, sel, rank);
        assert forall|c: ClassId| #[trigger] sel.contains_key(c) implies p.classes.contains_key(c)
            && offers(p.classes[c], sel[c]) && choice_of(p, c, sel[c]) == choice_of(
            q,
            c,
            sel[c],
        ) by {
            assert(q.classes.contains_key(c));
            lemma_thinned_choice(p, masks, n, c, sel[c]);
        }
        assert forall|r: ClassId| #[trigger] p.roots.contains(r) implies sel.contains_key(r) by {
            assert(q.roots.contains(r));
        }
        assert(solves_with(p, sel, rank));
        assert forall|c: ClassId| #[trigger] class_price(p, sel, c) <= class_price(q, sel, c) by {}
        lemma_price_below(p, sel, q, sel, n);
        assert(solves(p, sel));
        assert(drawn_from(sel, sel, q.decided));
    }
}

/// A solution of which every choice is marked solves the thinned problem at
/// the same cost.
pub proof fn lemma_marked_solution(
    p: Problem,
    masks: spec_fn(ClassId) -> Seq<bool>,
    n: nat,
    sel: Map<ClassId, NodeId>,
    rank: Map<ClassId, nat>,
)
    requires
        sound(p, n),
        solves_with(p, sel, rank),
        forall|c: ClassId| #[trigger]
            sel.contains_key(c) ==> masks(c)[place(p.classes[c], sel[c])],
    ensures
        solves_with(thinned(p, masks), sel, rank),
        price(thinned(p, masks), sel, n) <= price(p, sel, n),
        attains(thinned(p, masks), n, price(p, sel, n)),
{
    let q = thinned(p, masks);
    assert forall|c: ClassId| #[trigger] sel.contains_key(c) implies q.classes.contains_key(c)
        && offers(q.classes[c], sel[c]) && choice_of(p, c, sel[c]) == choice_of(q, c, sel[c]) by {
        assert(p.classes.contains_key(c));
        lemma_marked_choice(p, masks, n, c, sel[c]);
    }
    assert forall|r: ClassId| #[trigger] q.roots.contains(r) implies sel.contains_key(r) by {
        assert(p.roots.contains(r));
    }
    assert(solves_with(q, sel, rank));
    assert forall|c: ClassId| #[trigger] class_price(q, sel, c) <= class_price(p, sel, c) by {}
    lemma_price_below(q, sel, p, sel, n);
    assert(solves(q, sel));
}

} // verus!
