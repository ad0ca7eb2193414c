//! Moving what a class needs, and what it costs, up to the only class that
//! needs it.
use crate::collections::{
    id_set, id_set_clone, id_set_contains, id_set_get_index, id_set_insert, id_set_len, id_set_new,
};
use crate::cost::is_weight;
use crate::egraph::{ClassId, NodeId};
use crate::extract::faster_ilp_cbc::parents::{
    classes_with_single_parent, lemma_pairs, note_kids, single_parents, sole_parent,
};
use crate::extract::faster_ilp_cbc::problem::{
    attains, choice_of, choices_in, class_price, distinct_nodes, drawn_from, holds_solution,
    lemma_class_price, lemma_offered, lemma_place, lemma_price_below, lemma_simplifies_itself,
    lemma_simplifies_trans, listed, offers, place, price, simplifies, solves, solves_with, sound,
    sound_class, Choice, NodeIlp, Problem, Vars,
};
use crate::extract::faster_ilp_cbc::prune::has_id;
use crate::extract::faster_ilp_cbc::reach::needs;
use crate::extract::faster_ilp_cbc::Config;
use indexmap::IndexSet;
use vstd::prelude::*;

verus! {

/// How often the passes here are repeated.
pub const ROUNDS: usize = 10;

/// Choice `i`, and no other, needs class `d`.
pub open spec fn only_at(list: Seq<Choice>, d: ClassId, i: int) -> bool {
    &&& 0 <= i < list.len()
    &&& list[i].kids.contains(d)
    &&& forall|j: int| 0 <= j < list.len() && (#[trigger] list[j]).kids.contains(d) ==> j == i
}

pub open spec fn needed_once(list: Seq<Choice>, d: ClassId) -> bool {
    exists|i: int| only_at(list, d, i)
}

pub open spec fn place_of_need(list: Seq<Choice>, d: ClassId) -> int {
    choose|i: int| only_at(list, d, i)
}

/// Class `child` is no root and has one choice, which needs something, and
/// one choice of `parent` needs it.
pub open spec fn can_pull(p: Problem, child: ClassId, parent: ClassId) -> bool {
    &&& child != parent
    &&& p.classes.contains_key(child)
    &&& p.classes.contains_key(parent)
    &&& !p.roots.contains(child)
    &&& p.classes[child].len() == 1
    &&& p.classes[child][0].kids.len() > 0
    &&& needed_once(p.classes[parent], child)
}

/// The problem with what `child` needs moved to the choice of `parent` that
/// needs it, where that is possible.
pub open spec fn pulled(p: Problem, child: ClassId, parent: ClassId) -> Problem {
    if can_pull(p, child, parent) {
        let above = p.classes[parent];
        let below = p.classes[child];
        let i = place_of_need(above, child);
        Problem {
            classes: p.classes.insert(
                parent,
                above.update(
                    i,
                    Choice {
                        kids: note_kids(above[i].kids, below[0].kids, below[0].kids.len()),
                        ..above[i]
                    },
                ),
            ).insert(child, below.update(0, Choice { kids: Seq::empty(), ..below[0] })),
            ..p
        }
    } else {
        p
    }
}

/// [`pulled`] for the first `k` pairs, one after another.
pub open spec fn pulled_all(p: Problem, pairs: Seq<(ClassId, ClassId)>, k: nat) -> Problem
    decreases k,
{
    if k == 0 {
        p
    } else {
        pulled(pulled_all(p, pairs, (k - 1) as nat), pairs[k - 1].0, pairs[k - 1].1)
    }
}

/// [`pulled_all`] for every class that only one class needs.
pub open spec fn pull_round(p: Problem, n: nat) -> Problem {
    pulled_all(p, single_parents(p, n), single_parents(p, n).len())
}

/// [`pull_round`], `t` times.
pub open spec fn pull_rounds(p: Problem, n: nat, t: nat) -> Problem
    decreases t,
{
    if t == 0 {
        p
    } else {
        pull_round(pull_rounds(p, n, (t - 1) as nat), n)
    }
}

/// At most one class needs class `d`.
pub open spec fn few_parents(p: Problem, d: ClassId) -> bool {
    forall|x: ClassId, y: ClassId|
        p.classes.contains_key(x) && p.classes.contains_key(y) && #[trigger] needs(p.classes[x], d)
            && #[trigger] needs(p.classes[y], d) ==> x == y
}

/// What a list with more appended holds.
proof fn lemma_note_kids(order: Seq<ClassId>, kids: Seq<ClassId>, k: nat, d: ClassId)
    requires
        k <= kids.len(),
    ensures
        note_kids(order, kids, k).contains(d) <==> order.contains(d) || kids.take(
            k as int,
        ).contains(d),
        order.no_duplicates() ==> note_kids(order, kids, k).no_duplicates(),
    decreases k,
{
    if k > 0 {
        lemma_note_kids(order, kids, (k - 1) as nat, d);
        let before = note_kids(order, kids, (k - 1) as nat);
        let e = kids[k - 1];
        let head = kids.take(k - 1);
        assert(kids.take(k as int) =~= head.push(e));
        assert(head.push(e).contains(d) <==> head.contains(d) || d == e) by {
            if head.contains(d) {
                let j = choose|j: int| 0 <= j < head.len() && head[j] == d;
                assert(head.push(e)[j] == d);
            }
            if d == e {
                assert(head.push(e)[head.len() as int] == d);
            }
        }
        if !before.contains(e) {
            assert(before.push(e).contains(d) <==> before.contains(d) || d == e) by {
                if before.contains(d) {
                    let j = choose|j: int| 0 <= j < before.len() && before[j] == d;
                    assert(before.push(e)[j] == d);
                }
                if d == e {
                    assert(before.push(e)[before.len() as int] == d);
                }
            }
        }
    }
}

proof fn lemma_joined(order: Seq<ClassId>, kids: Seq<ClassId>)
    ensures
        forall|d: ClassId| #[trigger]
            note_kids(order, kids, kids.len()).contains(d) <==> order.contains(d) || kids.contains(
                d,
            ),
        order.no_duplicates() ==> note_kids(order, kids, kids.len()).no_duplicates(),
{
    assert(kids.take(kids.len() as int) =~= kids);
    assert forall|d: ClassId| #[trigger]
        note_kids(order, kids, kids.len()).contains(d) <==> order.contains(d) || kids.contains(
            d,
        ) by {
        lemma_note_kids(order, kids, kids.len(), d);
    }
    lemma_note_kids(order, kids, kids.len(), 0);
}

/// What each choice of a pulled problem is.
proof fn lemma_pulled_lists(p: Problem, child: ClassId, parent: ClassId)
    requires
        can_pull(p, child, parent),
    ensures
        ({
            let q = pulled(p, child, parent);
            let i = place_of_need(p.classes[parent], child);
            &&& only_at(p.classes[parent], child, i)
            &&& forall|c: ClassId| #[trigger]
                q.classes.contains_key(c) <==> p.classes.contains_key(c)
            &&& forall|c: ClassId| #[trigger]
                q.classes.contains_key(c) ==> q.classes[c].len() == p.classes[c].len()
            &&& forall|c: ClassId, j: int|
                p.classes.contains_key(c) && 0 <= j < p.classes[c].len()
                    ==> #[trigger] q.classes[c][j] == (if c == child {
                    Choice { kids: Seq::empty(), ..p.classes[c][j] }
                } else if c == parent && j == i {
                    Choice {
                        kids: note_kids(
                            p.classes[c][j].kids,
                            p.classes[child][0].kids,
                            p.classes[child][0].kids.len(),
                        ),
                        ..p.classes[c][j]
                    }
                } else {
                    p.classes[c][j]
                })
        }),
{
    let i = place_of_need(p.classes[parent], child);
    assert(needed_once(p.classes[parent], child));
    assert(only_at(p.classes[parent], child, i));
}

/// Where a pulled problem's choices stand, and what changed of them.
proof fn lemma_pulled_choice(p: Problem, n: nat, child: ClassId, parent: ClassId, c: ClassId)
    requires
        sound(p, n),
        can_pull(p, child, parent),
        p.classes.contains_key(c),
    ensures
        ({
            let q = pulled(p, child, parent);
            &&& distinct_nodes(q.classes[c])
            &&& forall|node: NodeId| #[trigger]
                offers(q.classes[c], node) <==> offers(p.classes[c], node)
            &&& forall|node: NodeId| #[trigger]
                offers(p.classes[c], node) ==> place(q.classes[c], node) == place(
                    p.classes[c],
                    node,
                )
        }),
{
    let q = pulled(p, child, parent);
    lemma_pulled_lists(p, child, parent);
    let a = p.classes[c];
    let b = q.classes[c];
    assert(q.classes.contains_key(c));
    assert forall|j: int| 0 <= j < a.len() implies (#[trigger] b[j]).node == a[j].node by {
        assert(q.classes[c][j].node == p.classes[c][j].node);
    }
    assert(sound_class(p, a));
    assert forall|i: int, j: int| 0 <= i < j < b.len() implies (#[trigger] b[i]).node != (
    #[trigger] b[j]).node by {
        assert(a[i].node != a[j].node);
    }
    assert forall|node: NodeId| #[trigger] offers(b, node) <==> offers(a, node) by {
        if offers(a, node) {
            let i = place(a, node);
            assert(b[i].node == node);
        }
        if offers(b, node) {
            let i = place(b, node);
            assert(a[i].node == node);
        }
    }
    assert forall|node: NodeId| #[trigger] offers(a, node) implies place(b, node) == place(
        a,
        node,
    ) by {
        let i = place(a, node);
        assert(b[i].node == node);
        lemma_place(b, i);
    }
}

/// A pull leaves the problem sound.
proof fn lemma_pulled_sound(p: Problem, n: nat, child: ClassId, parent: ClassId)
    requires
        sound(p, n),
    ensures
        sound(pulled(p, child, parent), n),
        forall|c: ClassId| #[trigger]
            pulled(p, child, parent).classes.contains_key(c) <==> p.classes.contains_key(c),
{
    if can_pull(p, child, parent) {
        let q = pulled(p, child, parent);
        lemma_pulled_lists(p, child, parent);
        let i = place_of_need(p.classes[parent], child);
        let kids = p.classes[child][0].kids;
        lemma_joined(p.classes[parent][i].kids, kids);
        assert forall|c: ClassId| #[trigger] q.classes.contains_key(c) implies c < n && sound_class(
            q,
            q.classes[c],
        ) by {
            assert(p.classes.contains_key(c));
            lemma_pulled_choice(p, n, child, parent, c);
            let a = p.classes[c];
            let b = q.classes[c];
            assert(sound_class(p, a));
            assert(sound_class(p, p.classes[child]));
            assert forall|j: int| 0 <= j < b.len() implies is_weight((#[trigger] b[j]).cost)
                && b[j].kids.no_duplicates() by {
                assert(q.classes[c][j].cost == a[j].cost);
                assert(is_weight(a[j].cost));
            }
            assert forall|j: int, d: ClassId|
                0 <= j < b.len() && (#[trigger] b[j].kids.contains(d)) implies q.classes.contains_key(
            d) by {
                assert(q.classes[c][j] == b[j]);
                if c == child {
                } else if c == parent && j == i && !a[j].kids.contains(d) {
                    assert(kids.contains(d));
                    assert(p.classes[child][0].kids.contains(d));
                } else {
                    assert(a[j].kids.contains(d));
                }
            }
        }
        assert forall|r: ClassId| #[trigger] q.roots.contains(r) implies q.classes.contains_key(
        r) by {
            assert(p.roots.contains(r));
        }
        assert forall|c: ClassId| #[trigger] q.decided.contains_key(c) implies !q.classes.contains_key(
        c) by {
            assert(p.decided.contains_key(c));
        }
    }
}

/// A pull gives no class a second parent.
proof fn lemma_pulled_few(p: Problem, child: ClassId, parent: ClassId, d: ClassId)
    requires
        few_parents(p, d),
    ensures
        few_parents(pulled(p, child, parent), d),
{
    if can_pull(p, child, parent) {
        let q = pulled(p, child, parent);
        lemma_pulled_lists(p, child, parent);
        let i = place_of_need(p.classes[parent], child);
        let kids = p.classes[child][0].kids;
        lemma_joined(p.classes[parent][i].kids, kids);
        // Whatever needs `d` now needed it before, but for the parent of a
        // class that needed it and no longer does.
        assert forall|x: ClassId| q.classes.contains_key(x) && #[trigger] needs(
            q.classes[x],
            d,
        ) implies x != child && (needs(p.classes[x], d) || (x == parent && needs(
            p.classes[child],
            d,
        ))) by {
            let b = q.classes[x];
            let j = choose|j: int| 0 <= j < b.len() && (#[trigger] b[j]).kids.contains(d);
            assert(q.classes[x][j] == b[j]);
            if x == child {
            } else if x == parent && j == i && !p.classes[x][j].kids.contains(d) {
                assert(p.classes[child][0].kids.contains(d));
            } else {
                assert(p.classes[x][j].kids.contains(d));
            }
        }
        assert forall|x: ClassId, y: ClassId|
            q.classes.contains_key(x) && q.classes.contains_key(y) && #[trigger] needs(
                q.classes[x],
                d,
            ) && #[trigger] needs(q.classes[y], d) implies x == y by {
            assert(p.classes.contains_key(x) && p.classes.contains_key(y));
            if needs(p.classes[x], d) && needs(p.classes[y], d) {
            } else if needs(p.classes[x], d) {
                assert(needs(p.classes[child], d));
                assert(x == child);
            } else if needs(p.classes[y], d) {
                assert(needs(p.classes[child], d));
                assert(y == child);
            }
        }
    }
}

proof fn lemma_pulled(p: Problem, n: nat, child: ClassId, parent: ClassId, bound: int)
    requires
        sound(p, n),
        few_parents(p, child),
    ensures
        simplifies(p, pulled(p, child, parent), n, bound),
{
    if can_pull(p, child, parent) {
        lemma_pull(p, n, child, parent, bound);
    } else {
        lemma_simplifies_itself(p, n, bound);
    }
}

/// What a class needs can be moved up to the only choice that needs it.
proof fn lemma_pull(p: Problem, n: nat, child: ClassId, parent: ClassId, bound: int)
    requires
        sound(p, n),
        few_parents(p, child),
        can_pull(p, child, parent),
    ensures
        simplifies(p, pulled(p, child, parent), n, bound),
{
    let q = pulled(p, child, parent);
    lemma_pulled_sound(p, n, child, parent);
    lemma_pulled_lists(p, child, parent);
    let i = place_of_need(p.classes[parent], child);
    let kids = p.classes[child][0].kids;
    lemma_joined(p.classes[parent][i].kids, kids);
    assert(needs(p.classes[parent], child)) by {
        assert(p.classes[parent][i].kids.contains(child));
    }
    assert forall|c: ClassId, j: int|
        q.classes.contains_key(c) && 0 <= j < q.classes[c].len() implies listed(
        p.classes[c],
        #[trigger] q.classes[c][j],
    ) by {
        assert(q.classes[c][j].node == p.classes[c][j].node);
    }
    assert forall|c: ClassId, node: NodeId|
        p.classes.contains_key(c) && #[trigger] offers(p.classes[c], node) implies ({
        let j = place(p.classes[c], node);
        &&& 0 <= j < p.classes[c].len()
        &&& offers(q.classes[c], node)
        &&& choice_of(q, c, node) == q.classes[c][j]
        &&& choice_of(p, c, node) == p.classes[c][j]
        &&& choice_of(q, c, node).cost == choice_of(p, c, node).cost
    }) by {
        lemma_pulled_choice(p, n, child, parent, c);
        lemma_offered(p.classes[c], node);
        let j = place(p.classes[c], node);
        assert(q.classes[c][j].cost == p.classes[c][j].cost);
    }
    assert forall|c: ClassId, node: NodeId|
        q.classes.contains_key(c) && #[trigger] offers(q.classes[c], node) implies offers(
        p.classes[c],
        node,
    ) by {
        lemma_pulled_choice(p, n, child, parent, c);
    }
    assert forall|sel: Map<ClassId, NodeId>| #[trigger]
        solves(p, sel) && price(p, sel, n) <= bound implies attains(q, n, price(p, sel, n)) by {
        let rank = choose|rank: Map<ClassId, nat>| solves_with(p, sel, rank);
        assert forall|c: ClassId, d: ClassId|
            sel.contains_key(c) && #[trigger] choice_of(q, c, sel[c]).kids.contains(
                d,
            ) implies sel.contains_key(d) && rank[d] < rank[c] by {
            assert(offers(p.classes[c], sel[c]));
            let j = place(p.classes[c], sel[c]);
            assert(q.classes[c][j] == choice_of(q, c, sel[c]));
            if choice_of(p, c, sel[c]).kids.contains(d) {
            } else {
                assert(c == parent && j == i);
                assert(kids.contains(d));
                assert(choice_of(p, c, sel[c]).kids.contains(child));
                assert(sel.contains_key(child));
                assert(offers(p.classes[child], sel[child]));
                assert(choice_of(p, child, sel[child]) == p.classes[child][0]);
                assert(choice_of(p, child, sel[child]).kids.contains(d));
            }
        }
        assert(solves_with(q, sel, rank));
        assert forall|c: ClassId| #[trigger] class_price(q, sel, c) <= class_price(p, sel, c) by {
            if sel.contains_key(c) {
                assert(offers(p.classes[c], sel[c]));
            }
        }
        lemma_price_below(q, sel, p, sel, n);
        assert(solves(q, sel));
    }
    assert forall|sel: Map<ClassId, NodeId>| #[trigger] solves(q, sel) implies holds_solution(
        p,
        n,
        sel,
        q.decided,
        price(q, sel, n),
    ) by {
        let rank = choose|rank: Map<ClassId, nat>| solves_with(q, sel, rank);
        let used = sel.contains_key(parent) && place(p.classes[parent], sel[parent]) == i;
        // The class is only needed where the choice that needs it is made.
        let part = if used {
            sel
        } else {
            sel.remove(child)
        };
        let ranks = Map::new(
            |c: ClassId| true,
            |c: ClassId|
                if c == child {
                    if rank[parent] > 0 {
                        (2 * rank[parent] - 1) as nat
                    } else {
                        0nat
                    }
                } else {
                    2 * rank[c]
                },
        );
        assert forall|c: ClassId| #[trigger] sel.contains_key(c) implies p.classes.contains_key(c)
            && offers(p.classes[c], sel[c]) by {
            assert(q.classes.contains_key(c));
        }
        assert forall|c: ClassId, d: ClassId|
            part.contains_key(c) && #[trigger] choice_of(p, c, part[c]).kids.contains(
                d,
            ) implies part.contains_key(d) && ranks[d] < ranks[c] by {
            assert(sel.contains_key(c));
            assert(part[c] == sel[c]);
            assert(offers(p.classes[c], sel[c]));
            let j = place(p.classes[c], sel[c]);
            assert(q.classes[c][j] == choice_of(q, c, sel[c]));
            assert(needs(p.classes[c], d)) by {
                assert(p.classes[c][j].kids.contains(d));
            }
            if c == child {
                assert(used);
                assert(kids.contains(d));
                assert(choice_of(q, parent, sel[parent]) == q.classes[parent][i]) by {
                    assert(offers(p.classes[parent], sel[parent]));
                }
                assert(choice_of(q, parent, sel[parent]).kids.contains(d));
                assert(sel.contains_key(d) && rank[d] < rank[parent]);
                assert(d != child) by {
                    if d == child {
                        assert(c == parent);
                    }
                }
            } else {
                assert(q.classes[c][j].kids.contains(d));
                assert(choice_of(q, c, sel[c]).kids.contains(d));
                if d == child {
                    assert(c == parent);
                    assert(p.classes[parent][j].kids.contains(child));
                    assert(j == i);
                    assert(used);
                }
            }
        }
        assert forall|r: ClassId| #[trigger] p.roots.contains(r) implies part.contains_key(r) by {
            assert(q.roots.contains(r));
        }
        assert(solves_with(p, part, ranks));
        assert forall|c: ClassId| #[trigger] class_price(p, part, c) <= class_price(q, sel, c) by {
            lemma_class_price(q, sel, c, n);
            if part.contains_key(c) {
                assert(sel.contains_key(c));
                assert(offers(p.classes[c], sel[c]));
            }
        }
        lemma_price_below(p, part, q, sel, n);
        assert(solves(p, part));
        assert(drawn_from(part, sel, q.decided));
    }
}

/// One round of pulls.
proof fn lemma_pulled_all(p: Problem, n: nat, pairs: Seq<(ClassId, ClassId)>, k: nat, bound: int)
    requires
        sound(p, n),
        k <= pairs.len(),
        forall|i: int| 0 <= i < pairs.len() ==> few_parents(p, (#[trigger] pairs[i]).0),
    ensures
        sound(pulled_all(p, pairs, k), n),
        simplifies(p, pulled_all(p, pairs, k), n, bound),
        forall|i: int|
            0 <= i < pairs.len() ==> few_parents(pulled_all(p, pairs, k), (#[trigger] pairs[i]).0),
        forall|c: ClassId| #[trigger]
            pulled_all(p, pairs, k).classes.contains_key(c) <==> p.classes.contains_key(c),
    decreases k,
{
    if k == 0 {
        lemma_simplifies_itself(p, n, bound);
    } else {
        lemma_pulled_all(p, n, pairs, (k - 1) as nat, bound);
        let mid = pulled_all(p, pairs, (k - 1) as nat);
        let (child, parent) = pairs[k - 1];
        lemma_pulled(mid, n, child, parent, bound);
        lemma_pulled_sound(mid, n, child, parent);
        lemma_simplifies_trans(p, mid, pulled(mid, child, parent), n, bound);
        assert forall|i: int| 0 <= i < pairs.len() implies few_parents(
            pulled_all(p, pairs, k),
            (#[trigger] pairs[i]).0,
        ) by {
            lemma_pulled_few(mid, child, parent, pairs[i].0);
        }
        assert forall|c: ClassId| #[trigger]
            pulled_all(p, pairs, k).classes.contains_key(c) <==> p.classes.contains_key(c) by {
            assert(mid.classes.contains_key(c) <==> p.classes.contains_key(c));
        }
    }
}

/// A class with a sole parent has few.
proof fn lemma_sole_is_few(p: Problem, d: ClassId, c: ClassId)
    requires
        sole_parent(p, d, c),
    ensures
        few_parents(p, d),
{
    assert forall|x: ClassId, y: ClassId|
        p.classes.contains_key(x) && p.classes.contains_key(y) && #[trigger] needs(p.classes[x], d)
            && #[trigger] needs(p.classes[y], d) implies x == y by {
        assert(x == c);
        assert(y == c);
    }
}

/// What the pairs of a problem say.
pub proof fn lemma_single_parents(p: Problem, n: nat)
    requires
        sound(p, n),
    ensures
        forall|i: int|
            0 <= i < single_parents(p, n).len() ==> {
                let (child, parent) = #[trigger] single_parents(p, n)[i];
                &&& sole_parent(p, child, parent)
                &&& few_parents(p, child)
                &&& p.classes.contains_key(child)
                &&& p.classes.contains_key(parent)
            },
{
    let order = crate::extract::faster_ilp_cbc::parents::kid_order(p, n);
    assert forall|i: int| 0 <= i < single_parents(p, n).len() implies {
        let (child, parent) = #[trigger] single_parents(p, n)[i];
        &&& sole_parent(p, child, parent)
        &&& few_parents(p, child)
        &&& p.classes.contains_key(child)
        &&& p.classes.contains_key(parent)
    } by {
        let (child, parent) = single_parents(p, n)[i];
        lemma_pairs(p, order, order.len(), i);
        lemma_sole_is_few(p, child, parent);
        let list = p.classes[parent];
        let j = choose|j: int| 0 <= j < list.len() && (#[trigger] list[j]).kids.contains(child);
        assert(sound_class(p, list));
        assert(list[j].kids.contains(child));
    }
}

proof fn lemma_pull_rounds(p: Problem, n: nat, t: nat, bound: int)
    requires
        sound(p, n),
    ensures
        sound(pull_rounds(p, n, t), n),
        simplifies(p, pull_rounds(p, n, t), n, bound),
    decreases t,
{
    if t == 0 {
        lemma_simplifies_itself(p, n, bound);
    } else {
        lemma_pull_rounds(p, n, (t - 1) as nat, bound);
        let mid = pull_rounds(p, n, (t - 1) as nat);
        let pairs = single_parents(mid, n);
        lemma_single_parents(mid, n);
        lemma_pulled_all(mid, n, pairs, pairs.len(), bound);
        lemma_simplifies_trans(p, mid, pull_round(mid, n), n, bound);
    }
}

/// A round that changes nothing can be repeated at will.
proof fn lemma_pull_settled(p: Problem, n: nat, t: nat, u: nat)
    requires
        t <= u,
        pull_round(pull_rounds(p, n, t), n) == pull_rounds(p, n, t),
    ensures
        pull_rounds(p, n, u) == pull_rounds(p, n, t),
    decreases u,
{
    if t < u {
        lemma_pull_settled(p, n, t, (u - 1) as nat);
    }
}

/// The place of the only node that needs `d`.
fn find_only(nodes: &Vec<NodeIlp>, d: ClassId) -> (r: Option<usize>)
    ensures
        r is Some <==> needed_once(choices_in(nodes@), d),
        r matches Some(i) ==> only_at(choices_in(nodes@), d, i as int) && i == place_of_need(
            choices_in(nodes@),
            d,
        ),
{
    let ghost list = choices_in(nodes@);
    let mut found: Option<usize> = None;
    let mut i: usize = 0;
    while i < nodes.len()
        invariant
            list == choices_in(nodes@),
            i <= nodes@.len(),
            match found {
                Some(k) => k < i && list[k as int].kids.contains(d) && forall|j: int|
                    0 <= j < i && (#[trigger] list[j]).kids.contains(d) ==> j == k,
                None => forall|j: int| 0 <= j < i ==> !(#[trigger] list[j]).kids.contains(d),
            },
        decreases nodes@.len() - i,
    {
        assert(list[i as int].kids == id_set(nodes@[i as int].children_classes));
        if id_set_contains(&nodes[i].children_classes, d) {
            if found.is_some() {
                proof {
                    if needed_once(list, d) {
                        let m = choose|m: int| only_at(list, d, m);
                        assert(list[i as int].kids.contains(d));
                    }
                }
                return None;
            }
            found = Some(i);
        }
        i += 1;
    }
    proof {
        match found {
            Some(k) => {
                assert(only_at(list, d, k as int));
                let m = place_of_need(list, d);
                assert(only_at(list, d, m));
            },
            None => {},
        }
    }
    found
}

/// `above` with what is in `below` and not in it appended.
fn join(above: &IndexSet<ClassId>, below: &IndexSet<ClassId>) -> (r: IndexSet<ClassId>)
    ensures
        id_set(r) == note_kids(id_set(*above), id_set(*below), id_set(*below).len()),
{
    let mut joined: IndexSet<ClassId> = id_set_clone(above);
    let len: usize = id_set_len(below);
    let mut k: usize = 0;
    while k < len
        invariant
            k <= len == id_set(*below).len(),
            id_set(joined) == note_kids(id_set(*above), id_set(*below), k as nat),
        decreases len - k,
    {
        if let Some(d) = id_set_get_index(below, k) {
            id_set_insert(&mut joined, d);
        }
        k += 1;
    }
    joined
}

/// [`pulled`], and whether anything was.
fn pull_up_one(vars: &mut Vars, child: ClassId, parent: ClassId) -> (r: bool)
    requires
        old(vars).live@.len() == old(vars).classes@.len(),
        old(vars).has(child),
        old(vars).has(parent),
    ensures
        r == can_pull(old(vars)@, child, parent),
        final(vars)@ == pulled(old(vars)@, child, parent),
        final(vars).live@ == old(vars).live@,
        final(vars).same_columns(old(vars)),
{
    let ghost p = vars@;
    assert(p.classes.contains_key(child));
    assert(p.classes.contains_key(parent));
    if child == parent {
        return false;
    }
    if has_id(&vars.roots, child) {
        return false;
    }
    assert(p.classes[child] == choices_in(vars.classes@[child as int].nodes@));
    assert(p.classes[parent] == choices_in(vars.classes@[parent as int].nodes@));
    if vars.classes[child].nodes.len() != 1 {
        return false;
    }
    if id_set_len(&vars.classes[child].nodes[0].children_classes) == 0 {
        return false;
    }
    match find_only(&vars.classes[parent].nodes, child) {
        None => false,
        Some(i) => {
            let joined: IndexSet<ClassId> = join(
                &vars.classes[parent].nodes[i].children_classes,
                &vars.classes[child].nodes[0].children_classes,
            );
            let ghost before = *vars;
            vars.set_kids(parent, i, joined);
            let none: IndexSet<ClassId> = id_set_new();
            assert(vars@.classes[child] == p.classes[child]);
            assert(vars@.classes[child] == choices_in(vars.classes@[child as int].nodes@));
            assert(id_set(none) =~= Seq::empty());
            vars.set_kids(child, 0, none);
            assert(vars@.classes =~= pulled(p, child, parent).classes);
            true
        },
    }
}

/// If a class has one node and a single node of a single class needs it, moves
/// what it needs up to that node.
///
/// There could be a long chain of such classes, which is worked off by
/// repetition.
pub fn pull_up_with_single_parent(vars: &mut Vars, config: &Config)
    requires
        old(vars).wf(),
    ensures
        final(vars)@ == (if config.pull_up_single_parent {
            pull_rounds(old(vars)@, old(vars).size(), ROUNDS as nat)
        } else {
            old(vars)@
        }),
        final(vars).wf(),
        final(vars).same_columns(old(vars)),
        forall|bound: int| #[trigger]
            simplifies(old(vars)@, final(vars)@, old(vars).size(), bound),
{
    let ghost p = vars@;
    let ghost n = vars.size();
    if !config.pull_up_single_parent {
        proof {
            assert forall|bound: int| #[trigger] simplifies(p, p, n, bound) by {
                lemma_simplifies_itself(p, n, bound);
            }
        }
        return ;
    }
    let mut t: usize = 0;
    while t < ROUNDS
        invariant
            vars.wf(),
            n == vars.size(),
            sound(p, n),
            t <= ROUNDS,
            vars@ == pull_rounds(p, n, t as nat),
            vars.same_columns(old(vars)),
        decreases ROUNDS - t,
    {
        let ghost mid = vars@;
        let pairs: Vec<(ClassId, ClassId)> = classes_with_single_parent(vars);
        proof {
            lemma_single_parents(mid, n);
        }
        let mut count: usize = 0;
        let mut k: usize = 0;
        while k < pairs.len()
            invariant
                n == vars.size(),
                vars.live@.len() == n,
                sound(mid, n),
                pairs@ == single_parents(mid, n),
                forall|i: int|
                    0 <= i < pairs@.len() ==> {
                        let (child, parent) = #[trigger] pairs@[i];
                        &&& few_parents(mid, child)
                        &&& mid.classes.contains_key(child)
                        &&& mid.classes.contains_key(parent)
                    },
                k <= pairs@.len(),
                count <= k,
                count == 0 ==> vars@ == mid,
                vars@ == pulled_all(mid, pairs@, k as nat),
                vars.same_columns(old(vars)),
            decreases pairs@.len() - k,
        {
            let (child, parent) = pairs[k];
            proof {
                assert(pairs@[k as int] == (child, parent));
                assert forall|i: int| 0 <= i < pairs@.len() implies few_parents(
                    mid,
                    (#[trigger] pairs@[i]).0,
                ) by {}
                lemma_pulled_all(mid, n, pairs@, k as nat, 0);
                assert(vars@.classes.contains_key(child));
                assert(vars@.classes.contains_key(parent));
            }
            if pull_up_one(vars, child, parent) {
                count += 1;
            }
            k += 1;
        }
        proof {
            lemma_pull_rounds(p, n, (t + 1) as nat, 0);
        }
        t += 1;
        if count == 0 {
            proof {
                lemma_pull_settled(p, n, (t - 1) as nat, ROUNDS as nat);
            }
            t = ROUNDS;
        }
    }
    proof {
        assert forall|bound: int| #[trigger] simplifies(p, vars@, n, bound) by {
            lemma_pull_rounds(p, n, ROUNDS as nat, bound);
        }
    }
}

} // verus!
