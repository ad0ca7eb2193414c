//! Moving costs up to the only class that needs a class.
use crate::collections::{id_set, id_set_contains};
use crate::cost::{is_weight, Cost, INFINITY};
use crate::egraph::{ClassId, NodeId};
use crate::extract::faster_ilp_cbc::parents::{
    classes_with_single_parent, single_parents, sole_parent,
};
use crate::extract::faster_ilp_cbc::problem::{
    attains, choice_of, choices_in, class_price, distinct_nodes, drawn_from, holds_solution,
    lemma_class_price, lemma_offered, lemma_place, lemma_simplifies_itself, lemma_simplifies_trans,
    listed, offers, place, price, simplifies, solves, solves_with, sound, sound_class, Choice, NodeIlp,
    Problem, Vars,
};
use crate::extract::faster_ilp_cbc::prune::{
    cheapest, has_id, least_cost, lemma_cheapest, lemma_cheapest_is,
};
use crate::extract::faster_ilp_cbc::pull::{lemma_single_parents, ROUNDS};
use crate::extract::faster_ilp_cbc::reach::needs;
use crate::extract::faster_ilp_cbc::Config;
use vstd::prelude::*;

verus! {

/// `amount` can be added to every choice that needs class `d`.
pub open spec fn fits(list: Seq<Choice>, d: ClassId, amount: Cost) -> bool {
    forall|i: int|
        0 <= i < list.len() && (#[trigger] list[i]).kids.contains(d) ==> list[i].cost + amount
            < INFINITY
}

/// What the cheapest choice for class `c` costs.
pub open spec fn least(p: Problem, c: ClassId) -> Cost {
    cheapest(p.classes[c], p.classes[c].len())
}

/// Class `child` is no root, every choice for it costs something, and the
/// sums are finite.
pub open spec fn can_lift(p: Problem, child: ClassId, parent: ClassId) -> bool {
    &&& child != parent
    &&& p.classes.contains_key(child)
    &&& p.classes.contains_key(parent)
    &&& !p.roots.contains(child)
    &&& p.classes[child].len() > 0
    &&& least(p, child) != 0
    &&& fits(p.classes[parent], child, least(p, child))
}

/// The choices with `amount` taken off each.
pub open spec fn lowered(list: Seq<Choice>, amount: Cost) -> Seq<Choice> {
    Seq::new(list.len(), |i: int| Choice { cost: (list[i].cost - amount) as Cost, ..list[i] })
}

/// The choices with `amount` put on each that needs class `d`.
pub open spec fn raised(list: Seq<Choice>, d: ClassId, amount: Cost) -> Seq<Choice> {
    Seq::new(
        list.len(),
        |i: int|
            if list[i].kids.contains(d) {
                Choice { cost: (list[i].cost + amount) as Cost, ..list[i] }
            } else {
                list[i]
            },
    )
}

/// The problem with the least that `child` costs moved to the choices of
/// `parent` that need it, where that is possible.
pub open spec fn lifted(p: Problem, child: ClassId, parent: ClassId) -> Problem {
    if can_lift(p, child, parent) {
        Problem {
            classes: p.classes.insert(child, lowered(p.classes[child], least(p, child))).insert(
                parent,
                raised(p.classes[parent], child, least(p, child)),
            ),
            ..p
        }
    } else {
        p
    }
}

/// [`lifted`] for the first `k` pairs, one after another.
pub open spec fn lifted_all(p: Problem, pairs: Seq<(ClassId, ClassId)>, k: nat) -> Problem
    decreases k,
{
    if k == 0 {
        p
    } else {
        lifted(lifted_all(p, pairs, (k - 1) as nat), pairs[k - 1].0, pairs[k - 1].1)
    }
}

/// [`lifted_all`] for all pairs, `t` times.
pub open spec fn lift_rounds(p: Problem, pairs: Seq<(ClassId, ClassId)>, t: nat) -> Problem
    decreases t,
{
    if t == 0 {
        p
    } else {
        lifted_all(lift_rounds(p, pairs, (t - 1) as nat), pairs, pairs.len())
    }
}

/// The two problems differ in costs only.
pub open spec fn same_but_costs(p: Problem, q: Problem) -> bool {
    &&& q.roots == p.roots
    &&& q.decided == p.decided
    &&& forall|c: ClassId| #[trigger] q.classes.contains_key(c) <==> p.classes.contains_key(c)
    &&& forall|c: ClassId| #[trigger]
        q.classes.contains_key(c) ==> q.classes[c].len() == p.classes[c].len()
    &&& forall|c: ClassId, i: int|
        p.classes.contains_key(c) && 0 <= i < p.classes[c].len() ==> #[trigger] q.classes[c][i] == (
        Choice { cost: q.classes[c][i].cost, ..p.classes[c][i] })
}

/// A lift changes costs only.
proof fn lemma_lifted_shape(p: Problem, child: ClassId, parent: ClassId)
    ensures
        same_but_costs(p, lifted(p, child, parent)),
{
    let q = lifted(p, child, parent);
    assert forall|c: ClassId, i: int|
        p.classes.contains_key(c) && 0 <= i < p.classes[c].len() implies #[trigger] q.classes[c][i]
        == (Choice { cost: q.classes[c][i].cost, ..p.classes[c][i] }) by {
        if can_lift(p, child, parent) {
            if c == child {
                assert(q.classes[c] == lowered(p.classes[c], least(p, child)));
            } else if c == parent {
                assert(q.classes[c] == raised(p.classes[c], child, least(p, child)));
            }
        }
    }
}

proof fn lemma_same_trans(p: Problem, q: Problem, r: Problem)
    requires
        same_but_costs(p, q),
        same_but_costs(q, r),
    ensures
        same_but_costs(p, r),
{
    assert forall|c: ClassId| #[trigger]
        r.classes.contains_key(c) <==> p.classes.contains_key(c) by {
        assert(q.classes.contains_key(c) <==> p.classes.contains_key(c));
    }
    assert forall|c: ClassId| #[trigger] r.classes.contains_key(c) implies r.classes[c].len()
        == p.classes[c].len() by {
        assert(q.classes.contains_key(c));
    }
    assert forall|c: ClassId, i: int|
        p.classes.contains_key(c) && 0 <= i < p.classes[c].len() implies #[trigger] r.classes[c][i]
        == (Choice { cost: r.classes[c][i].cost, ..p.classes[c][i] }) by {
        assert(q.classes.contains_key(c));
        assert(q.classes[c][i] == (Choice { cost: q.classes[c][i].cost, ..p.classes[c][i] }));
    }
}

/// Where costs alone differ, who needs whom does not.
proof fn lemma_same_parents(p: Problem, q: Problem, d: ClassId, c: ClassId)
    requires
        same_but_costs(p, q),
        sole_parent(p, d, c),
    ensures
        sole_parent(q, d, c),
{
    assert forall|x: ClassId| q.classes.contains_key(x) implies #[trigger] needs(q.classes[x], d)
        == needs(p.classes[x], d) by {
        assert(p.classes.contains_key(x));
        if needs(p.classes[x], d) {
            let i = choose|i: int|
                0 <= i < p.classes[x].len() && (#[trigger] p.classes[x][i]).kids.contains(d);
            assert(q.classes[x][i].kids.contains(d));
        }
        if needs(q.classes[x], d) {
            let i = choose|i: int|
                0 <= i < q.classes[x].len() && (#[trigger] q.classes[x][i]).kids.contains(d);
            assert(p.classes[x][i].kids.contains(d));
        }
    }
    assert(q.classes.contains_key(c));
    assert(needs(q.classes[c], d));
    assert forall|x: ClassId| #[trigger]
        q.classes.contains_key(x) && needs(q.classes[x], d) implies x == c by {
        assert(p.classes.contains_key(x));
    }
}

/// Where costs alone differ, the choices stand in the same places.
proof fn lemma_same_choice(p: Problem, q: Problem, n: nat, c: ClassId, node: NodeId)
    requires
        sound(p, n),
        same_but_costs(p, q),
        p.classes.contains_key(c),
    ensures
        distinct_nodes(q.classes[c]),
        offers(q.classes[c], node) <==> offers(p.classes[c], node),
        offers(p.classes[c], node) ==> {
            let i = place(p.classes[c], node);
            &&& 0 <= i < p.classes[c].len()
            &&& place(q.classes[c], node) == i
            &&& choice_of(q, c, node) == q.classes[c][i]
            &&& choice_of(p, c, node) == p.classes[c][i]
            &&& choice_of(q, c, node).kids == choice_of(p, c, node).kids
        },
{
    let a = p.classes[c];
    let b = q.classes[c];
    assert(q.classes.contains_key(c));
    assert(sound_class(p, a));
    assert forall|i: int| 0 <= i < a.len() implies (#[trigger] b[i]).node == a[i].node && b[i].kids
        == a[i].kids by {
        assert(q.classes[c][i] == (Choice { cost: q.classes[c][i].cost, ..p.classes[c][i] }));
    }
    assert forall|i: int, j: int| 0 <= i < j < b.len() implies (#[trigger] b[i]).node != (
    #[trigger] b[j]).node by {
        assert(a[i].node != a[j].node);
    }
    if offers(a, node) {
        let i = place(a, node);
        assert(b[i].node == node);
        lemma_place(b, i);
    }
    if offers(b, node) {
        let i = place(b, node);
        assert(a[i].node == node);
    }
}

/// A lift leaves the problem sound.
proof fn lemma_lifted_sound(p: Problem, n: nat, child: ClassId, parent: ClassId)
    requires
        sound(p, n),
    ensures
        sound(lifted(p, child, parent), n),
{
    let q = lifted(p, child, parent);
    lemma_lifted_shape(p, child, parent);
    assert forall|c: ClassId| #[trigger] q.classes.contains_key(c) implies c < n && sound_class(
        q,
        q.classes[c],
    ) by {
        assert(p.classes.contains_key(c));
        let a = p.classes[c];
        let b = q.classes[c];
        assert(sound_class(p, a));
        lemma_same_choice(p, q, n, c, 0);
        assert forall|i: int| 0 <= i < b.len() implies is_weight((#[trigger] b[i]).cost)
            && b[i].kids.no_duplicates() by {
            assert(q.classes[c][i] == (Choice { cost: q.classes[c][i].cost, ..p.classes[c][i] }));
            assert(is_weight(a[i].cost));
            if can_lift(p, child, parent) {
                let list = p.classes[child];
                assert(sound_class(p, list));
                lemma_cheapest_is(list, list.len());
                if c == child {
                    lemma_cheapest(list, list.len(), i);
                } else if c == parent {
                    assert(a[i].kids.contains(child) ==> a[i].cost + least(p, child) < INFINITY);
                }
            }
        }
        assert forall|i: int, d: ClassId|
            0 <= i < b.len() && (#[trigger] b[i].kids.contains(d)) implies q.classes.contains_key(
        d) by {
            assert(q.classes[c][i] == (Choice { cost: q.classes[c][i].cost, ..p.classes[c][i] }));
            assert(a[i].kids.contains(d));
        }
    }
    assert forall|r: ClassId| #[trigger] q.roots.contains(r) implies q.classes.contains_key(r) by {
        assert(p.roots.contains(r));
    }
    assert forall|c: ClassId| #[trigger]
        q.decided.contains_key(c) implies !q.classes.contains_key(c) by {
        assert(p.decided.contains_key(c));
    }
}

/// Two prices that differ in two classes only.
proof fn lemma_price_shifted(
    p: Problem,
    sel: Map<ClassId, NodeId>,
    q: Problem,
    other: Map<ClassId, NodeId>,
    a: ClassId,
    b: ClassId,
    n: nat,
)
    requires
        a != b,
        n <= usize::MAX,
        forall|c: ClassId|
            c != a && c != b ==> #[trigger] class_price(p, sel, c) <= class_price(q, other, c),
    ensures
        price(p, sel, n) <= price(q, other, n) + (if a < n {
            class_price(p, sel, a) - class_price(q, other, a)
        } else {
            0
        }) + (if b < n {
            class_price(p, sel, b) - class_price(q, other, b)
        } else {
            0
        }),
    decreases n,
{
    if n > 0 {
        lemma_price_shifted(p, sel, q, other, a, b, (n - 1) as nat);
        let c = (n - 1) as ClassId;
        if c != a && c != b {
            assert(class_price(p, sel, c) <= class_price(q, other, c));
        }
    }
}

/// What a class costs at least can be paid where it is needed.
proof fn lemma_lift(p: Problem, n: nat, child: ClassId, parent: ClassId, bound: int)
    requires
        sound(p, n),
        n <= usize::MAX,
        sole_parent(p, child, parent),
        can_lift(p, child, parent),
    ensures
        simplifies(p, lifted(p, child, parent), n, bound),
{
    let q = lifted(p, child, parent);
    let m = least(p, child) as int;
    lemma_lifted_shape(p, child, parent);
    lemma_lifted_sound(p, n, child, parent);
    assert(child < n && parent < n);
    assert forall|c: ClassId, j: int|
        q.classes.contains_key(c) && 0 <= j < q.classes[c].len() implies listed(
        p.classes[c],
        #[trigger] q.classes[c][j],
    ) by {
        assert(q.classes[c][j] == (Choice { cost: q.classes[c][j].cost, ..p.classes[c][j] }));
    }
    assert(sound_class(p, p.classes[child]));
    lemma_cheapest_is(p.classes[child], p.classes[child].len());
    assert(m > 0);
    assert forall|c: ClassId, node: NodeId|
        p.classes.contains_key(c) && #[trigger] offers(p.classes[c], node) implies ({
        let o = choice_of(p, c, node);
        &&& offers(q.classes[c], node)
        &&& choice_of(q, c, node).kids == o.kids
        &&& choice_of(q, c, node).cost == (if c == child {
            o.cost - m
        } else if c == parent && o.kids.contains(child) {
            o.cost + m
        } else {
            o.cost as int
        })
    }) by {
        lemma_same_choice(p, q, n, c, node);
        let i = place(p.classes[c], node);
        if c == child {
            lemma_cheapest(p.classes[c], p.classes[c].len(), i);
            assert(is_weight(p.classes[c][i].cost));
        } else if c == parent {
            assert(is_weight(p.classes[c][i].cost));
            assert(p.classes[c][i].kids.contains(child) ==> p.classes[c][i].cost + least(p, child)
                < INFINITY);
        }
    }
    assert forall|c: ClassId, node: NodeId|
        q.classes.contains_key(c) && #[trigger] offers(q.classes[c], node) implies offers(
        p.classes[c],
        node,
    ) by {
        assert(p.classes.contains_key(c));
        lemma_same_choice(p, q, n, c, node);
    }
    assert forall|sel: Map<ClassId, NodeId>| #[trigger]
        solves(p, sel) && price(p, sel, n) <= bound implies attains(q, n, price(p, sel, n)) by {
        let rank = choose|rank: Map<ClassId, nat>| solves_with(p, sel, rank);
        assert forall|c: ClassId| #[trigger] sel.contains_key(c) implies offers(
            p.classes[c],
            sel[c],
        ) && p.classes.contains_key(c) by {}
        assert forall|c: ClassId, d: ClassId|
            sel.contains_key(c) && #[trigger] choice_of(q, c, sel[c]).kids.contains(
                d,
            ) implies sel.contains_key(d) && rank[d] < rank[c] by {
            assert(offers(p.classes[c], sel[c]));
            assert(choice_of(p, c, sel[c]).kids.contains(d));
        }
        assert(solves_with(q, sel, rank));
        assert forall|c: ClassId| c != child && c != parent implies #[trigger] class_price(
            q,
            sel,
            c,
        ) <= class_price(p, sel, c) by {
            if sel.contains_key(c) {
                assert(offers(p.classes[c], sel[c]));
            }
        }
        lemma_price_shifted(q, sel, p, sel, child, parent, n);
        if sel.contains_key(parent) {
            assert(offers(p.classes[parent], sel[parent]));
            if choice_of(p, parent, sel[parent]).kids.contains(child) {
                assert(sel.contains_key(child));
            }
        }
        if sel.contains_key(child) {
            assert(offers(p.classes[child], sel[child]));
        }
        assert(price(q, sel, n) <= price(p, sel, n));
        assert(solves(q, sel));
    }
    assert forall|sel: Map<ClassId, NodeId>| #[trigger] solves(q, sel) implies holds_solution(
        p,
        n,
        sel,
        q.decided,
        price(q, sel, n),
    ) by {
        let rank = choose|rank: Map<ClassId, nat>| solves_with(q, sel, rank);
        let used = sel.contains_key(parent) && choice_of(p, parent, sel[parent]).kids.contains(
            child,
        );
        // The class is only paid for where it is needed.
        let part = if used {
            sel
        } else {
            sel.remove(child)
        };
        assert forall|c: ClassId| #[trigger] sel.contains_key(c) implies p.classes.contains_key(c)
            && offers(p.classes[c], sel[c]) by {
            assert(q.classes.contains_key(c));
            assert(offers(q.classes[c], sel[c]));
        }
        assert forall|c: ClassId, d: ClassId|
            part.contains_key(c) && #[trigger] choice_of(p, c, part[c]).kids.contains(
                d,
            ) implies part.contains_key(d) && rank[d] < rank[c] by {
            assert(sel.contains_key(c));
            assert(offers(p.classes[c], sel[c]));
            assert(choice_of(q, c, sel[c]).kids.contains(d));
            if d == child {
                lemma_offered(p.classes[c], sel[c]);
                assert(needs(p.classes[c], child));
                assert(c == parent);
                assert(used);
            }
        }
        assert forall|r: ClassId| #[trigger] p.roots.contains(r) implies part.contains_key(r) by {
            assert(q.roots.contains(r));
        }
        assert(solves_with(p, part, rank));
        assert forall|c: ClassId| c != child && c != parent implies #[trigger] class_price(
            p,
            part,
            c,
        ) <= class_price(q, sel, c) by {
            if part.contains_key(c) {
                assert(sel.contains_key(c));
                assert(offers(p.classes[c], sel[c]));
            }
        }
        lemma_price_shifted(p, part, q, sel, child, parent, n);
        lemma_class_price(q, sel, child, n);
        if sel.contains_key(parent) {
            assert(offers(p.classes[parent], sel[parent]));
            if used {
                assert(choice_of(q, parent, sel[parent]).kids.contains(child));
                assert(sel.contains_key(child));
                assert(offers(p.classes[child], sel[child]));
            }
        }
        assert(price(p, part, n) <= price(q, sel, n));
        assert(solves(p, part));
        assert(drawn_from(part, sel, q.decided));
    }
}

proof fn lemma_lifted_all(p: Problem, n: nat, pairs: Seq<(ClassId, ClassId)>, k: nat, bound: int)
    requires
        sound(p, n),
        n <= usize::MAX,
        k <= pairs.len(),
        forall|i: int|
            0 <= i < pairs.len() ==> sole_parent(p, (#[trigger] pairs[i]).0, pairs[i].1),
    ensures
        sound(lifted_all(p, pairs, k), n),
        same_but_costs(p, lifted_all(p, pairs, k)),
        simplifies(p, lifted_all(p, pairs, k), n, bound),
    decreases k,
{
    if k == 0 {
        lemma_simplifies_itself(p, n, bound);
    } else {
        lemma_lifted_all(p, n, pairs, (k - 1) as nat, bound);
        let mid = lifted_all(p, pairs, (k - 1) as nat);
        let (child, parent) = pairs[k - 1];
        assert(sole_parent(p, pairs[k - 1].0, pairs[k - 1].1));
        lemma_same_parents(p, mid, child, parent);
        lemma_lifted_shape(mid, child, parent);
        lemma_lifted_sound(mid, n, child, parent);
        lemma_same_trans(p, mid, lifted(mid, child, parent));
        if can_lift(mid, child, parent) {
            lemma_lift(mid, n, child, parent, bound);
        } else {
            lemma_simplifies_itself(mid, n, bound);
        }
        lemma_simplifies_trans(p, mid, lifted(mid, child, parent), n, bound);
    }
}

proof fn lemma_lift_rounds(p: Problem, n: nat, pairs: Seq<(ClassId, ClassId)>, t: nat, bound: int)
    requires
        sound(p, n),
        n <= usize::MAX,
        forall|i: int|
            0 <= i < pairs.len() ==> sole_parent(p, (#[trigger] pairs[i]).0, pairs[i].1),
    ensures
        sound(lift_rounds(p, pairs, t), n),
        same_but_costs(p, lift_rounds(p, pairs, t)),
        simplifies(p, lift_rounds(p, pairs, t), n, bound),
        forall|i: int|
            0 <= i < pairs.len() ==> sole_parent(
                lift_rounds(p, pairs, t),
                (#[trigger] pairs[i]).0,
                pairs[i].1,
            ),
    decreases t,
{
    if t == 0 {
        lemma_simplifies_itself(p, n, bound);
    } else {
        lemma_lift_rounds(p, n, pairs, (t - 1) as nat, bound);
        let mid = lift_rounds(p, pairs, (t - 1) as nat);
        let end = lifted_all(mid, pairs, pairs.len());
        lemma_lifted_all(mid, n, pairs, pairs.len(), bound);
        lemma_same_trans(p, mid, end);
        lemma_simplifies_trans(p, mid, end, n, bound);
    }
    assert forall|i: int| 0 <= i < pairs.len() implies sole_parent(
        lift_rounds(p, pairs, t),
        (#[trigger] pairs[i]).0,
        pairs[i].1,
    ) by {
        lemma_same_parents(p, lift_rounds(p, pairs, t), pairs[i].0, pairs[i].1);
    }
}

/// A round that changes nothing can be repeated at will.
proof fn lemma_lift_settled(p: Problem, pairs: Seq<(ClassId, ClassId)>, t: nat, u: nat)
    requires
        t <= u,
        lifted_all(lift_rounds(p, pairs, t), pairs, pairs.len()) == lift_rounds(p, pairs, t),
    ensures
        lift_rounds(p, pairs, u) == lift_rounds(p, pairs, t),
    decreases u,
{
    if t < u {
        lemma_lift_settled(p, pairs, t, (u - 1) as nat);
    }
}

impl Vars {
    /// Replaces what a node costs.
    fn set_cost(&mut self, c: ClassId, i: usize, cost: Cost)
        requires
            old(self).live@.len() == old(self).classes@.len(),
            old(self).has(c),
            i < old(self).classes@[c as int].nodes@.len(),
        ensures
            final(self)@ == (Problem {
                classes: old(self)@.classes.insert(
                    c,
                    old(self)@.classes[c].update(
                        i as int,
                        Choice { cost, ..old(self)@.classes[c][i as int] },
                    ),
                ),
                ..old(self)@
            }),
            final(self).live@ == old(self).live@,
            final(self).same_columns(old(self)),
            final(self).classes@[c as int].nodes@.len() == old(
                self,
            ).classes@[c as int].nodes@.len(),
    {
        let ghost before = *self;
        self.classes[c].nodes[i].cost = cost;
        proof {
            assert forall|d: ClassId| d != c && before.has(d) implies #[trigger] self.classes@[d as int]
                == before.classes@[d as int] by {}
            let list = before@.classes[c].update(
                i as int,
                Choice { cost, ..before@.classes[c][i as int] },
            );
            assert(choices_in(self.classes@[c as int].nodes@) =~= list);
            assert(self@.classes =~= before@.classes.insert(c, list));
        }
    }
}

fn can_add(nodes: &Vec<NodeIlp>, d: ClassId, amount: Cost) -> (r: bool)
    requires
        0 <= amount,
        forall|i: int| 0 <= i < nodes@.len() ==> is_weight((#[trigger] choices_in(nodes@)[i]).cost),
    ensures
        r == fits(choices_in(nodes@), d, amount),
{
    let ghost list = choices_in(nodes@);
    let mut i: usize = 0;
    while i < nodes.len()
        invariant
            list == choices_in(nodes@),
            0 <= amount,
            forall|i: int| 0 <= i < nodes@.len() ==> is_weight((#[trigger] list[i]).cost),
            i <= nodes@.len(),
            forall|j: int|
                0 <= j < i && (#[trigger] list[j]).kids.contains(d) ==> list[j].cost + amount
                    < INFINITY,
        decreases nodes@.len() - i,
    {
        proof {
            assert(list[i as int].kids == id_set(nodes@[i as int].children_classes));
            assert(list[i as int].cost == nodes@[i as int].cost);
            assert(is_weight(list[i as int].cost));
        }
        if id_set_contains(&nodes[i].children_classes, d) && nodes[i].cost >= INFINITY - amount {
            return false;
        }
        i += 1;
    }
    true
}

/// Takes `amount` off every node of class `c`.
fn lower(vars: &mut Vars, c: ClassId, amount: Cost)
    requires
        old(vars).live@.len() == old(vars).classes@.len(),
        old(vars).has(c),
        0 <= amount,
        forall|i: int|
            0 <= i < old(vars)@.classes[c].len() ==> (#[trigger] old(vars)@.classes[c][i]).cost
                >= amount,
    ensures
        final(vars)@ == (Problem {
            classes: old(vars)@.classes.insert(c, lowered(old(vars)@.classes[c], amount)),
            ..old(vars)@
        }),
        final(vars).live@ == old(vars).live@,
        final(vars).same_columns(old(vars)),
{
    let ghost start = vars@;
    let ghost list = start.classes[c];
    let len: usize = vars.classes[c].nodes.len();
    let mut i: usize = 0;
    assert(start.classes.insert(c, list) =~= start.classes);
    while i < len
        invariant
            vars.live@.len() == vars.classes@.len(),
            vars.has(c),
            vars.live@ == old(vars).live@,
            vars.same_columns(old(vars)),
            0 <= amount,
            i <= len == list.len(),
            vars.classes@[c as int].nodes@.len() == len,
            vars@.classes[c].len() == len,
            vars@ == (Problem { classes: start.classes.insert(c, vars@.classes[c]), ..start }),
            forall|k: int| 0 <= k < len ==> (#[trigger] list[k]).cost >= amount,
            forall|k: int|
                0 <= k < len ==> #[trigger] vars@.classes[c][k] == (if k < i {
                    lowered(list, amount)[k]
                } else {
                    list[k]
                }),
        decreases len - i,
    {
        assert(vars@.classes[c][i as int] == vars.classes@[c as int].nodes@[i as int]@);
        assert(list[i as int].cost >= amount);
        let cost: Cost = vars.classes[c].nodes[i].cost;
        vars.set_cost(c, i, cost - amount);
        assert(vars@.classes =~= start.classes.insert(c, vars@.classes[c]));
        i += 1;
    }
    assert(vars@.classes[c] =~= lowered(list, amount));
}

/// Puts `amount` on every node of class `c` that needs class `d`.
fn raise(vars: &mut Vars, c: ClassId, d: ClassId, amount: Cost)
    requires
        old(vars).live@.len() == old(vars).classes@.len(),
        old(vars).has(c),
        0 <= amount,
        fits(old(vars)@.classes[c], d, amount),
        forall|i: int|
            0 <= i < old(vars)@.classes[c].len() ==> is_weight(
                (#[trigger] old(vars)@.classes[c][i]).cost,
            ),
    ensures
        final(vars)@ == (Problem {
            classes: old(vars)@.classes.insert(c, raised(old(vars)@.classes[c], d, amount)),
            ..old(vars)@
        }),
        final(vars).live@ == old(vars).live@,
        final(vars).same_columns(old(vars)),
{
    let ghost start = vars@;
    let ghost list = start.classes[c];
    let len: usize = vars.classes[c].nodes.len();
    let mut i: usize = 0;
    assert(start.classes.insert(c, list) =~= start.classes);
    while i < len
        invariant
            vars.live@.len() == vars.classes@.len(),
            vars.has(c),
            vars.live@ == old(vars).live@,
            vars.same_columns(old(vars)),
            0 <= amount,
            fits(list, d, amount),
            forall|k: int| 0 <= k < len ==> is_weight((#[trigger] list[k]).cost),
            i <= len == list.len(),
            vars.classes@[c as int].nodes@.len() == len,
            vars@.classes[c].len() == len,
            vars@ == (Problem { classes: start.classes.insert(c, vars@.classes[c]), ..start }),
            forall|k: int|
                0 <= k < len ==> #[trigger] vars@.classes[c][k] == (if k < i {
                    raised(list, d, amount)[k]
                } else {
                    list[k]
                }),
        decreases len - i,
    {
        assert(vars@.classes[c][i as int] == vars.classes@[c as int].nodes@[i as int]@);
        assert(is_weight(list[i as int].cost));
        if id_set_contains(&vars.classes[c].nodes[i].children_classes, d) {
            assert(list[i as int].kids.contains(d));
            let cost: Cost = vars.classes[c].nodes[i].cost;
            vars.set_cost(c, i, cost + amount);
            assert(vars@.classes =~= start.classes.insert(c, vars@.classes[c]));
        }
        i += 1;
    }
    assert(vars@.classes[c] =~= raised(list, d, amount));
}

/// [`lifted`], and whether anything was.
fn lift_one(vars: &mut Vars, child: ClassId, parent: ClassId) -> (r: bool)
    requires
        old(vars).wf(),
        old(vars).has(child),
        old(vars).has(parent),
    ensures
        r == can_lift(old(vars)@, child, parent),
        final(vars)@ == lifted(old(vars)@, child, parent),
        final(vars).live@ == old(vars).live@,
        final(vars).same_columns(old(vars)),
{
    let ghost p = vars@;
    let ghost n = vars.size();
    proof {
        assert(p.classes.contains_key(child));
        assert(p.classes.contains_key(parent));
        assert(sound_class(p, p.classes[child]));
        assert(sound_class(p, p.classes[parent]));
        assert(p.classes[child] == choices_in(vars.classes@[child as int].nodes@));
        assert(p.classes[parent] == choices_in(vars.classes@[parent as int].nodes@));
    }
    if child == parent {
        return false;
    }
    if has_id(&vars.roots, child) {
        return false;
    }
    if vars.classes[child].nodes.len() == 0 {
        return false;
    }
    let min_cost: Cost = least_cost(&vars.classes[child].nodes);
    proof {
        lemma_cheapest_is(p.classes[child], p.classes[child].len());
    }
    if min_cost == 0 {
        return false;
    }
    if !can_add(&vars.classes[parent].nodes, child, min_cost) {
        return false;
    }
    proof {
        assert forall|i: int| 0 <= i < p.classes[child].len() implies (
        #[trigger] p.classes[child][i]).cost >= min_cost by {
            lemma_cheapest(p.classes[child], p.classes[child].len(), i);
        }
    }
    lower(vars, child, min_cost);
    assert(vars@.classes[parent] == p.classes[parent]);
    raise(vars, parent, child, min_cost);
    true
}

/// For each class that only one class needs, moves the least it costs to each
/// node of that class that needs it; sums that would be infinite are not made.
pub fn pull_up_costs(vars: &mut Vars, config: &Config)
    requires
        old(vars).wf(),
    ensures
        final(vars)@ == (if config.pull_up_costs {
            lift_rounds(
                old(vars)@,
                single_parents(old(vars)@, old(vars).size()),
                ROUNDS as nat,
            )
        } else {
            old(vars)@
        }),
        final(vars).wf(),
        final(vars).same_columns(old(vars)),
        forall|bound: int| #[trigger]
            simplifies(old(vars)@, final(vars)@, old(vars).size(), bound),
{
    let ghost p = vars@;
    let ghost n = vars.size();
    if !config.pull_up_costs {
        proof {
            assert forall|bound: int| #[trigger] simplifies(p, p, n, bound) by {
                lemma_simplifies_itself(p, n, bound);
            }
        }
        return ;
    }
    let n_classes: usize = vars.classes.len();
    let pairs: Vec<(ClassId, ClassId)> = classes_with_single_parent(vars);
    proof {
        lemma_single_parents(p, n);
    }
    let mut t: usize = 0;
    while t < ROUNDS
        invariant
            vars.wf(),
            n == vars.size(),
            n == n_classes,
            sound(p, n),
            pairs@ == single_parents(p, n),
            forall|i: int|
                0 <= i < pairs@.len() ==> {
                    let (child, parent) = #[trigger] pairs@[i];
                    &&& sole_parent(p, child, parent)
                    &&& p.classes.contains_key(child)
                    &&& p.classes.contains_key(parent)
                },
            t <= ROUNDS,
            vars@ == lift_rounds(p, pairs@, t as nat),
            vars.same_columns(old(vars)),
        decreases ROUNDS - t,
    {
        let ghost mid = vars@;
        let mut changed: bool = false;
        let mut k: usize = 0;
        proof {
            assert forall|i: int| 0 <= i < pairs@.len() implies sole_parent(
                p,
                (#[trigger] pairs@[i]).0,
                pairs@[i].1,
            ) by {}
            lemma_lift_rounds(p, n, pairs@, t as nat, 0);
        }
        while k < pairs.len()
            invariant
                n == vars.size(),
                n == n_classes,
                vars.live@.len() == n,
                sound(mid, n),
                same_but_costs(p, mid),
                forall|i: int|
                    0 <= i < pairs@.len() ==> {
                        let (child, parent) = #[trigger] pairs@[i];
                        &&& sole_parent(mid, child, parent)
                        &&& p.classes.contains_key(child)
                        &&& p.classes.contains_key(parent)
                    },
                k <= pairs@.len(),
                !changed ==> vars@ == mid,
                vars@ == lifted_all(mid, pairs@, k as nat),
                vars.same_columns(old(vars)),
            decreases pairs@.len() - k,
        {
            let (child, parent) = pairs[k];
            proof {
                assert(pairs@[k as int] == (child, parent));
                assert forall|i: int| 0 <= i < pairs@.len() implies sole_parent(
                    mid,
                    (#[trigger] pairs@[i]).0,
                    pairs@[i].1,
                ) by {}
                lemma_lifted_all(mid, n, pairs@, k as nat, 0);
                assert(mid.classes.contains_key(child));
                assert(mid.classes.contains_key(parent));
                assert(vars@.classes.contains_key(child));
                assert(vars@.classes.contains_key(parent));
            }
            if lift_one(vars, child, parent) {
                changed = true;
            }
            k += 1;
        }
        proof {
            lemma_lift_rounds(p, n, pairs@, (t + 1) as nat, 0);
        }
        t += 1;
        if !changed {
            proof {
                lemma_lift_settled(p, pairs@, (t - 1) as nat, ROUNDS as nat);
            }
            t = ROUNDS;
        }
    }
    proof {
        assert forall|i: int| 0 <= i < pairs@.len() implies sole_parent(
            p,
            (#[trigger] pairs@[i]).0,
            pairs@[i].1,
        ) by {}
        assert forall|bound: int| #[trigger] simplifies(p, vars@, n, bound) by {
            lemma_lift_rounds(p, n, pairs@, ROUNDS as nat, bound);
        }
    }
}

} // verus!
