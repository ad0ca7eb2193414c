//! Which of equals the greedy extractors choose.
use crate::cost::Cost;
use crate::egraph::{lists_members, ClassId, EGraph, NodeId};
use crate::extract::greedy::fixpoint::{
    allowed_in, allowed_to, child_costs, cost_of, drained, extract_superior, first_in,
    greedy_choices, is_first, leaves, ready, released, CostRule,
};
use crate::extract::greedy::heap::{before, Candidate};
use crate::extract::ExtractionResult;
use vstd::multiset::Multiset;
use vstd::prelude::*;

verus! {

/// Node `n` is an allowed one of class `c`.
pub open spec fn is_choice<R: CostRule>(g: EGraph, rule: R, c: ClassId, n: NodeId) -> bool {
    n < g.nodes@.len() && g.nodes@[n as int].eclass == c && rule.allowed(g.nodes@[n as int])
}

/// What node `n` costs if it has no children.
pub open spec fn own_price<R: CostRule>(g: EGraph, rule: R, n: NodeId) -> Cost {
    rule.price(g.nodes@[n as int], Seq::empty())
}

/// The allowed nodes are listed by class, and within a class in order.
spec fn is_in_order<R: CostRule>(g: EGraph, rule: R, nodes: Seq<NodeId>, c: nat) -> bool {
    &&& forall|i: int|
        0 <= i < nodes.len() ==> (#[trigger] nodes[i]) < g.nodes@.len() && rule.allowed(
            g.nodes@[nodes[i] as int],
        ) && g.nodes@[nodes[i] as int].eclass < c
    &&& forall|i: int, j: int|
        0 <= i < j < nodes.len() && g.nodes@[(#[trigger] nodes[i]) as int].eclass == g.nodes@[(
        #[trigger] nodes[j]) as int].eclass ==> nodes[i] < nodes[j]
    &&& forall|n: NodeId|
        n < g.nodes@.len() && rule.allowed(g.nodes@[n as int]) && g.nodes@[n as int].eclass < c
            ==> #[trigger] nodes.contains(n)
}

proof fn lemma_allowed_in<R: CostRule>(g: EGraph, rule: R, c: int, k: nat)
    requires
        g.wf(),
        0 <= c < g.classes@.len(),
        k <= g.classes@[c].nodes@.len(),
    ensures
        ({
            let out = allowed_in(g, rule, c, k);
            let members = g.classes@[c].nodes@;
            &&& forall|i: int|
                0 <= i < out.len() ==> (#[trigger] out[i]) < g.nodes@.len()
                    && g.nodes@[out[i] as int].eclass == c && rule.allowed(g.nodes@[out[i] as int])
                    && (k < members.len() ==> out[i] < members[k as int])
            &&& forall|i: int, j: int| 0 <= i < j < out.len() ==> out[i] < out[j]
            &&& forall|q: int|
                0 <= q < k && rule.allowed(g.nodes@[(#[trigger] members[q]) as int])
                    ==> out.contains(members[q])
        }),
    decreases k,
{
    if k > 0 {
        lemma_allowed_in(g, rule, c, (k - 1) as nat);
        let less = allowed_in(g, rule, c, (k - 1) as nat);
        let out = allowed_in(g, rule, c, k);
        let members = g.classes@[c].nodes@;
        assert(lists_members(g.nodes@, c, members));
        let n = members[k - 1];
        assert forall|i: int| 0 <= i < out.len() implies (#[trigger] out[i]) < g.nodes@.len()
            && g.nodes@[out[i] as int].eclass == c && rule.allowed(g.nodes@[out[i] as int]) && (k
            < members.len() ==> out[i] < members[k as int]) by {
            if i < less.len() {
                assert(out[i] == less[i]);
            }
        }
        assert forall|i: int, j: int| 0 <= i < j < out.len() implies out[i] < out[j] by {
            assert(out[i] == less[i]);
            if j < less.len() {
                assert(out[j] == less[j]);
            }
        }
        assert forall|q: int|
            0 <= q < k && rule.allowed(g.nodes@[(#[trigger] members[q]) as int]) implies out.contains(
        members[q]) by {
            if q < k - 1 {
                assert(less.contains(members[q]));
                let i = choose|i: int| 0 <= i < less.len() && less[i] == members[q];
                assert(out[i] == members[q]);
            } else {
                assert(out[less.len() as int] == members[q]);
            }
        }
    }
}

proof fn lemma_allowed_to<R: CostRule>(g: EGraph, rule: R, c: nat)
    requires
        g.wf(),
        c <= g.classes@.len(),
    ensures
        is_in_order(g, rule, allowed_to(g, rule, c), c),
    decreases c,
{
    if c > 0 {
        lemma_allowed_to(g, rule, (c - 1) as nat);
        let less = allowed_to(g, rule, (c - 1) as nat);
        let members = g.classes@[c - 1].nodes@;
        let own = allowed_in(g, rule, c - 1, members.len());
        let out = allowed_to(g, rule, c);
        lemma_allowed_in(g, rule, c - 1, members.len());
        assert(lists_members(g.nodes@, c - 1, members));
        assert(out == less + own);
        assert forall|i: int| 0 <= i < out.len() implies (#[trigger] out[i]) < g.nodes@.len()
            && rule.allowed(g.nodes@[out[i] as int]) && g.nodes@[out[i] as int].eclass < c by {
            if i < less.len() {
                assert(out[i] == less[i]);
            } else {
                assert(out[i] == own[i - less.len()]);
            }
        }
        assert forall|i: int, j: int|
            0 <= i < j < out.len() && g.nodes@[(#[trigger] out[i]) as int].eclass == g.nodes@[(
            #[trigger] out[j]) as int].eclass implies out[i] < out[j] by {
            if j < less.len() {
                assert(out[i] == less[i] && out[j] == less[j]);
            } else {
                assert(out[j] == own[j - less.len()]);
                if i < less.len() {
                    assert(out[i] == less[i]);
                } else {
                    assert(out[i] == own[i - less.len()]);
                }
            }
        }
        assert forall|n: NodeId|
            n < g.nodes@.len() && rule.allowed(g.nodes@[n as int]) && g.nodes@[n as int].eclass
                < c implies #[trigger] out.contains(n) by {
            if g.nodes@[n as int].eclass < c - 1 {
                assert(less.contains(n));
                let i = choose|i: int| 0 <= i < less.len() && less[i] == n;
                assert(out[i] == n);
            } else {
                assert(g.nodes@[n as int].eclass == c - 1);
                assert(members.contains(n));
                let q = choose|q: int| 0 <= q < members.len() && members[q] == n;
                assert(own.contains(members[q]));
                let i = choose|i: int| 0 <= i < own.len() && own[i] == n;
                assert(out[less.len() + i] == n);
            }
        }
    }
}

/// The candidates without children, numbered in order.
spec fn are_numbered<R: CostRule>(
    g: EGraph,
    rule: R,
    nodes: Seq<NodeId>,
    k: nat,
    queue: Multiset<Candidate>,
    pushes: nat,
) -> bool {
    let none = Map::<ClassId, Cost>::empty();
    &&& pushes <= k
    &&& forall|e: Candidate| #[trigger]
        queue.contains(e) ==> e.2 < k && e.1 < pushes && e.0 == cost_of(g, rule, none, nodes[e.2 as int])
    &&& forall|e: Candidate, x: Candidate| #[trigger]
        queue.contains(e) && #[trigger] queue.contains(x) ==> (e.2 < x.2 ==> e.1 < x.1) && (e.2
            == x.2 ==> e == x)
    &&& forall|i: int|
        0 <= i < k && ready(g, none, #[trigger] nodes[i]) ==> exists|e: Candidate| #[trigger]
            queue.contains(e) && e.2 == i
}

proof fn lemma_leaves<R: CostRule>(g: EGraph, rule: R, nodes: Seq<NodeId>, k: nat)
    requires
        k <= nodes.len() <= usize::MAX,
    ensures
        are_numbered(
            g,
            rule,
            nodes,
            k,
            leaves(g, rule, nodes, k).0,
            leaves(g, rule, nodes, k).1,
        ),
    decreases k,
{
    broadcast use vstd::multiset::group_multiset_axioms;

    let none = Map::<ClassId, Cost>::empty();
    if k > 0 {
        lemma_leaves(g, rule, nodes, (k - 1) as nat);
        let (less, count) = leaves(g, rule, nodes, (k - 1) as nat);
        let (queue, pushes) = leaves(g, rule, nodes, k);
        let n = nodes[k - 1];
        let e = (cost_of(g, rule, none, n), count as usize, (k - 1) as usize);
        if ready(g, none, n) {
            assert(queue == less.insert(e));
            assert forall|x: Candidate| #[trigger] queue.contains(x) <==> less.contains(x) || x
                == e by {}
            assert(queue.contains(e));
            assert forall|i: int| 0 <= i < k && ready(g, none, #[trigger] nodes[i]) implies exists|
                x: Candidate,
            | #[trigger] queue.contains(x) && x.2 == i by {
                if i < k - 1 {
                    let x = choose|x: Candidate| #[trigger] less.contains(x) && x.2 == i;
                    assert(queue.contains(x));
                }
            }
        }
    }
}

proof fn lemma_has_first(queue: Multiset<Candidate>)
    requires
        queue.len() > 0,
    ensures
        exists|e: Candidate| #[trigger] queue.contains(e) && is_first(queue, e),
    decreases queue.len(),
{
    broadcast use vstd::multiset::group_multiset_axioms;

    let x = queue.choose();
    assert(queue.contains(x));
    let rest = queue.remove(x);
    assert forall|y: Candidate| #[trigger] queue.contains(y) implies y == x || rest.contains(y) by {}
    if rest.len() == 0 {
        assert forall|y: Candidate| #[trigger] queue.contains(y) implies !before(y, x) by {
            if y != x {
                assert(rest.contains(y));
            }
        }
        assert(is_first(queue, x));
    } else {
        lemma_has_first(rest);
        let e = choose|e: Candidate| #[trigger] rest.contains(e) && is_first(rest, e);
        assert(queue.contains(e));
        if before(x, e) {
            assert(is_first(queue, x)) by {
                assert forall|y: Candidate| #[trigger] queue.contains(y) implies !before(y, x) by {
                    if y != x {
                        assert(rest.contains(y));
                        assert(!before(y, e));
                    }
                }
            }
        } else {
            assert(is_first(queue, e)) by {
                assert forall|y: Candidate| #[trigger] queue.contains(y) implies !before(y, e) by {
                    if y != x {
                        assert(rest.contains(y));
                    }
                }
            }
        }
    }
}

/// Candidate `e` is of class `c`.
spec fn is_of(g: EGraph, nodes: Seq<NodeId>, c: ClassId, e: Candidate) -> bool {
    e.2 < nodes.len() && g.nodes@[nodes[e.2 as int] as int].eclass == c
}

proof fn lemma_released<R: CostRule>(
    g: EGraph,
    rule: R,
    nodes: Seq<NodeId>,
    f: Map<ClassId, Cost>,
    class: ClassId,
    queue: Multiset<Candidate>,
    pushes: nat,
    k: nat,
    c: ClassId,
)
    requires
        k <= nodes.len() <= usize::MAX,
        forall|i: int|
            0 <= i < nodes.len() && g.nodes@[(#[trigger] nodes[i]) as int].eclass == c
                ==> g.nodes@[nodes[i] as int].children@.len() == 0,
    ensures
        forall|e: Candidate| #[trigger]
            is_of(g, nodes, c, e) ==> (released(g, rule, nodes, f, class, queue, pushes, k).0.contains(
                e,
            ) <==> queue.contains(e)),
    decreases k,
{
    broadcast use vstd::multiset::group_multiset_axioms;

    if k > 0 {
        lemma_released(g, rule, nodes, f, class, queue, pushes, (k - 1) as nat, c);
        let n = nodes[k - 1];
        if g.depends(n, class) {
            assert(g.nodes@[n as int].children@.len() > 0);
        }
    }
}

proof fn lemma_drained<R: CostRule>(
    g: EGraph,
    rule: R,
    nodes: Seq<NodeId>,
    f: Map<ClassId, Cost>,
    sel: Map<ClassId, NodeId>,
    order: Seq<ClassId>,
    queue: Multiset<Candidate>,
    pushes: nat,
    steps: nat,
    c: ClassId,
    best: Candidate,
)
    requires
        nodes.len() <= usize::MAX,
        forall|i: int|
            0 <= i < nodes.len() && g.nodes@[(#[trigger] nodes[i]) as int].eclass == c
                ==> g.nodes@[nodes[i] as int].children@.len() == 0,
        f.contains_key(c) <==> sel.contains_key(c),
        is_of(g, nodes, c, best),
        sel.contains_key(c) ==> sel[c] == nodes[best.2 as int],
        !sel.contains_key(c) ==> queue.contains(best) && forall|x: Candidate| #[trigger]
            queue.contains(x) && is_of(g, nodes, c, x) ==> x == best || before(best, x),
        forall|x: Candidate| #[trigger] queue.contains(x) ==> x.2 < nodes.len(),
    ensures
        ({
            let out = drained(g, rule, nodes, f, sel, order, queue, pushes, steps).0;
            out.contains_key(c) ==> out[c] == nodes[best.2 as int]
        }),
    decreases steps,
{
    broadcast use vstd::multiset::group_multiset_axioms;

    if steps > 0 && queue.len() > 0 {
        lemma_has_first(queue);
        let e = first_in(queue);
        assert(queue.contains(e) && is_first(queue, e));
        let n = nodes[e.2 as int];
        let class = g.nodes@[n as int].eclass;
        let rest = queue.remove(e);
        assert forall|x: Candidate| #[trigger] rest.contains(x) implies queue.contains(x) by {}
        if !sel.contains_key(c) && class == c {
            assert(is_of(g, nodes, c, e));
            assert(!before(best, e));
            assert(e == best);
        }
        if !sel.contains_key(c) && class != c {
            assert(e != best);
            assert(rest.contains(best));
        }
        if f.contains_key(class) {
            lemma_drained(
                g,
                rule,
                nodes,
                f,
                sel,
                order,
                rest,
                pushes,
                (steps - 1) as nat,
                c,
                best,
            );
        } else {
            let f1 = f.insert(class, e.0);
            let next = released(g, rule, nodes, f1, class, rest, pushes, nodes.len());
            lemma_released(g, rule, nodes, f1, class, rest, pushes, nodes.len(), c);
            lemma_released_known(g, rule, nodes, f1, class, rest, pushes, nodes.len());
            let sel1 = sel.insert(class, n);
            if !sel1.contains_key(c) {
                assert(next.0.contains(best));
                assert forall|x: Candidate| #[trigger]
                    next.0.contains(x) && is_of(g, nodes, c, x) implies x == best || before(
                    best,
                    x,
                ) by {
                    assert(rest.contains(x));
                }
            }
            lemma_drained(
                g,
                rule,
                nodes,
                f1,
                sel1,
                order.push(class),
                next.0,
                next.1,
                (steps - 1) as nat,
                c,
                best,
            );
        }
    }
}

proof fn lemma_released_known<R: CostRule>(
    g: EGraph,
    rule: R,
    nodes: Seq<NodeId>,
    f: Map<ClassId, Cost>,
    class: ClassId,
    queue: Multiset<Candidate>,
    pushes: nat,
    k: nat,
)
    requires
        k <= nodes.len() <= usize::MAX,
        forall|x: Candidate| #[trigger] queue.contains(x) ==> x.2 < nodes.len(),
    ensures
        forall|x: Candidate| #[trigger]
            released(g, rule, nodes, f, class, queue, pushes, k).0.contains(x) ==> x.2
                < nodes.len(),
    decreases k,
{
    broadcast use vstd::multiset::group_multiset_axioms;

    if k > 0 {
        lemma_released_known(g, rule, nodes, f, class, queue, pushes, (k - 1) as nat);
        let less = released(g, rule, nodes, f, class, queue, pushes, (k - 1) as nat);
        let out = released(g, rule, nodes, f, class, queue, pushes, k).0;
        let e = (cost_of(g, rule, f, nodes[k - 1]), less.1 as usize, (k - 1) as usize);
        assert forall|x: Candidate| #[trigger] out.contains(x) implies x.2 < nodes.len() by {
            assert(less.0.contains(x) || x == e);
        }
    }
}

proof fn lemma_best<R: CostRule>(
    g: EGraph,
    rule: R,
    nodes: Seq<NodeId>,
    queue: Multiset<Candidate>,
    pushes: nat,
    c: ClassId,
    best: Candidate,
    x: Candidate,
)
    requires
        is_in_order(g, rule, nodes, g.classes@.len()),
        are_numbered(g, rule, nodes, nodes.len(), queue, pushes),
        queue.contains(best),
        queue.contains(x),
        is_of(g, nodes, c, best),
        is_of(g, nodes, c, x),
        forall|m: NodeId| #[trigger]
            is_choice(g, rule, c, m) ==> g.nodes@[m as int].children@.len() == 0,
        forall|m: NodeId| #[trigger]
            is_choice(g, rule, c, m) ==> own_price(g, rule, nodes[best.2 as int]) <= own_price(
                g,
                rule,
                m,
            ) && (m < nodes[best.2 as int] ==> own_price(g, rule, nodes[best.2 as int])
                < own_price(g, rule, m)),
    ensures
        x == best || before(best, x),
{
    let none = Map::<ClassId, Cost>::empty();
    let m = nodes[x.2 as int];
    let n = nodes[best.2 as int];
    assert(is_choice(g, rule, c, m));
    assert(is_choice(g, rule, c, n));
    assert(child_costs(g, none, m) =~= Seq::empty());
    assert(child_costs(g, none, n) =~= Seq::empty());
    if x.2 < best.2 {
        assert(m < n);
    }
}

/// Of the nodes of a class, if none has children, the cheapest is chosen, and of equals the
/// first.
pub proof fn the_first_of_equals_is_chosen<R: CostRule>(
    g: EGraph,
    rule: R,
    r: ExtractionResult,
    c: ClassId,
    n: NodeId,
)
    requires
        g.wf(),
        call_ensures(extract_superior::<R>, (&g, &rule), r),
        allowed_to(g, rule, g.classes@.len()).len() <= usize::MAX,
        forall|m: NodeId| #[trigger]
            is_choice(g, rule, c, m) ==> g.nodes@[m as int].children@.len() == 0,
        is_choice(g, rule, c, n),
        forall|m: NodeId| #[trigger]
            is_choice(g, rule, c, m) ==> own_price(g, rule, n) <= own_price(g, rule, m) && (m < n
                ==> own_price(g, rule, n) < own_price(g, rule, m)),
    ensures
        r@.contains_key(c) ==> r@[c] == n,
{
    let all = g.classes@.len();
    let nodes = allowed_to(g, rule, all);
    let none = Map::<ClassId, Cost>::empty();
    lemma_allowed_to(g, rule, all);
    lemma_leaves(g, rule, nodes, nodes.len());
    let (queue, pushes) = leaves(g, rule, nodes, nodes.len());
    assert(nodes.contains(n));
    let i = choose|i: int| 0 <= i < nodes.len() && nodes[i] == n;
    assert(ready(g, none, nodes[i])) by {
        assert forall|d: ClassId| #[trigger] g.depends(nodes[i], d) implies none.contains_key(d) by {
            assert(g.nodes@[n as int].children@.len() == 0);
        }
    }
    let best = choose|e: Candidate| #[trigger] queue.contains(e) && e.2 == i;
    assert(is_of(g, nodes, c, best));
    assert forall|x: Candidate| #[trigger] queue.contains(x) && is_of(g, nodes, c, x) implies x
        == best || before(best, x) by {
        lemma_best(g, rule, nodes, queue, pushes, c, best, x);
    }
    assert forall|k: int|
        0 <= k < nodes.len() && g.nodes@[(#[trigger] nodes[k]) as int].eclass == c implies
        g.nodes@[nodes[k] as int].children@.len() == 0 by {
        assert(is_choice(g, rule, c, nodes[k]));
    }
    assert(greedy_choices(g, rule) == drained(
        g,
        rule,
        nodes,
        Map::empty(),
        Map::empty(),
        Seq::empty(),
        queue,
        pushes,
        queue.len() + nodes.len(),
    ));
    lemma_drained(
        g,
        rule,
        nodes,
        Map::empty(),
        Map::empty(),
        Seq::empty(),
        queue,
        pushes,
        queue.len() + nodes.len(),
        c,
        best,
    );
}

} // verus!
