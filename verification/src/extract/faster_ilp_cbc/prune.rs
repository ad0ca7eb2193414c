//! Passes that drop nodes no best solution needs.
use crate::collections::id_set_contains;
use crate::cost::{add_costs, minus, plus, sub_costs, Cost, EPSILON_ALLOWANCE, INFINITY};
use crate::egraph::{ClassId, NodeId};
use crate::extract::faster_ilp_cbc::problem::{
    attains, choice_of, choices_in, class_price, lemma_class_price, lemma_offered,
    lemma_price_below, lemma_simplifies_itself, no_worse, place, price, simplifies, solves,
    solves_with, sound, Choice, NodeIlp, Problem, Vars,
};
use crate::extract::faster_ilp_cbc::thin::{
    kept, lemma_marked_solution, lemma_thinned, thinned, thinned_to,
};
use crate::extract::faster_ilp_cbc::Config;
use crate::sums::{
    lemma_part_below, lemma_part_insert, part_of, total_of,
};
use indexmap::IndexSet;
use vstd::prelude::*;

verus! {

/// Part of a solution that has the roots, and with a class all it needs, is a
/// solution that costs no more.
pub proof fn lemma_part(
    p: Problem,
    n: nat,
    sel: Map<ClassId, NodeId>,
    rank: Map<ClassId, nat>,
    part: Map<ClassId, NodeId>,
)
    requires
        sound(p, n),
        solves_with(p, sel, rank),
        forall|c: ClassId| #[trigger]
            part.contains_key(c) ==> sel.contains_key(c) && sel[c] == part[c],
        forall|r: ClassId| #[trigger] p.roots.contains(r) ==> part.contains_key(r),
        forall|c: ClassId, d: ClassId|
            part.contains_key(c) && #[trigger] choice_of(p, c, part[c]).kids.contains(d)
                ==> part.contains_key(d),
    ensures
        solves_with(p, part, rank),
        solves(p, part),
        price(p, part, n) <= price(p, sel, n),
{
    assert(solves(p, sel));
    assert forall|c: ClassId, d: ClassId|
        part.contains_key(c) && #[trigger] choice_of(p, c, part[c]).kids.contains(
            d,
        ) implies part.contains_key(d) && rank[d] < rank[c] by {
        assert(sel.contains_key(c));
        assert(choice_of(p, c, sel[c]).kids.contains(d));
    }
    assert(solves_with(p, part, rank));
    assert forall|c: ClassId| #[trigger] class_price(p, part, c) <= class_price(p, sel, c) by {
        lemma_class_price(p, sel, c, n);
    }
    lemma_price_below(p, part, p, sel, n);
}

/// Thinning one class more.
pub proof fn lemma_thinned_step(p: Problem, masks: spec_fn(ClassId) -> Seq<bool>, c: ClassId)
    ensures
        p.classes.contains_key(c) ==> thinned_to(p, masks, (c + 1) as nat) == (Problem {
            classes: thinned_to(p, masks, c as nat).classes.insert(
                c,
                kept(p.classes[c], masks(c), 0),
            ),
            ..p
        }),
        !p.classes.contains_key(c) ==> thinned_to(p, masks, (c + 1) as nat) == thinned_to(
            p,
            masks,
            c as nat,
        ),
{
    let next = thinned_to(p, masks, (c + 1) as nat);
    let now = thinned_to(p, masks, c as nat);
    if p.classes.contains_key(c) {
        assert(next.classes =~= now.classes.insert(c, kept(p.classes[c], masks(c), 0)));
    } else {
        assert(next.classes =~= now.classes);
    }
}

/// Thinning no class, and thinning all.
pub proof fn lemma_thinned_ends(p: Problem, masks: spec_fn(ClassId) -> Seq<bool>, n: nat)
    requires
        sound(p, n),
    ensures
        thinned_to(p, masks, 0) == p,
        thinned_to(p, masks, n) == thinned(p, masks),
{
    assert(thinned_to(p, masks, 0).classes =~= p.classes);
    assert forall|c: ClassId| p.classes.contains_key(c) implies c < n by {}
    assert(thinned_to(p, masks, n).classes =~= thinned(p, masks).classes);
}

// ---------------------------------------------------------------------------
// Loops
// ---------------------------------------------------------------------------

/// A choice for class `c` needs `c` itself or the only root.
pub open spec fn loops_back(roots: Seq<ClassId>, c: ClassId, o: Choice) -> bool {
    o.kids.contains(c) || (roots.len() == 1 && o.kids.contains(roots[0]))
}

pub open spec fn loop_mask(roots: Seq<ClassId>, c: ClassId, list: Seq<Choice>) -> Seq<bool> {
    Seq::new(list.len(), |i: int| !loops_back(roots, c, list[i]))
}

/// Marks the choices that do not loop back.
pub open spec fn loop_masks(p: Problem) -> spec_fn(ClassId) -> Seq<bool> {
    |c: ClassId| loop_mask(p.roots, c, p.classes[c])
}

fn mark_loops(nodes: &Vec<NodeIlp>, c: ClassId, roots: &Vec<ClassId>) -> (r: Vec<bool>)
    ensures
        r@ == loop_mask(roots@, c, choices_in(nodes@)),
{
    let mut mask: Vec<bool> = Vec::new();
    let mut i: usize = 0;
    while i < nodes.len()
        invariant
            i <= nodes@.len(),
            mask@.len() == i,
            forall|k: int|
                0 <= k < i ==> mask@[k] == !loops_back(roots@, c, #[trigger] choices_in(nodes@)[k]),
        decreases nodes@.len() - i,
    {
        let kids: &IndexSet<ClassId> = &nodes[i].children_classes;
        let back: bool = id_set_contains(kids, c) || (roots.len() == 1 && id_set_contains(
            kids,
            roots[0],
        ));
        assert(back == loops_back(roots@, c, choices_in(nodes@)[i as int]));
        mask.push(!back);
        i += 1;
    }
    assert(mask@ =~= loop_mask(roots@, c, choices_in(nodes@)));
    mask
}

/// Removes nodes that need their own class or the only root.
pub fn remove_with_loops(vars: &mut Vars, config: &Config)
    requires
        old(vars).wf(),
    ensures
        final(vars)@ == (if config.remove_self_loops {
            thinned(old(vars)@, loop_masks(old(vars)@))
        } else {
            old(vars)@
        }),
        final(vars).wf(),
        final(vars).same_columns(old(vars)),
        forall|bound: int| #[trigger]
            simplifies(old(vars)@, final(vars)@, old(vars).size(), bound),
{
    let ghost p = vars@;
    let ghost n = vars.size();
    if !config.remove_self_loops {
        proof {
            assert forall|bound: int| #[trigger] simplifies(p, p, n, bound) by {
                lemma_simplifies_itself(p, n, bound);
            }
        }
        return ;
    }
    let ghost masks = loop_masks(p);
    proof {
        lemma_thinned_ends(p, masks, n);
    }
    let mut c: usize = 0;
    while c < vars.classes.len()
        invariant
            sound(p, n),
            n == vars.size() == old(vars).size(),
            vars.live@.len() == n,
            c <= n,
            masks == loop_masks(p),
            vars@ == thinned_to(p, masks, c as nat),
            vars.same_columns(old(vars)),
        decreases n - c,
    {
        proof {
            lemma_thinned_step(p, masks, c);
        }
        if vars.live[c] {
            assert(vars@.classes.contains_key(c));
            assert(p.classes.contains_key(c));
            assert(vars@.classes[c] == p.classes[c]);
            let mask: Vec<bool> = mark_loops(&vars.classes[c].nodes, c, &vars.roots);
            vars.thin(c, &mask);
        } else {
            assert(!vars@.classes.contains_key(c));
        }
        c += 1;
    }
    proof {
        lemma_thinned(p, masks, n);
        assert forall|bound: int| #[trigger] simplifies(p, vars@, n, bound) by {
            lemma_loops(p, n, bound);
        }
    }
}

/// No solution worth its cost loops back.
proof fn lemma_loops(p: Problem, n: nat, bound: int)
    requires
        sound(p, n),
    ensures
        no_worse(p, thinned(p, loop_masks(p)), n, bound),
{
    let masks = loop_masks(p);
    assert forall|sel: Map<ClassId, NodeId>| #[trigger]
        solves(p, sel) && price(p, sel, n) <= bound implies attains(
        thinned(p, masks),
        n,
        price(p, sel, n),
    ) by {
        let rank = choose|rank: Map<ClassId, nat>| solves_with(p, sel, rank);
        // Nothing above the only root is needed.
        let part = if p.roots.len() == 1 {
            Map::new(
                |c: ClassId| sel.contains_key(c) && (c == p.roots[0] || rank[c] < rank[p.roots[0]]),
                |c: ClassId| sel[c],
            )
        } else {
            sel
        };
        assert forall|r: ClassId| #[trigger] p.roots.contains(r) implies part.contains_key(r) by {
            assert(sel.contains_key(r));
        }
        assert forall|c: ClassId, d: ClassId|
            part.contains_key(c) && #[trigger] choice_of(p, c, part[c]).kids.contains(
                d,
            ) implies part.contains_key(d) by {
            assert(choice_of(p, c, sel[c]).kids.contains(d));
            assert(rank[d] < rank[c]);
        }
        lemma_part(p, n, sel, rank, part);
        assert forall|c: ClassId| #[trigger] part.contains_key(c) implies masks(c)[place(
            p.classes[c],
            part[c],
        )] by {
            assert(p.classes.contains_key(c));
            lemma_offered(p.classes[c], part[c]);
            let o = choice_of(p, c, part[c]);
            if o.kids.contains(c) {
                assert(rank[c] < rank[c]);
            }
            if p.roots.len() == 1 && o.kids.contains(p.roots[0]) {
                assert(rank[p.roots[0]] < rank[c]);
            }
        }
        lemma_marked_solution(p, masks, n, part, rank);
        let q = thinned(p, masks);
        assert(solves(q, part));
    }
}

// ---------------------------------------------------------------------------
// Nodes that cost too much
// ---------------------------------------------------------------------------

/// The least of the costs of the first `k` choices; infinite if there is none.
pub open spec fn cheapest(list: Seq<Choice>, k: nat) -> Cost
    decreases k,
{
    if k == 0 {
        INFINITY
    } else {
        let least = cheapest(list, (k - 1) as nat);
        if list[k - 1].cost < least {
            list[k - 1].cost
        } else {
            least
        }
    }
}

/// The least that the first `k` roots cost together; roots without a choice
/// are left out.
pub open spec fn floor_of_roots(p: Problem, k: nat) -> Cost
    decreases k,
{
    if k == 0 {
        0
    } else {
        let below = floor_of_roots(p, (k - 1) as nat);
        let list = p.classes[p.roots[k - 1]];
        if list.len() == 0 {
            below
        } else {
            plus(below, cheapest(list, list.len()))
        }
    }
}

/// What a choice for class `c` may cost in a solution of at most `bound`: the
/// bound less the least that the other roots cost.
pub open spec fn ceiling(p: Problem, c: ClassId, bound: Cost) -> Cost {
    plus(
        plus(
            minus(bound, floor_of_roots(p, p.roots.len())),
            if p.roots.contains(c) {
                cheapest(p.classes[c], p.classes[c].len())
            } else {
                0
            },
        ),
        EPSILON_ALLOWANCE,
    )
}

pub open spec fn cost_mask(list: Seq<Choice>, limit: Cost) -> Seq<bool> {
    Seq::new(list.len(), |i: int| list[i].cost <= limit)
}

/// Marks the choices that do not cost too much.
pub open spec fn cost_masks(p: Problem, bound: Cost) -> spec_fn(ClassId) -> Seq<bool> {
    |c: ClassId| cost_mask(p.classes[c], ceiling(p, c, bound))
}

/// [`cheapest`] of all.
pub(crate) fn least_cost(nodes: &Vec<NodeIlp>) -> (r: Cost)
    ensures
        r == cheapest(choices_in(nodes@), nodes@.len()),
{
    let mut least: Cost = INFINITY;
    let mut i: usize = 0;
    while i < nodes.len()
        invariant
            i <= nodes@.len(),
            least == cheapest(choices_in(nodes@), i as nat),
        decreases nodes@.len() - i,
    {
        assert(choices_in(nodes@)[i as int].cost == nodes@[i as int].cost);
        if nodes[i].cost < least {
            least = nodes[i].cost;
        }
        i += 1;
    }
    least
}

fn roots_floor(vars: &Vars) -> (r: Cost)
    requires
        vars.wf(),
    ensures
        r == floor_of_roots(vars@, vars@.roots.len()),
{
    let mut below: Cost = 0;
    let mut k: usize = 0;
    while k < vars.roots.len()
        invariant
            vars.wf(),
            k <= vars.roots@.len(),
            below == floor_of_roots(vars@, k as nat),
        decreases vars.roots@.len() - k,
    {
        let r: ClassId = vars.roots[k];
        assert(vars@.roots.contains(r));
        assert(vars@.classes.contains_key(r));
        let nodes: &Vec<NodeIlp> = &vars.classes[r].nodes;
        assert(vars@.classes[r] == choices_in(nodes@));
        if nodes.len() > 0 {
            below = add_costs(below, least_cost(nodes));
        }
        k += 1;
    }
    below
}

pub(crate) fn has_id(list: &Vec<ClassId>, item: ClassId) -> (r: bool)
    ensures
        r == list@.contains(item),
{
    let mut k: usize = 0;
    while k < list.len()
        invariant
            k <= list@.len(),
            forall|j: int| 0 <= j < k ==> list@[j] != item,
        decreases list@.len() - k,
    {
        if list[k] == item {
            return true;
        }
        k += 1;
    }
    false
}

fn mark_costs(nodes: &Vec<NodeIlp>, limit: Cost) -> (r: Vec<bool>)
    ensures
        r@ == cost_mask(choices_in(nodes@), limit),
{
    let mut mask: Vec<bool> = Vec::new();
    let mut i: usize = 0;
    while i < nodes.len()
        invariant
            i <= nodes@.len(),
            mask@.len() == i,
            forall|k: int|
                0 <= k < i ==> mask@[k] == ((#[trigger] choices_in(nodes@)[k]).cost <= limit),
        decreases nodes@.len() - i,
    {
        assert(choices_in(nodes@)[i as int].cost == nodes@[i as int].cost);
        mask.push(nodes[i].cost <= limit);
        i += 1;
    }
    assert(mask@ =~= cost_mask(choices_in(nodes@), limit));
    mask
}

/// Removes nodes that cannot be part of a solution of at most `bound`.
///
/// For example, if the roots cost at least 12 together, and a solution of 15
/// is known, then a node of another class that costs more than 3 cannot be
/// part of a best solution.
pub fn remove_high_cost(vars: &mut Vars, bound: Cost, config: &Config)
    requires
        old(vars).wf(),
    ensures
        final(vars)@ == (if config.remove_high_cost_nodes {
            thinned(old(vars)@, cost_masks(old(vars)@, bound))
        } else {
            old(vars)@
        }),
        final(vars).wf(),
        final(vars).same_columns(old(vars)),
        simplifies(old(vars)@, final(vars)@, old(vars).size(), bound as int),
{
    let ghost p = vars@;
    let ghost n = vars.size();
    if !config.remove_high_cost_nodes {
        proof {
            lemma_simplifies_itself(p, n, bound as int);
        }
        return ;
    }
    let ghost masks = cost_masks(p, bound);
    let floor: Cost = roots_floor(vars);
    proof {
        lemma_thinned_ends(p, masks, n);
    }
    let mut c: usize = 0;
    while c < vars.classes.len()
        invariant
            sound(p, n),
            n == vars.size() == old(vars).size(),
            vars.live@.len() == n,
            c <= n,
            masks == cost_masks(p, bound),
            floor == floor_of_roots(p, p.roots.len()),
            vars@ == thinned_to(p, masks, c as nat),
            vars.same_columns(old(vars)),
        decreases n - c,
    {
        proof {
            lemma_thinned_step(p, masks, c);
        }
        if vars.live[c] {
            assert(vars@.classes.contains_key(c));
            assert(p.classes.contains_key(c));
            assert(vars@.classes[c] == p.classes[c]);
            let own: Cost = if has_id(&vars.roots, c) {
                least_cost(&vars.classes[c].nodes)
            } else {
                0
            };
            let limit: Cost = add_costs(add_costs(sub_costs(bound, floor), own), EPSILON_ALLOWANCE);
            let mask: Vec<bool> = mark_costs(&vars.classes[c].nodes, limit);
            assert(limit == ceiling(p, c, bound));
            vars.thin(c, &mask);
        } else {
            assert(!vars@.classes.contains_key(c));
        }
        c += 1;
    }
    proof {
        lemma_thinned(p, masks, n);
        lemma_high_cost(p, n, bound);
    }
}

/// No choice costs less than the cheapest.
pub proof fn lemma_cheapest(list: Seq<Choice>, k: nat, i: int)
    requires
        0 <= i < k <= list.len(),
    ensures
        cheapest(list, k) <= list[i].cost,
    decreases k,
{
    if i < k - 1 {
        lemma_cheapest(list, (k - 1) as nat, i);
    }
}

/// The cheapest of valid costs is one of them.
pub proof fn lemma_cheapest_is(list: Seq<Choice>, k: nat)
    requires
        0 < k <= list.len(),
        forall|i: int| 0 <= i < k ==> 0 <= (#[trigger] list[i]).cost < INFINITY,
    ensures
        0 <= cheapest(list, k) < INFINITY,
        exists|i: int| 0 <= i < k && (#[trigger] list[i]).cost == cheapest(list, k),
    decreases k,
{
    assert(0 <= list[k - 1].cost < INFINITY);
    if k > 1 {
        lemma_cheapest_is(list, (k - 1) as nat);
        let i = choose|i: int|
            0 <= i < k - 1 && (#[trigger] list[i]).cost == cheapest(list, (k - 1) as nat);
        if list[k - 1].cost >= cheapest(list, (k - 1) as nat) {
            assert(list[i].cost == cheapest(list, k));
        }
    } else {
        assert(cheapest(list, 0) == INFINITY);
    }
}

/// What `sel` costs for each class.
pub open spec fn prices(p: Problem, sel: Map<ClassId, NodeId>) -> spec_fn(int) -> int {
    |c: int| class_price(p, sel, c as ClassId)
}

pub proof fn lemma_price_is_total(p: Problem, sel: Map<ClassId, NodeId>, n: nat)
    ensures
        price(p, sel, n) == total_of(prices(p, sel), n),
    decreases n,
{
    if n > 0 {
        lemma_price_is_total(p, sel, (n - 1) as nat);
    }
}

/// The first `k` roots, as numbers.
pub open spec fn root_numbers(p: Problem, k: nat) -> Set<int> {
    Set::new(|x: int| exists|j: int| 0 <= j < k && (#[trigger] p.roots[j]) == x)
}

/// A solution costs the chosen node of a class, and the least that the other
/// roots cost.
proof fn lemma_roots_price(
    p: Problem,
    n: nat,
    sel: Map<ClassId, NodeId>,
    c: ClassId,
    k: nat,
)
    requires
        sound(p, n),
        solves(p, sel),
        sel.contains_key(c),
        k <= p.roots.len(),
    ensures
        part_of(prices(p, sel), root_numbers(p, k).insert(c as int), n) >= class_price(p, sel, c)
            + floor_of_roots(p, k) - (if p.roots.take(k as int).contains(c) {
            cheapest(p.classes[c], p.classes[c].len())
        } else {
            0
        }),
        floor_of_roots(p, k) >= 0,
    decreases k,
{
    let w = prices(p, sel);
    let rank = choose|rank: Map<ClassId, nat>| solves_with(p, sel, rank);
    assert(p.classes.contains_key(c));
    if k == 0 {
        assert(root_numbers(p, 0) =~= Set::empty());
        lemma_part_insert(w, Set::empty(), c as int, n);
        crate::sums::lemma_part_empty(w, n);
        assert(w(c as int) == class_price(p, sel, c));
        assert(p.roots.take(0).len() == 0);
        assert(!p.roots.take(0).contains(c));
    } else {
        let before = (k - 1) as nat;
        lemma_roots_price(p, n, sel, c, before);
        let r = p.roots[k - 1];
        assert(p.roots.contains(r));
        assert(p.classes.contains_key(r));
        assert(sel.contains_key(r));
        let list = p.classes[r];
        lemma_offered(list, sel[r]);
        lemma_cheapest(list, list.len(), place(list, sel[r]));
        lemma_cheapest_is(list, list.len());
        let set = root_numbers(p, before).insert(c as int);
        let next = root_numbers(p, k).insert(c as int);
        assert(next =~= set.insert(r as int)) by {
            assert forall|x: int| next.contains(x) <==> set.insert(r as int).contains(x) by {
                if root_numbers(p, k).contains(x) {
                    let j = choose|j: int| 0 <= j < k && (#[trigger] p.roots[j]) == x;
                    if j < before {
                        assert(root_numbers(p, before).contains(x));
                    }
                }
                if root_numbers(p, before).contains(x) {
                    let j = choose|j: int| 0 <= j < before && (#[trigger] p.roots[j]) == x;
                    assert(root_numbers(p, k).contains(x));
                }
                if x == r {
                    assert(p.roots[k - 1] == x);
                    assert(root_numbers(p, k).contains(x));
                }
            }
        }
        assert(p.roots.take(k as int) =~= p.roots.take(before as int).push(r));
        let was = p.roots.take(before as int).contains(c);
        let is = p.roots.take(k as int).contains(c);
        assert(!root_numbers(p, before).contains(r as int)) by {
            if root_numbers(p, before).contains(r as int) {
                let j = choose|j: int| 0 <= j < before && (#[trigger] p.roots[j]) == r;
                assert(p.roots[j] != p.roots[k - 1]);
            }
        }
        if r == c {
            assert(set.insert(r as int) =~= set);
            assert(p.roots.take(k as int)[k - 1] == c);
            assert(!was) by {
                if was {
                    let j = choose|j: int|
                        0 <= j < before && p.roots.take(before as int)[j] == c;
                    assert(p.roots[j] == c);
                    assert(root_numbers(p, before).contains(r as int));
                }
            }
        } else {
            assert(was == is) by {
                if was {
                    let j = choose|j: int|
                        0 <= j < before && p.roots.take(before as int)[j] == c;
                    assert(p.roots.take(k as int)[j] == c);
                }
                if is {
                    let j = choose|j: int| 0 <= j < k && p.roots.take(k as int)[j] == c;
                    assert(p.roots.take(before as int)[j] == c);
                }
            }
            lemma_part_insert(w, set, r as int, n);
            assert(w(r as int) == class_price(p, sel, r));
        }
    }
}

/// No solution of at most `bound` has a choice that costs too much.
proof fn lemma_high_cost(p: Problem, n: nat, bound: Cost)
    requires
        sound(p, n),
    ensures
        no_worse(p, thinned(p, cost_masks(p, bound)), n, bound as int),
{
    let masks = cost_masks(p, bound);
    assert forall|sel: Map<ClassId, NodeId>| #[trigger]
        solves(p, sel) && price(p, sel, n) <= bound implies attains(
        thinned(p, masks),
        n,
        price(p, sel, n),
    ) by {
        let rank = choose|rank: Map<ClassId, nat>| solves_with(p, sel, rank);
        let w = prices(p, sel);
        assert forall|c: ClassId| #[trigger] sel.contains_key(c) implies masks(c)[place(
            p.classes[c],
            sel[c],
        )] by {
            assert(p.classes.contains_key(c));
            let list = p.classes[c];
            lemma_offered(list, sel[c]);
            let k = p.roots.len();
            lemma_roots_price(p, n, sel, c, k);
            assert(p.roots.take(k as int) =~= p.roots);
            assert forall|j: int| 0 <= j < n implies #[trigger] w(j) >= 0 by {
                lemma_class_price(p, sel, j as ClassId, n);
            }
            lemma_part_below(w, root_numbers(p, k).insert(c as int), n);
            lemma_price_is_total(p, sel, n);
            lemma_cheapest_is(list, list.len());
            let cost = list[place(list, sel[c])].cost;
            assert(class_price(p, sel, c) == cost);
            assert(cost <= ceiling(p, c, bound));
        }
        lemma_marked_solution(p, masks, n, sel, rank);
    }
}

} // verus!
