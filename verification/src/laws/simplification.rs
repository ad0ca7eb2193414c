//! What each simplification of a problem drops, keeps and moves.
use crate::cost::{is_weight, minus, Cost, EPSILON_ALLOWANCE, INFINITY};
use crate::egraph::{ClassId, EGraph, NodeId};
use crate::extract::faster_ilp_cbc::empty::{
    hope_mask, hope_masks, hopeless, needs_hopeless, remove_empty_classes, served, some_served,
    supported,
};
use crate::extract::faster_ilp_cbc::lift::{
    can_lift, fits, least, lift_rounds, lifted, lifted_all, lowered, pull_up_costs, raised,
};
use crate::extract::faster_ilp_cbc::parents::{
    has_sole_parent, kid_order, note_kids, note_list, pairs_in, parent_of, single_parents,
    sole_parent,
};
use crate::extract::faster_ilp_cbc::problem::{
    sound, sound_class, Choice, Problem, Vars,
};
use crate::extract::faster_ilp_cbc::prune::{
    loop_masks,
    cost_masks,
    ceiling, cheapest, cost_mask, floor_of_roots, loop_mask, remove_high_cost, remove_with_loops,
};
use crate::extract::faster_ilp_cbc::pull::{
    can_pull, only_at, place_of_need, pull_round, pull_rounds, pull_up_with_single_parent, pulled,
    pulled_all,
};
use crate::extract::faster_ilp_cbc::reach::{
    all_need, always_needed, closed_below, closed_by_need, find_extra_roots, needs,
    reachable_from_roots, reachable_part, remove_unreachable_classes, roots_extended,
};
use crate::extract::faster_ilp_cbc::subsume::{
    subsumed_masks,
    beats, covers, lemma_covered, remove_more_expensive_subsumed_nodes, subsumed_mask, unbeaten,
};
use crate::extract::faster_ilp_cbc::thin::{kept, thinned};
use crate::extract::faster_ilp_cbc::zero::{
    freed, is_free, remove_single_zero_cost, unfree, unlinked,
};
use crate::extract::faster_ilp_cbc::{is_reduction, stage, Config};
use crate::extract::faster_ilp_cbc::rows::is_closed;
use crate::extract::faster_ilp_cbc::simplify::{condensed, pruned, round_by, round_of};
use crate::extract::faster_ilp_cbc::start::{
    finite_places, lemma_finite_places, lemma_kids_of, sorts, start_choice, start_list,
    start_problem,
};
use crate::milp::stage::{noted, Staged};
use vstd::prelude::*;

verus! {

// ---------------------------------------------------------------------------
// Picking out
// ---------------------------------------------------------------------------

/// `out` is `list` at the places `at`: those of which `stays` holds, in order.
pub open spec fn picked_at<T>(
    list: Seq<T>,
    out: Seq<T>,
    at: Seq<int>,
    stays: spec_fn(int) -> bool,
) -> bool {
    &&& at.len() == out.len()
    &&& forall|i: int, j: int| 0 <= i < j < at.len() ==> at[i] < at[j]
    &&& forall|j: int|
        0 <= j < at.len() ==> 0 <= (#[trigger] at[j]) < list.len() && stays(at[j]) && out[j]
            == list[at[j]]
    &&& forall|i: int| 0 <= i < list.len() && #[trigger] stays(i) ==> at.contains(i)
}

/// `out` is what is left of `list` if that goes of which `stays` does not hold.
pub open spec fn picks_out<T>(list: Seq<T>, out: Seq<T>, stays: spec_fn(int) -> bool) -> bool {
    exists|at: Seq<int>| #[trigger] picked_at(list, out, at, stays)
}

proof fn lemma_picks(list: Seq<Choice>, mask: Seq<bool>, k: nat, stays: spec_fn(int) -> bool)
    requires
        k <= list.len(),
        forall|i: int| 0 <= i < list.len() ==> (#[trigger] stays(i) <==> i >= k && mask[i]),
    ensures
        picks_out(list, kept(list, mask, k), stays),
    decreases list.len() - k,
{
    let out = kept(list, mask, k);
    if k >= list.len() {
        assert(picked_at(list, out, Seq::empty(), stays));
    } else {
        let later = |i: int| i >= k + 1 && mask[i];
        lemma_picks(list, mask, k + 1, later);
        let rest = kept(list, mask, k + 1);
        let at = choose|at: Seq<int>| #[trigger] picked_at(list, rest, at, later);
        if mask[k as int] {
            let all = seq![k as int] + at;
            assert(stays(k as int));
            assert forall|j: int| 0 <= j < all.len() implies 0 <= (#[trigger] all[j]) < list.len()
                && stays(all[j]) && out[j] == list[all[j]] by {
                if j > 0 {
                    assert(all[j] == at[j - 1]);
                    assert(later(at[j - 1]));
                    assert(out[j] == rest[j - 1]);
                }
            }
            assert forall|i: int, j: int| 0 <= i < j < all.len() implies all[i] < all[j] by {
                assert(all[j] == at[j - 1]);
                assert(later(at[j - 1]));
                if i > 0 {
                    assert(all[i] == at[i - 1]);
                }
            }
            assert forall|i: int| 0 <= i < list.len() && #[trigger] stays(i) implies all.contains(
                i,
            ) by {
                if i == k {
                    assert(all[0] == i);
                } else {
                    assert(later(i));
                    let j = choose|j: int| 0 <= j < at.len() && at[j] == i;
                    assert(all[j + 1] == i);
                }
            }
            assert(picked_at(list, out, all, stays));
        } else {
            assert(!stays(k as int));
            assert forall|j: int| 0 <= j < at.len() implies 0 <= (#[trigger] at[j]) < list.len()
                && stays(at[j]) && out[j] == list[at[j]] by {
                assert(later(at[j]));
            }
            assert forall|i: int| 0 <= i < list.len() && #[trigger] stays(i) implies at.contains(
                i,
            ) by {
                assert(later(i));
            }
            assert(picked_at(list, out, at, stays));
        }
    }
}

/// Only the choices of the classes differ, and no class goes.
pub open spec fn same_classes(p: Problem, q: Problem) -> bool {
    &&& q.roots == p.roots
    &&& q.decided == p.decided
    &&& forall|c: ClassId| #[trigger] q.classes.contains_key(c) <==> p.classes.contains_key(c)
}

// ---------------------------------------------------------------------------
// Dropping nodes
// ---------------------------------------------------------------------------

/// A node goes if it needs its own class, or the root where there is only one; all
/// others stay, in order.
pub proof fn loops_are_dropped(config: &Config, c: ClassId)
    ensures
        forall|vars: &mut Vars| #[trigger]
            call_ensures(remove_with_loops, (vars, config), ()) ==> {
                let (p, q) = (vars@, final(vars)@);
                let list = p.classes[c];
                &&& !config.remove_self_loops ==> q == p
                &&& config.remove_self_loops ==> same_classes(p, q)
                &&& config.remove_self_loops && p.classes.contains_key(c) ==> picks_out(
                    list,
                    q.classes[c],
                    |i: int|
                        !list[i].kids.contains(c) && !(p.roots.len() == 1 && list[i].kids.contains(
                            p.roots[0],
                        )),
                )
            },
{
    assert forall|vars: &mut Vars| #[trigger]
        call_ensures(remove_with_loops, (vars, config), ()) && config.remove_self_loops
            && vars@.classes.contains_key(c) implies picks_out(
        vars@.classes[c],
        final(vars)@.classes[c],
        |i: int|
            !vars@.classes[c][i].kids.contains(c) && !(vars@.roots.len() == 1
                && vars@.classes[c][i].kids.contains(vars@.roots[0])),
    ) by {
        let p = vars@;
        let list = p.classes[c];
        let stays = |i: int|
            !list[i].kids.contains(c) && !(p.roots.len() == 1 && list[i].kids.contains(p.roots[0]));
        lemma_picks(list, loop_mask(p.roots, c, list), 0, stays);
    }
}

/// `least` says what the cheapest node of each root costs.
pub open spec fn are_least(p: Problem, least: Map<ClassId, int>) -> bool {
    forall|r: ClassId| #[trigger]
        p.roots.contains(r) ==> (exists|i: int|
            0 <= i < p.classes[r].len() && (#[trigger] p.classes[r][i]).cost == least[r])
            && forall|i: int|
            0 <= i < p.classes[r].len() ==> least[r] <= (#[trigger] p.classes[r][i]).cost
}

/// The sum of what the first `k` of `roots` cost at least.
pub open spec fn least_sum(roots: Seq<ClassId>, least: Map<ClassId, int>, k: nat) -> int
    decreases k,
{
    if k == 0 {
        0
    } else {
        least_sum(roots, least, (k - 1) as nat) + least[roots[k - 1]]
    }
}

proof fn lemma_least_is_cheapest(p: Problem, n: nat, least: Map<ClassId, int>, r: ClassId)
    requires
        sound(p, n),
        are_least(p, least),
        p.roots.contains(r),
    ensures
        p.classes[r].len() > 0,
        least[r] == cheapest(p.classes[r], p.classes[r].len()),
        0 <= least[r] < INFINITY,
{
    let list = p.classes[r];
    assert(p.classes.contains_key(r));
    assert(sound_class(p, list));
    let i = choose|i: int| 0 <= i < list.len() && (#[trigger] list[i]).cost == least[r];
    assert(is_weight(list[i].cost));
    lemma_cheapest_bound(list, list.len());
}

proof fn lemma_cheapest_bound(list: Seq<Choice>, k: nat)
    requires
        k <= list.len(),
        forall|i: int| 0 <= i < list.len() ==> is_weight((#[trigger] list[i]).cost),
    ensures
        forall|i: int| 0 <= i < k ==> cheapest(list, k) <= (#[trigger] list[i]).cost,
        k > 0 ==> exists|i: int| 0 <= i < k && (#[trigger] list[i]).cost == cheapest(list, k),
    decreases k,
{
    if k > 0 {
        lemma_cheapest_bound(list, (k - 1) as nat);
        let least = cheapest(list, (k - 1) as nat);
        assert(is_weight(list[k - 1].cost));
        if list[k - 1].cost >= least {
            let i = choose|i: int| 0 <= i < k - 1 && (#[trigger] list[i]).cost == least;
            assert(list[i].cost == cheapest(list, k));
        }
    }
}

proof fn lemma_floor(p: Problem, n: nat, least: Map<ClassId, int>, k: nat)
    requires
        sound(p, n),
        are_least(p, least),
        k <= p.roots.len(),
        least_sum(p.roots, least, k) < INFINITY,
    ensures
        floor_of_roots(p, k) == least_sum(p.roots, least, k),
        least_sum(p.roots, least, k) >= 0,
    decreases k,
{
    if k > 0 {
        let r = p.roots[k - 1];
        assert(p.roots.contains(r));
        lemma_least_is_cheapest(p, n, least, r);
        lemma_floor(p, n, least, (k - 1) as nat);
    }
}

/// A node goes if, with the least that the roots cost, its own class aside, it would
/// cost more than is known to do; the other nodes stay, in order.
pub proof fn high_costs_are_dropped(
    config: &Config,
    bound: Cost,
    least: Map<ClassId, int>,
    c: ClassId,
)
    requires
        0 <= bound < INFINITY,
    ensures
        forall|vars: &mut Vars| #[trigger]
            call_ensures(remove_high_cost, (vars, bound, config), ()) ==> {
                let (p, q) = (vars@, final(vars)@);
                let list = p.classes[c];
                let total = least_sum(p.roots, least, p.roots.len());
                let own = if p.roots.contains(c) {
                    least[c]
                } else {
                    0
                };
                &&& !config.remove_high_cost_nodes ==> q == p
                &&& config.remove_high_cost_nodes ==> same_classes(p, q)
                &&& config.remove_high_cost_nodes && vars.wf() && are_least(p, least) && total
                    < INFINITY && bound - total + own + EPSILON_ALLOWANCE < INFINITY
                    && p.classes.contains_key(c) ==> picks_out(
                    list,
                    q.classes[c],
                    |i: int| list[i].cost + total - own <= bound + EPSILON_ALLOWANCE,
                )
            },
{
    assert forall|vars: &mut Vars| #[trigger]
        call_ensures(remove_high_cost, (vars, bound, config), ())
            && config.remove_high_cost_nodes && vars.wf() && are_least(vars@, least) && least_sum(
            vars@.roots,
            least,
            vars@.roots.len(),
        ) < INFINITY && bound - least_sum(vars@.roots, least, vars@.roots.len()) + (
        if vars@.roots.contains(c) {
            least[c]
        } else {
            0
        }) + EPSILON_ALLOWANCE < INFINITY && vars@.classes.contains_key(c) implies picks_out(
        vars@.classes[c],
        final(vars)@.classes[c],
        |i: int|
            vars@.classes[c][i].cost + least_sum(vars@.roots, least, vars@.roots.len()) - (
            if vars@.roots.contains(c) {
                least[c]
            } else {
                0
            }) <= bound + EPSILON_ALLOWANCE,
    ) by {
        let p = vars@;
        let list = p.classes[c];
        let total = least_sum(p.roots, least, p.roots.len());
        let own = if p.roots.contains(c) {
            least[c]
        } else {
            0
        };
        let stays = |i: int| list[i].cost + total - own <= bound + EPSILON_ALLOWANCE;
        lemma_floor(p, vars.size(), least, p.roots.len());
        if p.roots.contains(c) {
            lemma_least_is_cheapest(p, vars.size(), least, c);
        }
        assert(minus(bound, floor_of_roots(p, p.roots.len())) == bound - total);
        assert(ceiling(p, c, bound) == bound - total + own + EPSILON_ALLOWANCE);
        lemma_picks(list, cost_mask(list, ceiling(p, c, bound)), 0, stays);
    }
}

/// A node goes if another node of its class costs no more and needs nothing else, unless
/// the two do as well as each other and it comes first; the others stay, in order.
pub proof fn subsumed_nodes_are_dropped(config: &Config, c: ClassId)
    ensures
        forall|vars: &mut Vars| #[trigger]
            call_ensures(remove_more_expensive_subsumed_nodes, (vars, config), ()) ==> {
                let (p, q) = (vars@, final(vars)@);
                let list = p.classes[c];
                &&& !config.remove_more_expensive_subsumed_nodes ==> q == p
                &&& config.remove_more_expensive_subsumed_nodes ==> same_classes(p, q)
                &&& config.remove_more_expensive_subsumed_nodes && p.classes.contains_key(c)
                    ==> picks_out(
                    list,
                    q.classes[c],
                    |i: int|
                        forall|j: int|
                            #![trigger list[j]]
                            0 <= j < list.len() && j != i && list[j].cost <= list[i].cost && (forall|
                                d: ClassId,
                            | #[trigger]
                                list[j].kids.contains(d) ==> list[i].kids.contains(d)) ==> i < j
                                && list[j].cost == list[i].cost && (forall|d: ClassId| #[trigger]
                                list[i].kids.contains(d) ==> list[j].kids.contains(d)),
                )
            },
{
    assert forall|vars: &mut Vars| #[trigger]
        call_ensures(remove_more_expensive_subsumed_nodes, (vars, config), ())
            && config.remove_more_expensive_subsumed_nodes && vars@.classes.contains_key(
            c,
        ) implies picks_out(
        vars@.classes[c],
        final(vars)@.classes[c],
        |i: int|
            forall|j: int|
                #![trigger vars@.classes[c][j]]
                0 <= j < vars@.classes[c].len() && j != i && vars@.classes[c][j].cost
                    <= vars@.classes[c][i].cost && (forall|d: ClassId| #[trigger]
                    vars@.classes[c][j].kids.contains(d) ==> vars@.classes[c][i].kids.contains(d))
                    ==> i < j && vars@.classes[c][j].cost == vars@.classes[c][i].cost && (forall|
                    d: ClassId,
                | #[trigger]
                    vars@.classes[c][i].kids.contains(d) ==> vars@.classes[c][j].kids.contains(d)),
    ) by {
        let list = vars@.classes[c];
        let stays = |i: int|
            forall|j: int|
                #![trigger list[j]]
                0 <= j < list.len() && j != i && list[j].cost <= list[i].cost && (forall|
                    d: ClassId,
                | #[trigger]
                    list[j].kids.contains(d) ==> list[i].kids.contains(d)) ==> i < j && list[j].cost
                    == list[i].cost && (forall|d: ClassId| #[trigger]
                    list[i].kids.contains(d) ==> list[j].kids.contains(d));
        assert forall|i: int| 0 <= i < list.len() implies (#[trigger] stays(i) <==> unbeaten(
            list,
            i,
        )) by {
            if unbeaten(list, i) {
                assert forall|j: int|
                    #![trigger list[j]]
                    0 <= j < list.len() && j != i && list[j].cost <= list[i].cost && (forall|
                        d: ClassId,
                    | #[trigger]
                        list[j].kids.contains(d) ==> list[i].kids.contains(d)) implies i < j
                    && list[j].cost == list[i].cost && (forall|d: ClassId| #[trigger]
                    list[i].kids.contains(d) ==> list[j].kids.contains(d)) by {
                    assert(covers(list, j, i));
                    assert(!beats(list, j, i));
                    assert(covers(list, i, j));
                }
            }
            if stays(i) {
                assert forall|j: int| 0 <= j < list.len() implies !#[trigger] beats(
                    list,
                    j,
                    i,
                ) by {
                    if j != i && covers(list, j, i) {
                        assert(list[j].cost <= list[i].cost);
                        assert(covers(list, i, j));
                    }
                }
            }
        }
        lemma_picks(list, subsumed_mask(list), 0, stays);
    }
}

/// Every node that goes leaves one that costs no more and needs nothing else.
pub proof fn what_subsumes_stays(config: &Config, c: ClassId, i: int)
    ensures
        forall|vars: &mut Vars| #[trigger]
            call_ensures(remove_more_expensive_subsumed_nodes, (vars, config), ()) && vars.wf()
                && config.remove_more_expensive_subsumed_nodes && vars@.classes.contains_key(c) && 0
                <= i < vars@.classes[c].len() ==> exists|k: int|
                {
                    &&& 0 <= k < final(vars)@.classes[c].len()
                    &&& (#[trigger] final(vars)@.classes[c][k]).cost <= vars@.classes[c][i].cost
                    &&& forall|d: ClassId| #[trigger]
                        final(vars)@.classes[c][k].kids.contains(d)
                            ==> vars@.classes[c][i].kids.contains(d)
                },
{
    assert forall|vars: &mut Vars| #[trigger]
        call_ensures(remove_more_expensive_subsumed_nodes, (vars, config), ()) && vars.wf()
            && config.remove_more_expensive_subsumed_nodes && vars@.classes.contains_key(c) && 0 <= i
            < vars@.classes[c].len() implies exists|k: int|
        {
            &&& 0 <= k < final(vars)@.classes[c].len()
            &&& (#[trigger] final(vars)@.classes[c][k]).cost <= vars@.classes[c][i].cost
            &&& forall|d: ClassId| #[trigger]
                final(vars)@.classes[c][k].kids.contains(d) ==> vars@.classes[c][i].kids.contains(d)
        } by {
        let list = vars@.classes[c];
        let out = final(vars)@.classes[c];
        assert(sound_class(vars@, list));
        assert forall|k: int| 0 <= k < list.len() implies (#[trigger] list[k]).cost >= 0 by {
            assert(is_weight(list[k].cost));
        }
        let j = lemma_covered(list, i);
        let stays = |m: int| unbeaten(list, m);
        lemma_picks(list, subsumed_mask(list), 0, stays);
        let at = choose|at: Seq<int>| #[trigger] picked_at(list, out, at, stays);
        assert(stays(j));
        let k = choose|k: int| 0 <= k < at.len() && at[k] == j;
        assert(out[k] == list[j]);
    }
}

/// No node of class `c` needs a class without a node.
pub open spec fn needs_nothing_empty(q: Problem, c: ClassId) -> bool {
    forall|k: int, d: ClassId|
        0 <= k < q.classes[c].len() && #[trigger] q.classes[c][k].kids.contains(d)
            ==> q.classes[d].len() > 0
}

/// All that `o` needs is among `classes`.
pub open spec fn needs_only(o: Choice, classes: Set<ClassId>) -> bool {
    forall|d: ClassId| #[trigger] o.kids.contains(d) ==> classes.contains(d)
}

/// `out` has the nodes of `list` that need only `classes`, and others of it, in order.
pub open spec fn keeps_those(list: Seq<Choice>, out: Seq<Choice>, classes: Set<ClassId>) -> bool {
    exists|stays: spec_fn(int) -> bool|
        {
            &&& #[trigger] picks_out(list, out, stays)
            &&& forall|i: int| 0 <= i < list.len() && needs_only(list[i], classes) ==> #[trigger] stays(i)
        }
}

/// No node is left that needs a class without one; and a node stays if what it needs, and
/// so on, can be chosen from nodes that need nothing beyond it.
pub proof fn empty_classes_are_dropped(config: &Config, c: ClassId, classes: Set<ClassId>)
    ensures
        forall|vars: &mut Vars| #[trigger]
            call_ensures(remove_empty_classes, (vars, config), ()) ==> {
                let (p, q) = (vars@, final(vars)@);
                &&& !config.remove_empty_classes ==> q == p
                &&& config.remove_empty_classes ==> same_classes(p, q)
                &&& config.remove_empty_classes && vars.wf() && p.classes.contains_key(c)
                    ==> needs_nothing_empty(q, c)
                &&& config.remove_empty_classes && p.classes.contains_key(c) && holds_up(p, classes)
                    ==> keeps_those(p.classes[c], q.classes[c], classes)
            },
{
    assert forall|vars: &mut Vars| #[trigger]
        call_ensures(remove_empty_classes, (vars, config), ()) && config.remove_empty_classes
            && vars@.classes.contains_key(c) implies (vars.wf() ==> needs_nothing_empty(
        final(vars)@,
        c,
    )) && (holds_up(vars@, classes) ==> keeps_those(
        vars@.classes[c],
        final(vars)@.classes[c],
        classes,
    )) by {
        let p = vars@;
        let q = final(vars)@;
        assert(q == thinned(p, hope_masks(p)));
        if vars.wf() {
            lemma_hope_left(p, q, vars.size(), c);
        }
        if holds_up(p, classes) {
            lemma_hope_kept(p, q, c, classes);
        }
    }
}

proof fn lemma_hope_kept(p: Problem, q: Problem, c: ClassId, classes: Set<ClassId>)
    requires
        q == thinned(p, hope_masks(p)),
        p.classes.contains_key(c),
        holds_up(p, classes),
    ensures
        keeps_those(p.classes[c], q.classes[c], classes),
{
    let list = p.classes[c];
    let stays = |i: int| !needs_hopeless(p, list[i]);
    lemma_picks(list, hope_mask(p, list), 0, stays);
    lemma_held_up(p, classes);
    assert forall|i: int| 0 <= i < list.len() && needs_only(list[i], classes) implies #[trigger] stays(
        i,
    ) by {
        if needs_hopeless(p, list[i]) {
            let d = choose|d: ClassId| #[trigger] list[i].kids.contains(d) && hopeless(p, d);
            assert(classes.contains(d));
            assert(supported(p, classes));
        }
    }
    assert(picks_out(list, q.classes[c], stays));
}

proof fn lemma_hope_left(p: Problem, q: Problem, n: nat, c: ClassId)
    requires
        q == thinned(p, hope_masks(p)),
        sound(p, n),
        p.classes.contains_key(c),
    ensures
        needs_nothing_empty(q, c),
{
    let list = p.classes[c];
    let out = q.classes[c];
    let stays = |i: int| !needs_hopeless(p, list[i]);
    lemma_picks(list, hope_mask(p, list), 0, stays);
    let at = choose|at: Seq<int>| #[trigger] picked_at(list, out, at, stays);
    assert(sound_class(p, list));
    assert forall|k: int, d: ClassId|
        0 <= k < out.len() && #[trigger] out[k].kids.contains(d) implies q.classes[d].len() > 0 by {
        let i = at[k];
        assert(stays(i));
        assert(out[k] == list[i]);
        assert(list[i].kids.contains(d));
        assert(p.classes.contains_key(d));
        assert(!hopeless(p, d));
        let held = choose|held: Set<ClassId>| #[trigger] supported(p, held) && held.contains(d);
        let below = p.classes[d];
        assert(some_served(below, held));
        let m = choose|m: int| 0 <= m < below.len() && #[trigger] served(below[m], held);
        let good = |i: int| !needs_hopeless(p, below[i]);
        if needs_hopeless(p, below[m]) {
            let e = choose|e: ClassId| #[trigger] below[m].kids.contains(e) && hopeless(p, e);
            assert(held.contains(e));
        }
        assert(good(m));
        lemma_picks(below, hope_mask(p, below), 0, good);
        let ats = choose|ats: Seq<int>| #[trigger] picked_at(below, q.classes[d], ats, good);
        assert(ats.contains(m));
    }
}

/// Every one of `classes` is of the problem and has a node that needs only classes among
/// them.
pub open spec fn holds_up(p: Problem, classes: Set<ClassId>) -> bool {
    forall|c: ClassId| #[trigger]
        classes.contains(c) ==> p.classes.contains_key(c) && exists|i: int|
            0 <= i < p.classes[c].len() && forall|d: ClassId|
                (#[trigger] p.classes[c][i]).kids.contains(d) ==> classes.contains(d)
}

proof fn lemma_held_up(p: Problem, classes: Set<ClassId>)
    requires
        holds_up(p, classes),
    ensures
        supported(p, classes),
{
    assert forall|c: ClassId| #[trigger] classes.contains(c) implies p.classes.contains_key(c)
        && some_served(p.classes[c], classes) by {
        let list = p.classes[c];
        let i = choose|i: int|
            0 <= i < list.len() && forall|d: ClassId|
                (#[trigger] list[i]).kids.contains(d) ==> classes.contains(d);
        assert(served(list[i], classes));
    }
}

// ---------------------------------------------------------------------------
// Dropping classes
// ---------------------------------------------------------------------------

/// `classes` has the roots, and with a class every class that a node of it needs.
pub open spec fn goes_down(p: Problem, classes: Set<ClassId>) -> bool {
    &&& forall|r: ClassId| #[trigger] p.roots.contains(r) ==> classes.contains(r)
    &&& forall|c: ClassId, i: int, d: ClassId|
        classes.contains(c) && p.classes.contains_key(c) && 0 <= i < p.classes[c].len()
            && #[trigger] p.classes[c][i].kids.contains(d) ==> classes.contains(d)
}

/// A class stays, with its nodes, if and only if the roots lead down to it.
pub proof fn unreachable_classes_are_dropped(config: &Config, c: ClassId, classes: Set<ClassId>)
    ensures
        forall|vars: &mut Vars| #[trigger]
            call_ensures(remove_unreachable_classes, (vars, config), ()) ==> {
                let (p, q) = (vars@, final(vars)@);
                let on = config.remove_unreachable_classes;
                &&& !on ==> q == p
                &&& q.roots == p.roots
                &&& q.decided == p.decided
                &&& q.classes.contains_key(c) ==> p.classes.contains_key(c) && q.classes[c]
                    == p.classes[c]
                &&& on && vars.wf() ==> goes_down(q, q.classes.dom())
                &&& on && goes_down(p, classes) && q.classes.contains_key(c) ==> classes.contains(c)
            },
{
    assert forall|vars: &mut Vars| #[trigger]
        call_ensures(remove_unreachable_classes, (vars, config), ())
            && config.remove_unreachable_classes implies (vars.wf() ==> goes_down(
        final(vars)@,
        final(vars)@.classes.dom(),
    )) && (goes_down(vars@, classes) && final(vars)@.classes.contains_key(c) ==> classes.contains(
        c,
    )) by {
        let p = vars@;
        let q = final(vars)@;
        assert(q == reachable_part(p));
        if vars.wf() {
            lemma_reach_closed(p, q, vars.size());
        }
        if goes_down(p, classes) {
            assert forall|x: ClassId, d: ClassId|
                classes.contains(x) && p.classes.contains_key(x) && #[trigger] needs(
                    p.classes[x],
                    d,
                ) implies classes.contains(d) by {
                let i = choose|i: int|
                    0 <= i < p.classes[x].len() && (#[trigger] p.classes[x][i]).kids.contains(d);
                assert(p.classes[x][i].kids.contains(d));
            }
            assert(closed_below(p, classes));
        }
    }
}

proof fn lemma_reach_closed(p: Problem, q: Problem, n: nat)
    requires
        sound(p, n),
        q == reachable_part(p),
    ensures
        goes_down(q, q.classes.dom()),
{
    assert forall|r: ClassId| #[trigger] q.roots.contains(r) implies q.classes.dom().contains(r) by {
        assert(p.classes.contains_key(r));
        assert(reachable_from_roots(p, r));
    }
    assert forall|c: ClassId, i: int, d: ClassId|
        q.classes.dom().contains(c) && q.classes.contains_key(c) && 0 <= i < q.classes[c].len()
            && #[trigger] q.classes[c][i].kids.contains(d) implies q.classes.dom().contains(d) by {
        assert(q.classes[c] == p.classes[c]);
        assert(sound_class(p, p.classes[c]));
        assert(p.classes[c][i].kids.contains(d));
        assert(p.classes.contains_key(d));
        assert forall|s: Set<ClassId>| #[trigger] closed_below(p, s) implies s.contains(d) by {
            assert(s.contains(c));
            assert(needs(p.classes[c], d));
        }
    }
}

/// `classes` has the roots, and with a class that has nodes every class that they all
/// need.
pub open spec fn has_what_is_needed(p: Problem, classes: Set<ClassId>) -> bool {
    &&& forall|r: ClassId| #[trigger] p.roots.contains(r) ==> classes.contains(r)
    &&& forall|c: ClassId, d: ClassId|
        classes.contains(c) && p.classes.contains_key(c) && p.classes[c].len() > 0
            && #[trigger] shared_by(p.classes[c], d) ==> classes.contains(d)
}

/// Every one of the nodes needs class `d`.
pub open spec fn shared_by(list: Seq<Choice>, d: ClassId) -> bool {
    forall|i: int| 0 <= i < list.len() ==> (#[trigger] list[i]).kids.contains(d)
}

/// The roots stay, first and in order, and behind them come the classes that every node
/// of a root needs, and so on, each once; nothing else changes.
pub proof fn needed_classes_become_roots(config: &Config, c: ClassId, classes: Set<ClassId>)
    ensures
        forall|vars: &mut Vars| #[trigger]
            call_ensures(find_extra_roots, (vars, config), ()) ==> {
                let (p, q) = (vars@, final(vars)@);
                let on = config.find_extra_roots;
                &&& q.classes == p.classes
                &&& q.decided == p.decided
                &&& !on ==> q.roots == p.roots
                &&& on ==> p.roots.len() <= q.roots.len() && q.roots.take(p.roots.len() as int)
                    == p.roots && q.roots.no_duplicates()
                &&& on ==> has_what_is_needed(q, q.roots.to_set())
                &&& on && has_what_is_needed(p, classes) && q.roots.contains(c)
                    ==> classes.contains(c)
            },
{
    assert forall|vars: &mut Vars| #[trigger]
        call_ensures(find_extra_roots, (vars, config), ()) && config.find_extra_roots implies
        has_what_is_needed(final(vars)@, final(vars)@.roots.to_set()) && (has_what_is_needed(
        vars@,
        classes,
    ) && final(vars)@.roots.contains(c) ==> classes.contains(c)) by {
        let p = vars@;
        let q = final(vars)@;
        assert(roots_extended(p, q));
        lemma_roots_closed(p, q);
        if has_what_is_needed(p, classes) {
            assert forall|x: ClassId, d: ClassId|
                classes.contains(x) && p.classes.contains_key(x) && #[trigger] all_need(
                    p.classes[x],
                    d,
                ) implies classes.contains(d) by {
                assert(shared_by(p.classes[x], d));
            }
            assert(closed_by_need(p, classes));
        }
    }
}

proof fn lemma_roots_closed(p: Problem, q: Problem)
    requires
        roots_extended(p, q),
    ensures
        has_what_is_needed(q, q.roots.to_set()),
{
    let all = q.roots.to_set();
    assert forall|c: ClassId, d: ClassId|
        all.contains(c) && q.classes.contains_key(c) && q.classes[c].len() > 0
            && #[trigger] shared_by(q.classes[c], d) implies all.contains(d) by {
        assert(q.roots.contains(c));
        assert(always_needed(p, c));
        assert(all_need(p.classes[c], d));
        assert forall|s: Set<ClassId>| #[trigger] closed_by_need(p, s) implies s.contains(d) by {
            assert(s.contains(c));
        }
        assert(q.roots.contains(d));
    }
}

/// Class `c` is to be had for nothing: no root, and its only node costs nothing and needs
/// nothing.
pub open spec fn comes_free(p: Problem, c: ClassId) -> bool {
    p.classes.contains_key(c) && p.classes[c].len() == 1 && p.classes[c][0].cost == 0
        && p.classes[c][0].kids.len() == 0 && !p.roots.contains(c)
}

/// What comes free is decided, goes, and is no longer needed; the rest stays as it is.
pub proof fn free_classes_are_decided(config: &Config, c: ClassId, i: int)
    ensures
        forall|vars: &mut Vars| #[trigger]
            call_ensures(remove_single_zero_cost, (vars, config), ()) ==> {
                let (p, q) = (vars@, final(vars)@);
                let on = config.remove_single_zero_cost;
                let (a, b) = (p.classes[c][i], q.classes[c][i]);
                &&& !on ==> q == p
                &&& q.roots == p.roots
                &&& on ==> (q.classes.contains_key(c) <==> p.classes.contains_key(c)
                    && !comes_free(p, c))
                &&& on && comes_free(p, c) ==> q.decided.contains_key(c) && q.decided[c]
                    == p.classes[c][0].node
                &&& on && !comes_free(p, c) ==> (q.decided.contains_key(c)
                    <==> p.decided.contains_key(c)) && (p.decided.contains_key(c) ==> q.decided[c]
                    == p.decided[c])
                &&& on && q.classes.contains_key(c) ==> q.classes[c].len() == p.classes[c].len()
                &&& on && q.classes.contains_key(c) && 0 <= i < p.classes[c].len() ==> b.node
                    == a.node && b.cost == a.cost && b.variable == a.variable && picks_out(
                    a.kids,
                    b.kids,
                    |k: int| !comes_free(p, a.kids[k]),
                )
            },
{
    assert forall|vars: &mut Vars| #[trigger]
        call_ensures(remove_single_zero_cost, (vars, config), ())
            && config.remove_single_zero_cost && final(vars)@.classes.contains_key(c) && 0 <= i
            < vars@.classes[c].len() implies picks_out(
        vars@.classes[c][i].kids,
        final(vars)@.classes[c][i].kids,
        |k: int| !comes_free(vars@, vars@.classes[c][i].kids[k]),
    ) by {
        let p = vars@;
        let q = final(vars)@;
        let kids = p.classes[c][i].kids;
        assert(q == freed(p));
        assert(q.classes[c][i] == unlinked(p, p.classes[c][i]));
        lemma_unfree_picks(p, kids, kids.len(), |k: int| !comes_free(p, kids[k]));
        assert(kids.take(kids.len() as int) =~= kids);
    }
}

proof fn lemma_unfree_picks(
    p: Problem,
    kids: Seq<ClassId>,
    k: nat,
    stays: spec_fn(int) -> bool,
)
    requires
        k <= kids.len(),
        forall|m: int| 0 <= m < k ==> (#[trigger] stays(m) <==> !comes_free(p, kids[m])),
    ensures
        picks_out(kids.take(k as int), unfree(p, kids, k), stays),
    decreases k,
{
    let list = kids.take(k as int);
    let out = unfree(p, kids, k);
    if k == 0 {
        assert(picked_at(list, out, Seq::empty(), stays));
    } else {
        lemma_unfree_picks(p, kids, (k - 1) as nat, stays);
        let before = kids.take(k - 1);
        let less = unfree(p, kids, (k - 1) as nat);
        let at = choose|at: Seq<int>| #[trigger] picked_at(before, less, at, stays);
        assert(stays(k - 1) <==> !is_free(p, kids[k - 1]));
        let all = if is_free(p, kids[k - 1]) {
            at
        } else {
            at.push(k - 1)
        };
        assert forall|j: int| 0 <= j < all.len() implies 0 <= (#[trigger] all[j]) < list.len()
            && stays(all[j]) && out[j] == list[all[j]] by {
            if j < at.len() {
                assert(all[j] == at[j]);
                assert(out[j] == less[j]);
                assert(before[at[j]] == list[at[j]]);
            }
        }
        assert forall|m: int| 0 <= m < list.len() && #[trigger] stays(m) implies all.contains(m) by {
            if m < k - 1 {
                assert(at.contains(m));
                let j = choose|j: int| 0 <= j < at.len() && at[j] == m;
                assert(all[j] == m);
            } else {
                assert(all[at.len() as int] == m);
            }
        }
        assert forall|a: int, b: int| 0 <= a < b < all.len() implies all[a] < all[b] by {
            assert(all[a] == at[a]);
            if b < at.len() {
                assert(all[b] == at[b]);
            }
        }
        assert(picked_at(list, out, all, stays));
    }
}

// ---------------------------------------------------------------------------
// Moving needs and costs
// ---------------------------------------------------------------------------

/// Class `c` has a node that needs class `d`.
pub open spec fn leads_to(p: Problem, c: ClassId, d: ClassId) -> bool {
    p.classes.contains_key(c) && exists|i: int|
        0 <= i < p.classes[c].len() && (#[trigger] p.classes[c][i]).kids.contains(d)
}

/// The pairs of a class and the only class that needs it.
pub open spec fn are_single_parents(p: Problem, pairs: Seq<(ClassId, ClassId)>) -> bool {
    &&& forall|k: int|
        0 <= k < pairs.len() ==> leads_to(p, (#[trigger] pairs[k]).1, pairs[k].0) && forall|
            x: ClassId,
        | #[trigger] leads_to(p, x, pairs[k].0) ==> x == pairs[k].1
    &&& forall|c: ClassId, d: ClassId| #[trigger]
        leads_to(p, c, d) && (forall|x: ClassId| #[trigger] leads_to(p, x, d) ==> x == c)
            ==> pairs.contains((d, c))
    &&& forall|i: int, j: int|
        0 <= i < j < pairs.len() ==> (#[trigger] pairs[i]).0 != (#[trigger] pairs[j]).0
}

proof fn lemma_leads(p: Problem, c: ClassId, d: ClassId)
    ensures
        leads_to(p, c, d) <==> p.classes.contains_key(c) && needs(p.classes[c], d),
{
    if leads_to(p, c, d) {
        let i = choose|i: int|
            0 <= i < p.classes[c].len() && (#[trigger] p.classes[c][i]).kids.contains(d);
        assert(p.classes[c][i].kids.contains(d));
    }
}

proof fn lemma_sole_is_only(p: Problem, d: ClassId, c: ClassId)
    ensures
        sole_parent(p, d, c) <==> leads_to(p, c, d) && forall|x: ClassId| #[trigger]
            leads_to(p, x, d) ==> x == c,
{
    lemma_leads(p, c, d);
    if sole_parent(p, d, c) {
        assert forall|x: ClassId| #[trigger] leads_to(p, x, d) implies x == c by {
            lemma_leads(p, x, d);
        }
    }
    if leads_to(p, c, d) && forall|x: ClassId| #[trigger] leads_to(p, x, d) ==> x == c {
        assert forall|x: ClassId| #[trigger]
            p.classes.contains_key(x) && needs(p.classes[x], d) implies x == c by {
            lemma_leads(p, x, d);
        }
    }
}

proof fn lemma_noted_kids(order: Seq<ClassId>, kids: Seq<ClassId>, k: nat)
    requires
        k <= kids.len(),
    ensures
        order.no_duplicates() ==> note_kids(order, kids, k).no_duplicates(),
        order.len() <= note_kids(order, kids, k).len(),
        note_kids(order, kids, k).take(order.len() as int) == order,
        forall|d: ClassId| #[trigger]
            note_kids(order, kids, k).contains(d) <==> order.contains(d) || kids.take(
                k as int,
            ).contains(d),
    decreases k,
{
    let out = note_kids(order, kids, k);
    if k == 0 {
        assert(out.take(order.len() as int) =~= order);
        assert(kids.take(0) =~= Seq::empty());
    } else {
        lemma_noted_kids(order, kids, (k - 1) as nat);
        let before = note_kids(order, kids, (k - 1) as nat);
        let x = kids[k - 1];
        assert(kids.take(k as int) =~= kids.take(k - 1).push(x));
        assert(out == noted(before, x));
        assert forall|d: ClassId| #[trigger] out.contains(d) <==> order.contains(d) || kids.take(
            k as int,
        ).contains(d) by {
            lemma_in_push(kids.take(k - 1), x, d);
            lemma_in_push(before, x, d);
        }
        if order.no_duplicates() && !before.contains(x) {
            assert forall|i: int, j: int| 0 <= i < j < out.len() implies out[i] != out[j] by {
                assert(out[i] == before[i]);
                if j == before.len() {
                    assert(before.contains(before[i]));
                }
            }
        }
        assert(out.take(order.len() as int) =~= before.take(order.len() as int));
    }
}

proof fn lemma_in_push<T>(s: Seq<T>, x: T, d: T)
    ensures
        s.push(x).contains(d) <==> s.contains(d) || d == x,
{
    let out = s.push(x);
    if s.contains(d) {
        let i = choose|i: int| 0 <= i < s.len() && s[i] == d;
        assert(out[i] == d);
    }
    if d == x {
        assert(out[s.len() as int] == d);
    }
    if out.contains(d) {
        let i = choose|i: int| 0 <= i < out.len() && out[i] == d;
        if i < s.len() {
            assert(s[i] == d);
        }
    }
}

proof fn lemma_noted_list(order: Seq<ClassId>, list: Seq<Choice>, i: nat)
    requires
        i <= list.len(),
    ensures
        order.no_duplicates() ==> note_list(order, list, i).no_duplicates(),
        forall|d: ClassId| #[trigger]
            note_list(order, list, i).contains(d) <==> order.contains(d) || needs(
                list.take(i as int),
                d,
            ),
    decreases i,
{
    if i > 0 {
        lemma_noted_list(order, list, (i - 1) as nat);
        let before = note_list(order, list, (i - 1) as nat);
        let kids = list[i - 1].kids;
        lemma_noted_kids(before, kids, kids.len());
        assert(kids.take(kids.len() as int) =~= kids);
        let now = list.take(i as int);
        let less = list.take(i - 1);
        assert forall|d: ClassId| #[trigger] note_list(order, list, i).contains(d)
            <==> order.contains(d) || needs(now, d) by {
            if needs(less, d) {
                let k = choose|k: int| 0 <= k < less.len() && (#[trigger] less[k]).kids.contains(d);
                assert(now[k].kids.contains(d));
            }
            if kids.contains(d) {
                assert(now[i - 1].kids.contains(d));
            }
            if needs(now, d) {
                let k = choose|k: int| 0 <= k < now.len() && (#[trigger] now[k]).kids.contains(d);
                if k < i - 1 {
                    assert(less[k].kids.contains(d));
                }
            }
        }
    }
}

proof fn lemma_order(p: Problem, c: nat)
    requires
        c <= usize::MAX,
    ensures
        kid_order(p, c).no_duplicates(),
        forall|d: ClassId| #[trigger]
            kid_order(p, c).contains(d) <==> exists|x: ClassId| x < c && #[trigger] leads_to(p, x, d),
    decreases c,
{
    if c > 0 {
        lemma_order(p, (c - 1) as nat);
        let last = (c - 1) as ClassId;
        let list = p.classes[last];
        let before = kid_order(p, (c - 1) as nat);
        if p.classes.contains_key(last) {
            lemma_noted_list(before, list, list.len());
            assert(list.take(list.len() as int) =~= list);
        }
        assert forall|d: ClassId| #[trigger] kid_order(p, c).contains(d) <==> exists|x: ClassId|
            x < c && #[trigger] leads_to(p, x, d) by {
            lemma_leads(p, last, d);
            if exists|x: ClassId| x < c && #[trigger] leads_to(p, x, d) {
                let x = choose|x: ClassId| x < c && #[trigger] leads_to(p, x, d);
                if x != last {
                    assert(x < c - 1 && leads_to(p, x, d));
                    assert(before.contains(d));
                }
            }
            if before.contains(d) {
                let x = choose|x: ClassId| x < c - 1 && #[trigger] leads_to(p, x, d);
                assert(x < c && leads_to(p, x, d));
            }
            if p.classes.contains_key(last) && needs(list, d) {
                assert(last < c && leads_to(p, last, d));
            }
        }
    }
}

proof fn lemma_paired(p: Problem, order: Seq<ClassId>, k: nat)
    requires
        k <= order.len(),
        order.no_duplicates(),
    ensures
        forall|d: ClassId, c: ClassId| #[trigger]
            pairs_in(p, order, k).contains((d, c)) <==> order.take(k as int).contains(d)
                && sole_parent(p, d, c),
        forall|i: int, j: int|
            0 <= i < j < pairs_in(p, order, k).len() ==> (#[trigger] pairs_in(p, order, k)[i]).0 != (
            #[trigger] pairs_in(p, order, k)[j]).0,
    decreases k,
{
    let out = pairs_in(p, order, k);
    if k > 0 {
        lemma_paired(p, order, (k - 1) as nat);
        let before = pairs_in(p, order, (k - 1) as nat);
        let x = order[k - 1];
        let less = order.take(k - 1);
        assert(order.take(k as int) =~= less.push(x));
        assert(!less.contains(x)) by {
            if less.contains(x) {
                let i = choose|i: int| 0 <= i < less.len() && less[i] == x;
                assert(order[i] == x);
            }
        }
        if has_sole_parent(p, x) {
            assert(sole_parent(p, x, parent_of(p, x)));
            assert forall|i: int, j: int| 0 <= i < j < out.len() implies (#[trigger] out[i]).0 != (
            #[trigger] out[j]).0 by {
                assert(out[i] == before[i]);
                if j == before.len() {
                    assert(before.contains((before[i].0, before[i].1)));
                } else {
                    assert(out[j] == before[j]);
                }
            }
        }
        assert forall|d: ClassId, c: ClassId| #[trigger] out.contains((d, c)) <==> order.take(
            k as int,
        ).contains(d) && sole_parent(p, d, c) by {
            lemma_in_push(less, x, d);
            if has_sole_parent(p, x) {
                lemma_in_push(before, (x, parent_of(p, x)), (d, c));
                if d == x && sole_parent(p, d, c) {
                    assert(c == parent_of(p, x));
                }
            } else if d == x {
                assert(!sole_parent(p, d, c));
            }
        }
    }
}

/// The single parents are the classes that are the only one to need another, each with
/// that.
proof fn lemma_single_parents_are(p: Problem, n: nat)
    requires
        n <= usize::MAX,
        forall|c: ClassId| #[trigger] p.classes.contains_key(c) ==> c < n,
    ensures
        are_single_parents(p, single_parents(p, n)),
{
    let order = kid_order(p, n);
    let pairs = single_parents(p, n);
    lemma_order(p, n);
    lemma_paired(p, order, order.len());
    assert(order.take(order.len() as int) =~= order);
    assert forall|k: int| 0 <= k < pairs.len() implies leads_to(
        p,
        (#[trigger] pairs[k]).1,
        pairs[k].0,
    ) && forall|x: ClassId| #[trigger] leads_to(p, x, pairs[k].0) ==> x == pairs[k].1 by {
        assert(pairs.contains((pairs[k].0, pairs[k].1)));
        lemma_sole_is_only(p, pairs[k].0, pairs[k].1);
    }
    assert forall|c: ClassId, d: ClassId| #[trigger]
        leads_to(p, c, d) && (forall|x: ClassId| #[trigger] leads_to(p, x, d) ==> x == c) implies
        pairs.contains((d, c)) by {
        lemma_sole_is_only(p, d, c);
        assert(c < n && leads_to(p, c, d));
    }
}

/// All but the nodes of the two classes is the same.
pub open spec fn same_besides(p: Problem, q: Problem, child: ClassId, parent: ClassId) -> bool {
    &&& same_classes(p, q)
    &&& forall|c: ClassId| #[trigger]
        p.classes.contains_key(c) && c != child && c != parent ==> q.classes[c] == p.classes[c]
    &&& q.classes[child].len() == p.classes[child].len()
    &&& q.classes[parent].len() == p.classes[parent].len()
}

/// Class `child` is no root and costs `amount` at least, which is something and leaves
/// finite what it is put on.
pub open spec fn is_movable(p: Problem, child: ClassId, parent: ClassId, amount: Cost) -> bool {
    let below = p.classes[child];
    let above = p.classes[parent];
    &&& child != parent
    &&& p.classes.contains_key(child)
    &&& p.classes.contains_key(parent)
    &&& !p.roots.contains(child)
    &&& amount != 0
    &&& exists|i: int| 0 <= i < below.len() && (#[trigger] below[i]).cost == amount
    &&& forall|i: int| 0 <= i < below.len() ==> amount <= (#[trigger] below[i]).cost
    &&& forall|i: int|
        0 <= i < above.len() && (#[trigger] above[i]).kids.contains(child) ==> above[i].cost + amount
            < INFINITY
}

/// Every node of `child` costs `amount` less, and every node of `parent` that needs it
/// that much more.
pub open spec fn is_moved(
    p: Problem,
    q: Problem,
    child: ClassId,
    parent: ClassId,
    amount: Cost,
) -> bool {
    &&& same_besides(p, q, child, parent)
    &&& forall|i: int|
        0 <= i < p.classes[child].len() ==> #[trigger] q.classes[child][i] == (Choice {
            cost: (p.classes[child][i].cost - amount) as Cost,
            ..p.classes[child][i]
        })
    &&& forall|i: int|
        0 <= i < p.classes[parent].len() ==> #[trigger] q.classes[parent][i] == (if p.classes[parent][i].kids.contains(
            child,
        ) {
            Choice {
                cost: (p.classes[parent][i].cost + amount) as Cost,
                ..p.classes[parent][i]
            }
        } else {
            p.classes[parent][i]
        })
}

/// The least that `child` costs is moved to the nodes of `parent` that need it, if it can
/// be; else nothing changes.
pub open spec fn moves_least(p: Problem, q: Problem, child: ClassId, parent: ClassId) -> bool {
    &&& forall|amount: Cost| #[trigger]
        is_movable(p, child, parent, amount) ==> is_moved(p, q, child, parent, amount)
    &&& (forall|amount: Cost| !#[trigger] is_movable(p, child, parent, amount)) ==> q == p
}

/// Costs are moved for the pairs, one after another.
pub open spec fn moves_each(p: Problem, q: Problem, pairs: Seq<(ClassId, ClassId)>) -> bool {
    exists|steps: Seq<Problem>|
        {
            &&& steps.len() == pairs.len() + 1
            &&& #[trigger] steps[0] == p
            &&& steps.last() == q
            &&& forall|k: int|
                0 <= k < pairs.len() ==> moves_least(
                    steps[k],
                    steps[k + 1],
                    (#[trigger] pairs[k]).0,
                    pairs[k].1,
                )
        }
}

/// Costs are moved for all pairs, `t` times.
pub open spec fn moves_in_rounds(
    p: Problem,
    q: Problem,
    pairs: Seq<(ClassId, ClassId)>,
    t: nat,
) -> bool {
    exists|rounds: Seq<Problem>|
        {
            &&& rounds.len() == t + 1
            &&& #[trigger] rounds[0] == p
            &&& rounds.last() == q
            &&& forall|k: int| 0 <= k < t ==> moves_each(#[trigger] rounds[k], rounds[k + 1], pairs)
        }
}

proof fn lemma_least_known(list: Seq<Choice>, k: nat)
    requires
        k <= list.len(),
    ensures
        forall|i: int| 0 <= i < k ==> cheapest(list, k) <= (#[trigger] list[i]).cost,
        cheapest(list, k) == INFINITY || exists|i: int|
            0 <= i < k && (#[trigger] list[i]).cost == cheapest(list, k),
    decreases k,
{
    if k > 0 {
        lemma_least_known(list, (k - 1) as nat);
        let less = cheapest(list, (k - 1) as nat);
        if list[k - 1].cost >= less && less != INFINITY {
            let i = choose|i: int| 0 <= i < k - 1 && (#[trigger] list[i]).cost == less;
            assert(list[i].cost == cheapest(list, k));
        }
    }
}

proof fn lemma_moves(p: Problem, child: ClassId, parent: ClassId)
    ensures
        moves_least(p, lifted(p, child, parent), child, parent),
{
    let q = lifted(p, child, parent);
    let below = p.classes[child];
    lemma_least_known(below, below.len());
    assert forall|amount: Cost| #[trigger] is_movable(p, child, parent, amount) implies is_moved(
        p,
        q,
        child,
        parent,
        amount,
    ) by {
        let i = choose|i: int| 0 <= i < below.len() && (#[trigger] below[i]).cost == amount;
        assert(least(p, child) == amount);
        assert(fits(p.classes[parent], child, amount));
        assert(can_lift(p, child, parent));
        assert(q.classes[child] == lowered(below, amount));
        assert(q.classes[parent] == raised(p.classes[parent], child, amount));
    }
    if can_lift(p, child, parent) {
        let amount = least(p, child);
        if amount == INFINITY {
            assert(below[0].cost >= amount);
            assert(below[0].cost == amount);
        }
        assert(fits(p.classes[parent], child, amount));
        assert(is_movable(p, child, parent, amount));
    }
}

proof fn lemma_moves_each(p: Problem, pairs: Seq<(ClassId, ClassId)>)
    ensures
        moves_each(p, lifted_all(p, pairs, pairs.len()), pairs),
{
    let steps = Seq::new(pairs.len() + 1, |k: int| lifted_all(p, pairs, k as nat));
    assert forall|k: int| 0 <= k < pairs.len() implies moves_least(
        steps[k],
        steps[k + 1],
        (#[trigger] pairs[k]).0,
        pairs[k].1,
    ) by {
        lemma_moves(steps[k], pairs[k].0, pairs[k].1);
    }
    assert(steps[0] == p);
}

/// Costs are moved from the classes that only one class needs to that.
pub open spec fn moves_to_parents(p: Problem, q: Problem) -> bool {
    exists|pairs: Seq<(ClassId, ClassId)>| #[trigger]
        are_single_parents(p, pairs) && moves_in_rounds(p, q, pairs, 10)
}

/// For each class that only one class needs, the least that it costs is moved to the nodes
/// of that class, time and again.
pub proof fn costs_move_to_single_parents(config: &Config)
    ensures
        forall|vars: &mut Vars| #[trigger]
            call_ensures(pull_up_costs, (vars, config), ()) ==> {
                let (p, q) = (vars@, final(vars)@);
                &&& !config.pull_up_costs ==> q == p
                &&& config.pull_up_costs && vars.wf() ==> moves_to_parents(p, q)
            },
{
    assert forall|vars: &mut Vars| #[trigger]
        call_ensures(pull_up_costs, (vars, config), ()) && config.pull_up_costs
            && vars.wf() implies moves_to_parents(vars@, final(vars)@) by {
        let p = vars@;
        let q = final(vars)@;
        let pairs = single_parents(p, vars.size());
        assert(vars.classes.len() == vars.size());
        lemma_single_parents_are(p, vars.size());
        let rounds = Seq::new(11, |k: int| lift_rounds(p, pairs, k as nat));
        assert forall|k: int| 0 <= k < 10 implies moves_each(
            #[trigger] rounds[k],
            rounds[k + 1],
            pairs,
        ) by {
            lemma_moves_each(rounds[k], pairs);
        }
        assert(rounds[0] == p);
        assert(rounds.last() == q);
        assert(moves_in_rounds(p, q, pairs, 10));
    }
}

/// Node `i` of `parent` alone needs `child`, which is no root and has one node, and that
/// needs something.
pub open spec fn is_pullable(p: Problem, child: ClassId, parent: ClassId, i: int) -> bool {
    let below = p.classes[child];
    let above = p.classes[parent];
    &&& child != parent
    &&& p.classes.contains_key(child)
    &&& p.classes.contains_key(parent)
    &&& !p.roots.contains(child)
    &&& below.len() == 1
    &&& below[0].kids.len() > 0
    &&& 0 <= i < above.len()
    &&& above[i].kids.contains(child)
    &&& forall|j: int| 0 <= j < above.len() && j != i ==> !(#[trigger] above[j]).kids.contains(child)
}

/// What the node of `child` needs, node `i` of `parent` needs in its place, behind what
/// it needed before.
pub open spec fn is_pulled(
    p: Problem,
    q: Problem,
    child: ClassId,
    parent: ClassId,
    i: int,
) -> bool {
    let below = p.classes[child];
    let above = p.classes[parent];
    let joined = q.classes[parent][i];
    &&& same_besides(p, q, child, parent)
    &&& q.classes[child][0] == (Choice { kids: Seq::empty(), ..below[0] })
    &&& forall|j: int| 0 <= j < above.len() && j != i ==> #[trigger] q.classes[parent][j] == above[j]
    &&& joined == (Choice { kids: joined.kids, ..above[i] })
    &&& above[i].kids.len() <= joined.kids.len()
    &&& joined.kids.take(above[i].kids.len() as int) == above[i].kids
    &&& above[i].kids.no_duplicates() ==> joined.kids.no_duplicates()
    &&& forall|d: ClassId| #[trigger]
        joined.kids.contains(d) <==> above[i].kids.contains(d) || below[0].kids.contains(d)
}

/// What `child` needs is moved to the only node of `parent` that needs it, if there is one
/// such; else nothing changes.
pub open spec fn pulls_up(p: Problem, q: Problem, child: ClassId, parent: ClassId) -> bool {
    &&& forall|i: int| #[trigger]
        is_pullable(p, child, parent, i) ==> is_pulled(p, q, child, parent, i)
    &&& (forall|i: int| !#[trigger] is_pullable(p, child, parent, i)) ==> q == p
}

/// Needs are moved for every class that only one class needs, one after another.
pub open spec fn pulls_each(p: Problem, q: Problem) -> bool {
    exists|pairs: Seq<(ClassId, ClassId)>, steps: Seq<Problem>|
        {
            &&& #[trigger] are_single_parents(p, pairs)
            &&& steps.len() == pairs.len() + 1
            &&& #[trigger] steps[0] == p
            &&& steps.last() == q
            &&& forall|k: int|
                0 <= k < pairs.len() ==> pulls_up(
                    steps[k],
                    steps[k + 1],
                    (#[trigger] pairs[k]).0,
                    pairs[k].1,
                )
        }
}

proof fn lemma_pulls(p: Problem, child: ClassId, parent: ClassId)
    ensures
        pulls_up(p, pulled(p, child, parent), child, parent),
        same_classes(p, pulled(p, child, parent)),
{
    let q = pulled(p, child, parent);
    let below = p.classes[child];
    let above = p.classes[parent];
    assert forall|i: int| #[trigger] is_pullable(p, child, parent, i) implies is_pulled(
        p,
        q,
        child,
        parent,
        i,
    ) by {
        assert(only_at(above, child, i));
        assert(place_of_need(above, child) == i);
        assert(can_pull(p, child, parent));
        lemma_noted_kids(above[i].kids, below[0].kids, below[0].kids.len());
        assert(below[0].kids.take(below[0].kids.len() as int) =~= below[0].kids);
    }
    if can_pull(p, child, parent) {
        let i = place_of_need(above, child);
        assert(only_at(above, child, i));
        assert(is_pullable(p, child, parent, i));
    }
}

proof fn lemma_pulled_classes(p: Problem, pairs: Seq<(ClassId, ClassId)>, k: nat)
    requires
        k <= pairs.len(),
    ensures
        same_classes(p, pulled_all(p, pairs, k)),
    decreases k,
{
    if k > 0 {
        lemma_pulled_classes(p, pairs, (k - 1) as nat);
        lemma_pulls(pulled_all(p, pairs, (k - 1) as nat), pairs[k - 1].0, pairs[k - 1].1);
    }
}

proof fn lemma_pulls_each(p: Problem, n: nat)
    requires
        n <= usize::MAX,
        forall|c: ClassId| #[trigger] p.classes.contains_key(c) ==> c < n,
    ensures
        pulls_each(p, pull_round(p, n)),
        same_classes(p, pull_round(p, n)),
{
    let pairs = single_parents(p, n);
    lemma_single_parents_are(p, n);
    lemma_pulled_classes(p, pairs, pairs.len());
    let steps = Seq::new(pairs.len() + 1, |k: int| pulled_all(p, pairs, k as nat));
    assert forall|k: int| 0 <= k < pairs.len() implies pulls_up(
        steps[k],
        steps[k + 1],
        (#[trigger] pairs[k]).0,
        pairs[k].1,
    ) by {
        lemma_pulls(steps[k], pairs[k].0, pairs[k].1);
    }
    assert(steps[0] == p);
}

proof fn lemma_pull_rounds_classes(p: Problem, n: nat, t: nat)
    requires
        n <= usize::MAX,
        forall|c: ClassId| #[trigger] p.classes.contains_key(c) ==> c < n,
    ensures
        same_classes(p, pull_rounds(p, n, t)),
    decreases t,
{
    if t > 0 {
        lemma_pull_rounds_classes(p, n, (t - 1) as nat);
        lemma_pulls_each(pull_rounds(p, n, (t - 1) as nat), n);
    }
}

/// `q` comes of `p` by moving needs, `t` times.
pub open spec fn pulls_in_rounds(p: Problem, q: Problem, t: nat) -> bool {
    exists|rounds: Seq<Problem>|
        {
            &&& rounds.len() == t + 1
            &&& #[trigger] rounds[0] == p
            &&& rounds.last() == q
            &&& forall|k: int| 0 <= k < t ==> pulls_each(#[trigger] rounds[k], rounds[k + 1])
        }
}

/// For each class that only one class needs, what it needs is moved to the node that
/// needs it, time and again.
pub proof fn needs_move_to_single_parents(config: &Config)
    ensures
        forall|vars: &mut Vars| #[trigger]
            call_ensures(pull_up_with_single_parent, (vars, config), ()) ==> {
                let (p, q) = (vars@, final(vars)@);
                &&& !config.pull_up_single_parent ==> q == p
                &&& config.pull_up_single_parent && vars.wf() ==> pulls_in_rounds(p, q, 10)
            },
{
    assert forall|vars: &mut Vars| #[trigger]
        call_ensures(pull_up_with_single_parent, (vars, config), ())
            && config.pull_up_single_parent && vars.wf() implies pulls_in_rounds(
        vars@,
        final(vars)@,
        10,
    ) by {
        let p = vars@;
        let q = final(vars)@;
        let n = vars.size();
        assert(vars.classes.len() == n);
        let rounds = Seq::new(11, |k: int| pull_rounds(p, n, k as nat));
        assert forall|k: int| 0 <= k < 10 implies pulls_each(#[trigger] rounds[k], rounds[k + 1]) by {
            lemma_pull_rounds_classes(p, n, k as nat);
            lemma_pulls_each(rounds[k], n);
        }
        assert(rounds[0] == p);
        assert(rounds.last() == q);
    }
}

// ---------------------------------------------------------------------------
// The whole
// ---------------------------------------------------------------------------

/// The problem of an e-graph: the roots, in order and each once, and for every class its
/// nodes of finite cost, in order, each at its cost and with the classes of its children,
/// each once.
pub proof fn problems_are_those_of_the_egraph(
    g: EGraph,
    roots: Seq<ClassId>,
    sorted: Seq<ClassId>,
    c: ClassId,
    i: int,
    d: ClassId,
)
    requires
        sorts(roots, sorted),
        c < g.classes@.len(),
    ensures
        ({
            let p = start_problem(g, sorted);
            let list = p.classes[c];
            let nodes = g.classes@[c as int].nodes@;
            let children = g.nodes@[list[i].node as int].children@;
            &&& p.roots == sorted
            &&& p.decided == Map::<ClassId, NodeId>::empty()
            &&& forall|x: ClassId| #[trigger] sorted.contains(x) <==> roots.contains(x)
            &&& forall|a: int, b: int| 0 <= a < b < sorted.len() ==> sorted[a] < sorted[b]
            &&& p.classes.contains_key(c)
            &&& picks_out(
                nodes,
                Seq::new(list.len(), |k: int| list[k].node),
                |k: int| g.nodes@[nodes[k] as int].cost < INFINITY,
            )
            &&& 0 <= i < list.len() ==> {
                &&& list[i].cost == g.nodes@[list[i].node as int].cost
                &&& list[i].kids.no_duplicates()
                &&& list[i].kids.contains(d) <==> exists|j: int|
                    0 <= j < children.len() && #[trigger] g.child_class(list[i].node, j) == d
            }
        }),
{
    let list = start_list(g, c);
    let nodes = g.classes@[c as int].nodes@;
    let at = finite_places(g, c, nodes.len());
    let out = Seq::new(list.len(), |k: int| list[k].node);
    let stays = |k: int| g.nodes@[nodes[k] as int].cost < INFINITY;
    lemma_finite_places(g, c, nodes.len());
    assert forall|j: int| 0 <= j < at.len() implies 0 <= (#[trigger] at[j]) < nodes.len() && stays(
        at[j],
    ) && out[j] == nodes[at[j]] by {
        assert(list[j] == start_choice(g, c, at[j]));
    }
    assert forall|k: int| 0 <= k < nodes.len() && #[trigger] stays(k) implies at.contains(k) by {}
    assert(picked_at(nodes, out, at, stays));
    if 0 <= i < list.len() {
        let n = list[i].node;
        assert(list[i] == start_choice(g, c, at[i]));
        lemma_kids_of(g, n, g.nodes@[n as int].children@.len(), d);
    }
}

/// `q` if it is asked for, else `p`.
pub open spec fn either(asked: bool, p: Problem, q: Problem) -> Problem {
    if asked {
        q
    } else {
        p
    }
}

/// The passes in turn: loops, high costs, subsumed nodes, unreachable classes, needs, costs
/// and free classes, as far as each is asked for.
pub open spec fn passes(p: Problem, n: nat, bound: Cost, config: Config) -> Problem {
    let a = either(config.remove_self_loops, p, thinned(p, loop_masks(p)));
    let b = either(config.remove_high_cost_nodes, a, thinned(a, cost_masks(a, bound)));
    let c = either(
        config.remove_more_expensive_subsumed_nodes,
        b,
        thinned(b, subsumed_masks(b)),
    );
    let d = either(config.remove_unreachable_classes, c, reachable_part(c));
    let e = either(config.pull_up_single_parent, d, pull_rounds(d, n, 10));
    let f = either(config.pull_up_costs, e, lift_rounds(e, single_parents(e, n), 10));
    either(config.remove_single_zero_cost, f, freed(f))
}

/// `q` is what the passes make of `p`: those above, then new roots, which `mid` has, and
/// then empty classes.
pub open spec fn is_one_round(
    p: Problem,
    mid: Problem,
    q: Problem,
    n: nat,
    bound: Cost,
    config: Config,
) -> bool {
    let h = passes(p, n, bound, config);
    &&& config.find_extra_roots ==> roots_extended(h, mid)
    &&& !config.find_extra_roots ==> mid == h
    &&& q == either(config.remove_empty_classes, mid, thinned(mid, hope_masks(mid)))
}

/// A problem is simplified by all passes that are asked for, and then once more by all of
/// them. What is left can be solved exactly if every root of it has a node.
pub proof fn problems_are_simplified_twice(
    g: EGraph,
    roots: &[ClassId],
    config: Config,
    bound: Cost,
    r: (Vars, Staged, bool),
) -> (steps: (Seq<ClassId>, Problem, Problem, Problem))
    requires
        call_ensures(stage, (&g, roots, &config, bound), r),
    ensures
        sorts(roots@, steps.0),
        is_one_round(
            start_problem(g, steps.0),
            steps.1,
            steps.2,
            g.classes@.len(),
            bound,
            config,
        ),
        is_one_round(steps.2, steps.3, r.0@, g.classes@.len(), bound, config),
        r.2 <==> forall|x: ClassId| #[trigger] r.0@.roots.contains(x) ==> r.0@.classes[x].len() > 0,
{
    let n = g.classes@.len();
    let sorted = choose|sorted: Seq<ClassId>|
        is_reduction(g, roots@, sorted, config, bound, r.0);
    let p = start_problem(g, sorted);
    let q = choose|q: Problem| #[trigger]
        round_of(p, q, n, bound, config) && round_of(q, r.0@, n, bound, config);
    let a = choose|a: Problem| round_by(p, a, q, n, bound, config);
    let b = choose|b: Problem| round_by(q, b, r.0@, n, bound, config);
    assert(passes(p, n, bound, config) == condensed(pruned(p, bound, config), n, config));
    assert(passes(q, n, bound, config) == condensed(pruned(q, bound, config), n, config));
    assert(sound(r.0@, r.0.size()));
    if r.2 {
        assert forall|x: ClassId| #[trigger] r.0@.roots.contains(x) implies r.0@.classes[x].len()
            > 0 by {
            assert(r.0@.classes.contains_key(x));
            assert(!is_closed(r.0@, x));
        }
    }
    (sorted, a, q, b)
}

} // verus!
