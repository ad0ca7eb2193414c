//! Classes that cannot be needed, and classes that always are.
use crate::collections::{
    id_set, id_set_contains, id_set_get_index, id_set_insert, id_set_len, id_set_new,
};
use crate::egraph::{ClassId, NodeId};
use crate::extract::faster_ilp_cbc::problem::{
    attains, choice_of, choices_in, class_price, drawn_from, holds_solution, lemma_offered,
    lemma_price_below, lemma_simplifies_itself, listed, offers, price, simplifies, solves,
    solves_with, sound, sound_class, Choice, NodeIlp, Problem, Vars,
};
use crate::extract::faster_ilp_cbc::prune::{has_id, lemma_part};
use crate::extract::faster_ilp_cbc::Config;
use crate::extract::ids_to_vec;
use crate::extract::measure::lemma_below_finite;
use indexmap::IndexSet;
use vstd::prelude::*;

verus! {

/// Some choice for a class needs class `d`.
pub open spec fn needs(list: Seq<Choice>, d: ClassId) -> bool {
    exists|i: int| 0 <= i < list.len() && (#[trigger] list[i]).kids.contains(d)
}

/// `classes` has the roots, and with a class all that a choice for it needs.
pub open spec fn closed_below(p: Problem, classes: Set<ClassId>) -> bool {
    &&& forall|r: ClassId| #[trigger] p.roots.contains(r) ==> classes.contains(r)
    &&& forall|c: ClassId, d: ClassId|
        classes.contains(c) && p.classes.contains_key(c) && #[trigger] needs(p.classes[c], d)
            ==> classes.contains(d)
}

/// Class `c` is a root, or some choice for such a class needs it, and so on.
pub open spec fn reachable_from_roots(p: Problem, c: ClassId) -> bool {
    forall|classes: Set<ClassId>| #[trigger] closed_below(p, classes) ==> classes.contains(c)
}

/// The problem without the classes that cannot be needed.
pub open spec fn reachable_part(p: Problem) -> Problem {
    Problem {
        classes: Map::new(
            |c: ClassId| p.classes.contains_key(c) && reachable_from_roots(p, c),
            |c: ClassId| p.classes[c],
        ),
        ..p
    }
}

proof fn lemma_reachable_root(p: Problem, r: ClassId)
    requires
        p.roots.contains(r),
    ensures
        reachable_from_roots(p, r),
{
}

proof fn lemma_reachable_step(p: Problem, c: ClassId, d: ClassId)
    requires
        reachable_from_roots(p, c),
        p.classes.contains_key(c),
        needs(p.classes[c], d),
    ensures
        reachable_from_roots(p, d),
{
    assert forall|classes: Set<ClassId>| #[trigger] closed_below(p, classes) implies classes.contains(
    d) by {
        assert(classes.contains(c));
    }
}

/// The classes that can be needed.
fn reachable(vars: &Vars) -> (r: IndexSet<ClassId>)
    requires
        vars.wf(),
    ensures
        forall|c: ClassId| #[trigger] id_set(r).contains(c) <==> reachable_from_roots(vars@, c),
{
    let ghost p = vars@;
    let ghost n = vars.size();
    let ghost known = Set::new(|c: ClassId| c < n);
    proof {
        lemma_below_finite(n);
    }
    let mut seen: IndexSet<ClassId> = id_set_new();
    let mut todo: Vec<ClassId> = ids_to_vec(vars.roots.as_slice());
    proof {
        assert forall|k: int| 0 <= k < todo@.len() implies reachable_from_roots(
            p,
            #[trigger] todo@[k],
        ) && p.classes.contains_key(todo@[k]) by {
            assert(p.roots.contains(todo@[k]));
            lemma_reachable_root(p, todo@[k]);
        }
        assert forall|c: ClassId| !#[trigger] id_set(seen).contains(c) by {}
    }
    while todo.len() > 0
        invariant
            vars.wf(),
            p == vars@,
            n == vars.size(),
            known == Set::new(|c: ClassId| c < n),
            known.finite(),
            forall|c: ClassId| #[trigger]
                id_set(seen).contains(c) ==> reachable_from_roots(p, c) && p.classes.contains_key(
                    c,
                ),
            forall|k: int|
                0 <= k < todo@.len() ==> reachable_from_roots(p, #[trigger] todo@[k])
                    && p.classes.contains_key(todo@[k]),
            forall|r: ClassId| #[trigger]
                p.roots.contains(r) ==> id_set(seen).contains(r) || todo@.contains(r),
            forall|c: ClassId, d: ClassId|
                id_set(seen).contains(c) && #[trigger] needs(p.classes[c], d) ==> id_set(
                    seen,
                ).contains(d) || todo@.contains(d),
        decreases known.difference(id_set(seen).to_set()).len(), todo@.len(),
    {
        let ghost todo0 = todo@;
        let ghost seen0 = id_set(seen);
        let c: ClassId = todo[todo.len() - 1];
        todo.pop();
        proof {
            assert(todo0[todo0.len() - 1] == c);
            assert forall|d: ClassId| todo0.contains(d) implies d == c
                || #[trigger] todo@.contains(d) by {
                let k = choose|k: int| 0 <= k < todo0.len() && todo0[k] == d;
                if k < todo0.len() - 1 {
                    assert(todo@[k] == d);
                }
            }
            assert(p.classes.contains_key(c));
        }
        if id_set_insert(&mut seen, c) {
            let ghost rest = todo@;
            let ghost list = p.classes[c];
            let nodes: &Vec<NodeIlp> = &vars.classes[c].nodes;
            assert(list == choices_in(nodes@));
            let mut i: usize = 0;
            while i < nodes.len()
                invariant
                    vars.wf(),
                    p == vars@,
                    n == vars.size(),
                    p.classes.contains_key(c),
                    reachable_from_roots(p, c),
                    list == choices_in(nodes@),
                    list == p.classes[c],
                    i <= nodes@.len(),
                    forall|k: int|
                        0 <= k < todo@.len() ==> reachable_from_roots(p, #[trigger] todo@[k])
                            && p.classes.contains_key(todo@[k]),
                    forall|d: ClassId| rest.contains(d) ==> #[trigger] todo@.contains(d),
                    forall|j: int, d: ClassId|
                        0 <= j < i && #[trigger] list[j].kids.contains(d) ==> todo@.contains(d),
                decreases nodes@.len() - i,
            {
                let kids: &IndexSet<ClassId> = &nodes[i].children_classes;
                let len: usize = id_set_len(kids);
                let ghost o = list[i as int];
                assert(o.kids == id_set(*kids));
                let mut k: usize = 0;
                while k < len
                    invariant
                        vars.wf(),
                        p == vars@,
                        n == vars.size(),
                        p.classes.contains_key(c),
                        reachable_from_roots(p, c),
                        list == choices_in(nodes@),
                    list == p.classes[c],
                        i < nodes@.len(),
                        o == list[i as int],
                        o.kids == id_set(*kids),
                        k <= len == o.kids.len(),
                        forall|k: int|
                            0 <= k < todo@.len() ==> reachable_from_roots(p, #[trigger] todo@[k])
                                && p.classes.contains_key(todo@[k]),
                        forall|d: ClassId| rest.contains(d) ==> #[trigger] todo@.contains(d),
                        forall|j: int, d: ClassId|
                            0 <= j < i && #[trigger] list[j].kids.contains(d) ==> todo@.contains(d),
                        forall|j: int| 0 <= j < k ==> todo@.contains(#[trigger] o.kids[j]),
                    decreases len - k,
                {
                    if let Some(d) = id_set_get_index(kids, k) {
                        proof {
                            assert(o.kids[k as int] == d);
                            assert(list[i as int].kids.contains(d));
                            assert(needs(list, d));
                            lemma_reachable_step(p, c, d);
                            assert(sound_class(p, list));
                        }
                        let ghost before = todo@;
                        todo.push(d);
                        proof {
                            assert(todo@[before.len() as int] == d);
                            assert forall|x: ClassId| before.contains(
                                x,
                            ) implies #[trigger] todo@.contains(x) by {
                                let j = choose|j: int| 0 <= j < before.len() && before[j] == x;
                                assert(todo@[j] == x);
                            }
                        }
                    }
                    k += 1;
                }
                proof {
                    assert forall|j: int, d: ClassId|
                        0 <= j < i + 1 && #[trigger] list[j].kids.contains(
                            d,
                        ) implies todo@.contains(d) by {
                        if j == i {
                            let m = choose|m: int| 0 <= m < o.kids.len() && o.kids[m] == d;
                            assert(todo@.contains(o.kids[m]));
                        }
                    }
                }
                i += 1;
            }
            proof {
                let seen1 = id_set(seen);
                assert(seen1 == seen0.push(c));
                assert(seen1[seen0.len() as int] == c);
                assert forall|x: ClassId| #[trigger] seen1.contains(x) <==> seen0.contains(x) || x
                    == c by {
                    if seen0.contains(x) {
                        let k = choose|k: int| 0 <= k < seen0.len() && seen0[k] == x;
                        assert(seen1[k] == x);
                    }
                }
                assert forall|a: ClassId, d: ClassId|
                    seen1.contains(a) && #[trigger] needs(p.classes[a], d) implies seen1.contains(d)
                    || todo@.contains(d) by {
                    if a == c {
                        let i = choose|i: int|
                            0 <= i < list.len() && (#[trigger] list[i]).kids.contains(d);
                        assert(list[i].kids.contains(d));
                    } else {
                        assert(seen0.contains(a));
                        if !seen0.contains(d) && d != c {
                            assert(todo0.contains(d));
                            assert(rest.contains(d));
                        }
                    }
                }
                assert forall|r: ClassId| #[trigger] p.roots.contains(r) implies seen1.contains(r)
                    || todo@.contains(r) by {
                    if !seen0.contains(r) && r != c {
                        assert(todo0.contains(r));
                        assert(rest.contains(r));
                    }
                }
                let left0 = known.difference(seen0.to_set());
                assert(left0.contains(c));
                assert(known.difference(seen1.to_set()) =~= left0.remove(c)) by {
                    assert forall|x: ClassId| known.difference(seen1.to_set()).contains(x)
                        <==> left0.remove(c).contains(x) by {
                        assert(seen1.contains(x) <==> seen0.contains(x) || x == c);
                    }
                }
            }
        } else {
            assert(id_set(seen) == seen0);
        }
    }
    proof {
        let set = id_set(seen).to_set();
        assert(closed_below(p, set)) by {
            assert forall|r: ClassId| #[trigger] p.roots.contains(r) implies set.contains(r) by {
                assert(id_set(seen).contains(r) || todo@.contains(r));
            }
            assert forall|c: ClassId, d: ClassId|
                set.contains(c) && p.classes.contains_key(c) && #[trigger] needs(
                    p.classes[c],
                    d,
                ) implies set.contains(d) by {
                assert(id_set(seen).contains(c));
                assert(id_set(seen).contains(d) || todo@.contains(d));
            }
        }
        assert forall|c: ClassId| reachable_from_roots(p, c) implies #[trigger] id_set(
            seen,
        ).contains(c) by {
            assert(set.contains(c));
        }
    }
    seen
}

/// Removes the classes that cannot be needed.
pub fn remove_unreachable_classes(vars: &mut Vars, config: &Config)
    requires
        old(vars).wf(),
    ensures
        final(vars)@ == (if config.remove_unreachable_classes {
            reachable_part(old(vars)@)
        } else {
            old(vars)@
        }),
        final(vars).wf(),
        final(vars).same_columns(old(vars)),
        forall|bound: int| #[trigger]
            simplifies(old(vars)@, final(vars)@, old(vars).size(), bound),
{
    let ghost p = vars@;
    let ghost n = vars.size();
    if !config.remove_unreachable_classes {
        proof {
            assert forall|bound: int| #[trigger] simplifies(p, p, n, bound) by {
                lemma_simplifies_itself(p, n, bound);
            }
        }
        return ;
    }
    let seen: IndexSet<ClassId> = reachable(vars);
    let mut c: usize = 0;
    while c < vars.live.len()
        invariant
            n == vars.size() == vars.live@.len(),
            c <= n,
            vars.classes@ == old(vars).classes@,
            vars.roots@ == old(vars).roots@,
            vars.decided@ == old(vars).decided@,
            p == old(vars)@,
            old(vars).live@.len() == n,
            forall|d: ClassId| #[trigger]
                id_set(seen).contains(d) <==> reachable_from_roots(p, d),
            forall|d: ClassId|
                d < n ==> #[trigger] vars.live@[d as int] == (old(vars).live@[d as int] && (d < c
                    ==> reachable_from_roots(p, d))),
        decreases n - c,
    {
        let keep: bool = id_set_contains(&seen, c);
        let alive: bool = vars.live[c];
        vars.live.set(c, alive && keep);
        c += 1;
    }
    proof {
        assert(vars@.classes =~= reachable_part(p).classes) by {
            assert forall|d: ClassId| vars@.classes.contains_key(d) <==> reachable_part(
                p,
            ).classes.contains_key(d) by {
                if d < n {
                    assert(vars.live@[d as int] == (old(vars).live@[d as int]
                        && reachable_from_roots(p, d)));
                }
            }
        }
        assert forall|bound: int| #[trigger] simplifies(p, vars@, n, bound) by {
            lemma_reachable_part(p, n, bound);
        }
        lemma_reachable_part(p, n, 0);
    }
}

/// What cannot be needed can be left out.
proof fn lemma_reachable_part(p: Problem, n: nat, bound: int)
    requires
        sound(p, n),
    ensures
        sound(reachable_part(p), n),
        simplifies(p, reachable_part(p), n, bound),
{
    let q = reachable_part(p);
    assert forall|c: ClassId| #[trigger] q.classes.contains_key(c) implies c < n && sound_class(
        q,
        q.classes[c],
    ) by {
        assert(p.classes.contains_key(c));
        let list = p.classes[c];
        assert(sound_class(p, list));
        assert forall|i: int, d: ClassId|
            0 <= i < list.len() && (#[trigger] list[i].kids.contains(d)) implies q.classes.contains_key(
        d) by {
            assert(needs(list, d));
            lemma_reachable_step(p, c, d);
        }
    }
    assert forall|r: ClassId| #[trigger] q.roots.contains(r) implies q.classes.contains_key(r) by {
        assert(p.roots.contains(r));
        lemma_reachable_root(p, r);
    }
    assert forall|c: ClassId| #[trigger]
        q.decided.contains_key(c) implies !q.classes.contains_key(c) by {
        assert(p.decided.contains_key(c));
    }
    assert forall|c: ClassId, j: int|
        q.classes.contains_key(c) && 0 <= j < q.classes[c].len() implies listed(
        p.classes[c],
        #[trigger] q.classes[c][j],
    ) by {
        assert(q.classes[c][j] == p.classes[c][j]);
    }
    assert forall|sel: Map<ClassId, NodeId>| #[trigger]
        solves(p, sel) && price(p, sel, n) <= bound implies attains(q, n, price(p, sel, n)) by {
        let rank = choose|rank: Map<ClassId, nat>| solves_with(p, sel, rank);
        let part = Map::new(
            |c: ClassId| sel.contains_key(c) && reachable_from_roots(p, c),
            |c: ClassId| sel[c],
        );
        assert forall|r: ClassId| #[trigger] p.roots.contains(r) implies part.contains_key(r) by {
            assert(sel.contains_key(r));
            lemma_reachable_root(p, r);
        }
        assert forall|c: ClassId, d: ClassId|
            part.contains_key(c) && #[trigger] choice_of(p, c, part[c]).kids.contains(
                d,
            ) implies part.contains_key(d) by {
            assert(choice_of(p, c, sel[c]).kids.contains(d));
            lemma_offered(p.classes[c], sel[c]);
            assert(needs(p.classes[c], d));
            lemma_reachable_step(p, c, d);
        }
        lemma_part(p, n, sel, rank, part);
        assert forall|c: ClassId| #[trigger] part.contains_key(c) implies q.classes.contains_key(c)
            && offers(q.classes[c], part[c]) && choice_of(q, c, part[c]) == choice_of(
            p,
            c,
            part[c],
        ) by {}
        assert(solves_with(q, part, rank));
        assert forall|c: ClassId| #[trigger] class_price(q, part, c) <= class_price(p, part, c) by {
            if part.contains_key(c) {
            }
        }
        lemma_price_below(q, part, p, part, n);
        assert(solves(q, part));
    }
    assert forall|sel: Map<ClassId, NodeId>| #[trigger] solves(q, sel) implies holds_solution(
        p,
        n,
        sel,
        q.decided,
        price(q, sel, n),
    ) by {
        let rank = choose|rank: Map<ClassId, nat>| solves_with(q, sel, rank);
        assert forall|c: ClassId| #[trigger] sel.contains_key(c) implies p.classes.contains_key(c)
            && offers(p.classes[c], sel[c]) && choice_of(p, c, sel[c]) == choice_of(
            q,
            c,
            sel[c],
        ) by {
            assert(q.classes.contains_key(c));
        }
        assert(solves_with(p, sel, rank)) by {
            assert forall|r: ClassId| #[trigger] p.roots.contains(r) implies sel.contains_key(
            r) by {
                assert(q.roots.contains(r));
            }
        }
        assert forall|c: ClassId| #[trigger] class_price(p, sel, c) <= class_price(q, sel, c) by {
            if sel.contains_key(c) {
            }
        }
        lemma_price_below(p, sel, q, sel, n);
        assert(solves(p, sel));
        assert(drawn_from(sel, sel, q.decided));
    }
}

// ---------------------------------------------------------------------------
// Extra roots
// ---------------------------------------------------------------------------

/// Every choice, of which there is one, needs class `d`.
pub open spec fn all_need(list: Seq<Choice>, d: ClassId) -> bool {
    list.len() > 0 && forall|i: int| 0 <= i < list.len() ==> (#[trigger] list[i]).kids.contains(d)
}

/// Those of the first `k` classes the first choice needs that all choices
/// need.
pub open spec fn common_to(list: Seq<Choice>, k: nat) -> Seq<ClassId>
    decreases k,
{
    if k == 0 {
        Seq::empty()
    } else {
        let d = list[0].kids[k - 1];
        if all_need(list, d) {
            common_to(list, (k - 1) as nat).push(d)
        } else {
            common_to(list, (k - 1) as nat)
        }
    }
}

/// The classes that every choice needs.
pub open spec fn common_kids(list: Seq<Choice>) -> Seq<ClassId> {
    if list.len() == 0 {
        Seq::empty()
    } else {
        common_to(list, list[0].kids.len())
    }
}

pub proof fn lemma_common_to(list: Seq<Choice>, k: nat, d: ClassId)
    requires
        list.len() > 0,
        k <= list[0].kids.len(),
    ensures
        common_to(list, k).contains(d) <==> all_need(list, d) && list[0].kids.take(
            k as int,
        ).contains(d),
        list[0].kids.no_duplicates() ==> common_to(list, k).no_duplicates(),
    decreases k,
{
    let kids = list[0].kids;
    if k > 0 {
        lemma_common_to(list, (k - 1) as nat, d);
        let e = kids[k - 1];
        let before = common_to(list, (k - 1) as nat);
        let head = kids.take(k - 1);
        assert(kids.take(k as int) =~= head.push(e));
        assert(kids.take(k as int).contains(d) <==> head.contains(d) || d == e) by {
            if head.contains(d) {
                let j = choose|j: int| 0 <= j < k - 1 && head[j] == d;
                assert(kids.take(k as int)[j] == d);
            }
            if d == e {
                assert(kids.take(k as int)[k - 1] == d);
            }
        }
        if all_need(list, e) {
            assert(before.push(e).contains(d) <==> before.contains(d) || d == e) by {
                if before.contains(d) {
                    let j = choose|j: int| 0 <= j < before.len() && before[j] == d;
                    assert(before.push(e)[j] == d);
                }
                if d == e {
                    assert(before.push(e)[before.len() as int] == d);
                }
            }
        }
        if kids.no_duplicates() {
            lemma_common_to(list, (k - 1) as nat, e);
            assert(!head.contains(e)) by {
                if head.contains(e) {
                    let j = choose|j: int| 0 <= j < k - 1 && head[j] == e;
                    assert(kids[j] == kids[k - 1]);
                }
            }
            if all_need(list, e) {
                assert(before.push(e).no_duplicates());
            }
        }
    }
}

pub proof fn lemma_common_kids(list: Seq<Choice>)
    ensures
        forall|d: ClassId| #[trigger] common_kids(list).contains(d) <==> all_need(list, d),
        list.len() > 0 && list[0].kids.no_duplicates() ==> common_kids(list).no_duplicates(),
{
    if list.len() > 0 {
        let kids = list[0].kids;
        assert forall|d: ClassId| #[trigger] common_kids(list).contains(d) <==> all_need(list, d) by {
            lemma_common_to(list, kids.len(), d);
            assert(kids.take(kids.len() as int) =~= kids);
        }
        lemma_common_to(list, kids.len(), 0);
    }
}

fn needed_by_all(nodes: &Vec<NodeIlp>, d: ClassId) -> (r: bool)
    requires
        nodes@.len() > 0,
    ensures
        r == all_need(choices_in(nodes@), d),
{
    let ghost list = choices_in(nodes@);
    let mut i: usize = 0;
    while i < nodes.len()
        invariant
            list == choices_in(nodes@),
            i <= nodes@.len(),
            forall|k: int| 0 <= k < i ==> (#[trigger] list[k]).kids.contains(d),
        decreases nodes@.len() - i,
    {
        assert(list[i as int].kids == id_set(nodes@[i as int].children_classes));
        if !id_set_contains(&nodes[i].children_classes, d) {
            return false;
        }
        i += 1;
    }
    true
}

/// [`common_kids`].
pub(crate) fn intersection(nodes: &Vec<NodeIlp>) -> (r: Vec<ClassId>)
    ensures
        r@ == common_kids(choices_in(nodes@)),
{
    let ghost list = choices_in(nodes@);
    let mut common: Vec<ClassId> = Vec::new();
    if nodes.len() == 0 {
        return common;
    }
    let kids: &IndexSet<ClassId> = &nodes[0].children_classes;
    assert(list[0].kids == id_set(*kids));
    let len: usize = id_set_len(kids);
    let mut k: usize = 0;
    while k < len
        invariant
            list == choices_in(nodes@),
            nodes@.len() > 0,
            list[0].kids == id_set(*kids),
            k <= len == list[0].kids.len(),
            common@ == common_to(list, k as nat),
        decreases len - k,
    {
        if let Some(d) = id_set_get_index(kids, k) {
            if needed_by_all(nodes, d) {
                common.push(d);
            }
        }
        k += 1;
    }
    common
}

/// `classes` has the roots, and with a class all that every choice for it
/// needs.
pub open spec fn closed_by_need(p: Problem, classes: Set<ClassId>) -> bool {
    &&& forall|r: ClassId| #[trigger] p.roots.contains(r) ==> classes.contains(r)
    &&& forall|c: ClassId, d: ClassId|
        classes.contains(c) && p.classes.contains_key(c) && #[trigger] all_need(p.classes[c], d)
            ==> classes.contains(d)
}

/// Class `c` is a root, or every choice for such a class needs it, and so on.
pub open spec fn always_needed(p: Problem, c: ClassId) -> bool {
    forall|classes: Set<ClassId>| #[trigger] closed_by_need(p, classes) ==> classes.contains(c)
}

/// `q` has as roots, after those of `p`, all classes that are always needed.
pub open spec fn roots_extended(p: Problem, q: Problem) -> bool {
    &&& q == (Problem { roots: q.roots, ..p })
    &&& p.roots.len() <= q.roots.len()
    &&& p.roots =~= q.roots.take(p.roots.len() as int)
    &&& q.roots.no_duplicates()
    &&& forall|c: ClassId| #[trigger] q.roots.contains(c) <==> always_needed(p, c)
}

/// Makes every class a root that each node of a root needs.
pub fn find_extra_roots(vars: &mut Vars, config: &Config)
    requires
        old(vars).wf(),
    ensures
        config.find_extra_roots ==> roots_extended(old(vars)@, final(vars)@),
        !config.find_extra_roots ==> final(vars)@ == old(vars)@,
        final(vars).wf(),
        final(vars).same_columns(old(vars)),
        forall|bound: int| #[trigger]
            simplifies(old(vars)@, final(vars)@, old(vars).size(), bound),
{
    let ghost p = vars@;
    let ghost n = vars.size();
    if !config.find_extra_roots {
        proof {
            assert forall|bound: int| #[trigger] simplifies(p, p, n, bound) by {
                lemma_simplifies_itself(p, n, bound);
            }
        }
        return ;
    }
    let ghost known = Set::new(|c: ClassId| c < n);
    proof {
        lemma_below_finite(n);
        crate::extract::ilp::warm::lemma_below_len(n);
        assert(p.roots.take(p.roots.len() as int) =~= p.roots);
    }
    let mut i: usize = 0;
    // Roots added here are gone through as well.
    while i < vars.roots.len()
        invariant
            p == old(vars)@,
            sound(p, n),
            n == vars.size(),
            vars.classes@ == old(vars).classes@,
            vars.live@ == old(vars).live@,
            vars.live@.len() == n,
            vars.decided@ == old(vars).decided@,
            known == Set::new(|c: ClassId| c < n),
            known.finite(),
            known.len() <= n,
            i <= vars.roots@.len(),
            p.roots.len() <= vars.roots@.len(),
            p.roots == vars.roots@.take(p.roots.len() as int),
            vars.roots@.no_duplicates(),
            forall|c: ClassId| #[trigger]
                vars.roots@.contains(c) ==> always_needed(p, c) && p.classes.contains_key(c),
            forall|k: int, d: ClassId|
                0 <= k < i && #[trigger] all_need(p.classes[vars.roots@[k]], d)
                    ==> vars.roots@.contains(d),
        decreases n - i,
    {
        let r: ClassId = vars.roots[i];
        proof {
            assert(vars.roots@.contains(r));
            assert(p.classes.contains_key(r));
            assert(p.classes[r] == choices_in(vars.classes@[r as int].nodes@));
            lemma_roots_few(vars.roots@, n);
        }
        let ghost list = p.classes[r];
        let common: Vec<ClassId> = intersection(&vars.classes[r].nodes);
        proof {
            lemma_common_kids(list);
        }
        let ghost roots0 = vars.roots@;
        let mut k: usize = 0;
        while k < common.len()
            invariant
                p == old(vars)@,
                sound(p, n),
                n == vars.size(),
                vars.classes@ == old(vars).classes@,
                vars.live@ == old(vars).live@,
                vars.live@.len() == n,
                vars.decided@ == old(vars).decided@,
                i < roots0.len() <= vars.roots@.len(),
                roots0 == vars.roots@.take(roots0.len() as int),
                r == roots0[i as int],
                p.classes.contains_key(r),
                list == p.classes[r],
                always_needed(p, r),
                common@ == common_kids(list),
                forall|d: ClassId| #[trigger] common@.contains(d) <==> all_need(list, d),
                k <= common@.len(),
                vars.roots@.no_duplicates(),
                forall|c: ClassId| #[trigger]
                    vars.roots@.contains(c) ==> always_needed(p, c) && p.classes.contains_key(c),
                forall|c: ClassId| roots0.contains(c) ==> #[trigger] vars.roots@.contains(c),
                forall|j: int| 0 <= j < k ==> vars.roots@.contains(#[trigger] common@[j]),
            decreases common@.len() - k,
        {
            let d: ClassId = common[k];
            proof {
                assert(common@.contains(d));
                assert(all_need(list, d));
                assert(always_needed(p, d)) by {
                    assert forall|classes: Set<ClassId>| #[trigger]
                        closed_by_need(p, classes) implies classes.contains(d) by {
                        assert(classes.contains(r));
                    }
                }
                assert(list[0].kids.contains(d));
                assert(sound_class(p, list));
                assert(p.classes.contains_key(d));
            }
            if !has_id(&vars.roots, d) {
                let ghost before = vars.roots@;
                vars.roots.push(d);
                proof {
                    assert(vars.roots@[before.len() as int] == d);
                    assert forall|c: ClassId| before.contains(c) implies #[trigger] vars.roots@.contains(
                    c) by {
                        let j = choose|j: int| 0 <= j < before.len() && before[j] == c;
                        assert(vars.roots@[j] == c);
                    }
                    assert forall|c: ClassId| #[trigger] vars.roots@.contains(c) implies always_needed(
                        p,
                        c,
                    ) && p.classes.contains_key(c) by {
                        let j = choose|j: int| 0 <= j < vars.roots@.len() && vars.roots@[j] == c;
                        if j < before.len() {
                            assert(before[j] == c);
                            assert(before.contains(c));
                        }
                    }
                    assert(roots0 =~= vars.roots@.take(roots0.len() as int));
                }
            }
            k += 1;
        }
        proof {
            assert(p.roots =~= vars.roots@.take(p.roots.len() as int)) by {
                assert forall|j: int| 0 <= j < p.roots.len() implies p.roots[j]
                    == vars.roots@[j] by {
                    assert(roots0.take(p.roots.len() as int)[j] == roots0[j]);
                    assert(vars.roots@.take(roots0.len() as int)[j] == vars.roots@[j]);
                }
            }
            assert forall|k: int, d: ClassId|
                0 <= k < i + 1 && #[trigger] all_need(
                    p.classes[vars.roots@[k]],
                    d,
                ) implies vars.roots@.contains(d) by {
                assert(vars.roots@.take(roots0.len() as int)[k] == vars.roots@[k]);
                assert(roots0[k] == vars.roots@[k]);
                if k == i {
                    assert(common@.contains(d));
                    let j = choose|j: int| 0 <= j < common@.len() && common@[j] == d;
                    assert(vars.roots@.contains(common@[j]));
                } else {
                    assert(roots0.contains(d));
                }
            }
        }
        i += 1;
    }
    proof {
        let q = vars@;
        assert(q.classes =~= p.classes);
        let set = q.roots.to_set();
        assert(closed_by_need(p, set)) by {
            assert forall|r: ClassId| #[trigger] p.roots.contains(r) implies set.contains(r) by {
                let j = choose|j: int| 0 <= j < p.roots.len() && p.roots[j] == r;
                assert(q.roots.take(p.roots.len() as int)[j] == q.roots[j]);
                assert(q.roots.contains(r));
            }
            assert forall|c: ClassId, d: ClassId|
                set.contains(c) && p.classes.contains_key(c) && #[trigger] all_need(
                    p.classes[c],
                    d,
                ) implies set.contains(d) by {
                let k = choose|k: int| 0 <= k < q.roots.len() && q.roots[k] == c;
                assert(all_need(p.classes[q.roots[k]], d));
            }
        }
        assert forall|c: ClassId| always_needed(p, c) implies #[trigger] q.roots.contains(c) by {
            assert(set.contains(c));
        }
        assert(roots_extended(p, q));
        assert(sound(q, n)) by {
            assert forall|c: ClassId| #[trigger] q.classes.contains_key(c) implies c < n
                && sound_class(q, q.classes[c]) by {
                assert(p.classes.contains_key(c));
                assert(sound_class(p, p.classes[c]));
            }
        }
        assert forall|bound: int| #[trigger] simplifies(p, vars@, n, bound) by {
            lemma_roots_extended(p, q, n, bound);
        }
    }
}

/// There are no more roots than classes.
proof fn lemma_roots_few(roots: Seq<ClassId>, n: nat)
    requires
        roots.no_duplicates(),
        forall|c: ClassId| #[trigger] roots.contains(c) ==> c < n,
    ensures
        roots.len() <= n,
{
    let known = Set::new(|c: ClassId| c < n);
    lemma_below_finite(n);
    crate::extract::ilp::warm::lemma_below_len(n);
    roots.unique_seq_to_set();
    assert forall|c: ClassId| roots.to_set().contains(c) implies known.contains(c) by {
        assert(roots.contains(c));
    }
    vstd::set_lib::lemma_len_subset(roots.to_set(), known);
}

/// What is always needed can as well be a root.
proof fn lemma_roots_extended(p: Problem, q: Problem, n: nat, bound: int)
    requires
        sound(p, n),
        roots_extended(p, q),
    ensures
        simplifies(p, q, n, bound),
{
    assert forall|c: ClassId, j: int|
        q.classes.contains_key(c) && 0 <= j < q.classes[c].len() implies listed(
        p.classes[c],
        #[trigger] q.classes[c][j],
    ) by {
        assert(q.classes[c][j] == p.classes[c][j]);
    }
    assert forall|sel: Map<ClassId, NodeId>| #[trigger]
        solves(p, sel) && price(p, sel, n) <= bound implies attains(q, n, price(p, sel, n)) by {
        let rank = choose|rank: Map<ClassId, nat>| solves_with(p, sel, rank);
        assert(closed_by_need(p, sel.dom())) by {
            assert forall|c: ClassId, d: ClassId|
                sel.dom().contains(c) && p.classes.contains_key(c) && #[trigger] all_need(
                    p.classes[c],
                    d,
                ) implies sel.dom().contains(d) by {
                assert(sel.contains_key(c));
                lemma_offered(p.classes[c], sel[c]);
                assert(choice_of(p, c, sel[c]).kids.contains(d));
            }
        }
        assert forall|r: ClassId| #[trigger] q.roots.contains(r) implies sel.contains_key(r) by {
            assert(always_needed(p, r));
            assert(sel.dom().contains(r));
        }
        assert forall|c: ClassId| #[trigger] sel.contains_key(c) implies choice_of(q, c, sel[c])
            == choice_of(p, c, sel[c]) by {}
        assert(solves_with(q, sel, rank));
        assert forall|c: ClassId| #[trigger] class_price(q, sel, c) <= class_price(p, sel, c) by {}
        lemma_price_below(q, sel, p, sel, n);
        assert(solves(q, sel));
    }
    assert forall|sel: Map<ClassId, NodeId>| #[trigger] solves(q, sel) implies holds_solution(
        p,
        n,
        sel,
        q.decided,
        price(q, sel, n),
    ) by {
        let rank = choose|rank: Map<ClassId, nat>| solves_with(q, sel, rank);
        assert forall|r: ClassId| #[trigger] p.roots.contains(r) implies sel.contains_key(r) by {
            let j = choose|j: int| 0 <= j < p.roots.len() && p.roots[j] == r;
            assert(q.roots.take(p.roots.len() as int)[j] == q.roots[j]);
            assert(q.roots.contains(r));
        }
        assert forall|c: ClassId| #[trigger] sel.contains_key(c) implies choice_of(q, c, sel[c])
            == choice_of(p, c, sel[c]) by {}
        assert(solves_with(p, sel, rank));
        assert forall|c: ClassId| #[trigger] class_price(p, sel, c) <= class_price(q, sel, c) by {}
        lemma_price_below(p, sel, q, sel, n);
        assert(solves(p, sel));
        assert(drawn_from(sel, sel, q.decided));
    }
}

} // verus!
