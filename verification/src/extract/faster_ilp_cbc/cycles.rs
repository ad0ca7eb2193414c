//! Cycles among choices.
use crate::collections::{
    id_map, id_map_get, id_map_insert, id_map_new, id_set, id_set_get_index, id_set_len,
};
use crate::egraph::{ClassId, NodeId};
use crate::extract::faster_ilp_cbc::encoding::is_closed_under;
use crate::extract::faster_ilp_cbc::problem::{
    choice_of, choices_in, lemma_place, offers, solves, solves_with, sound, sound_class, NodeIlp,
    Problem, Vars,
};
use crate::extract::measure::lemma_below_finite;
use indexmap::{IndexMap, IndexSet};
use vstd::prelude::*;

verus! {

/// The walk looks for no more cycles than this.
///
/// The number of simple cycles can be factorial in the number of classes, so
/// finding them all can be very slow.
pub const CYCLE_LIMIT: usize = 1000;

/// A class the walk is below.
pub const DOING: usize = 1;

/// A class the walk is done with.
pub const DONE: usize = 2;

/// The places of chosen nodes in the lists of their classes.
pub open spec fn picks_fit(p: Problem, picks: Seq<Option<usize>>) -> bool {
    forall|c: ClassId|
        c < picks.len() && (#[trigger] picks[c as int]) is Some ==> p.classes.contains_key(c)
            && picks[c as int]->0 < p.classes[c].len()
}

/// The nodes at the places.
pub open spec fn picked(p: Problem, picks: Seq<Option<usize>>) -> Map<ClassId, NodeId> {
    Map::new(
        |c: ClassId| c < picks.len() && picks[c as int] is Some,
        |c: ClassId| p.classes[c][picks[c as int]->0 as int].node,
    )
}

pub proof fn lemma_picked(p: Problem, n: nat, picks: Seq<Option<usize>>)
    requires
        sound(p, n),
        picks_fit(p, picks),
    ensures
        forall|c: ClassId| #[trigger]
            picked(p, picks).contains_key(c) ==> p.classes.contains_key(c) && offers(
                p.classes[c],
                picked(p, picks)[c],
            ) && choice_of(p, c, picked(p, picks)[c]) == p.classes[c][picks[c as int]->0 as int],
{
    let sel = picked(p, picks);
    assert forall|c: ClassId| #[trigger] sel.contains_key(c) implies p.classes.contains_key(c)
        && offers(p.classes[c], sel[c]) && choice_of(p, c, sel[c])
        == p.classes[c][picks[c as int]->0 as int] by {
        assert(picks[c as int] is Some);
        assert(sound_class(p, p.classes[c]));
        lemma_place(p.classes[c], picks[c as int]->0 as int);
    }
}

/// The choice for class `c` needs class `d`.
pub open spec fn step(p: Problem, sel: Map<ClassId, NodeId>, c: ClassId, d: ClassId) -> bool {
    sel.contains_key(c) && choice_of(p, c, sel[c]).kids.contains(d)
}

/// `classes` has the roots, and with a class what the choice for it needs.
pub open spec fn closed_by_steps(
    p: Problem,
    sel: Map<ClassId, NodeId>,
    classes: Set<ClassId>,
) -> bool {
    &&& forall|r: ClassId| #[trigger] p.roots.contains(r) ==> classes.contains(r)
    &&& forall|c: ClassId, d: ClassId|
        classes.contains(c) && #[trigger] step(p, sel, c, d) ==> classes.contains(d)
}

/// Class `c` is a root, or the choice for such a class needs it, and so on.
pub open spec fn is_used(p: Problem, sel: Map<ClassId, NodeId>, c: ClassId) -> bool {
    forall|classes: Set<ClassId>| #[trigger]
        closed_by_steps(p, sel, classes) ==> classes.contains(c)
}

/// Each class needs the next, and the last the first.
pub open spec fn is_cycle(p: Problem, sel: Map<ClassId, NodeId>, cycle: Seq<ClassId>) -> bool {
    &&& cycle.len() > 0
    &&& cycle.no_duplicates()
    &&& forall|i: int| 0 <= i < cycle.len() ==> is_used(p, sel, #[trigger] cycle[i])
    &&& forall|i: int|
        0 <= i < cycle.len() - 1 ==> step(p, sel, #[trigger] cycle[i], cycle[i + 1])
    &&& step(p, sel, cycle.last(), cycle[0])
}

/// Part of `sel` is a solution.
pub open spec fn holds_part(p: Problem, sel: Map<ClassId, NodeId>) -> bool {
    exists|part: Map<ClassId, NodeId>| is_part(part, sel) && #[trigger] solves(p, part)
}

/// Every choice of `part` is one of `sel`.
pub open spec fn is_part(part: Map<ClassId, NodeId>, sel: Map<ClassId, NodeId>) -> bool {
    forall|c: ClassId| #[trigger] part.contains_key(c) ==> sel.contains_key(c) && sel[c] == part[c]
}

/// A rank that falls along every step leaves no cycle.
pub proof fn lemma_no_cycle(
    p: Problem,
    sel: Map<ClassId, NodeId>,
    part: Map<ClassId, NodeId>,
    cycle: Seq<ClassId>,
)
    requires
        is_part(part, sel),
        solves(p, part),
    ensures
        !is_cycle(p, sel, cycle),
{
    let rank = choose|rank: Map<ClassId, nat>| solves_with(p, part, rank);
    assert(closed_by_steps(p, sel, part.dom())) by {
        assert forall|r: ClassId| #[trigger] p.roots.contains(r) implies part.dom().contains(r) by {
            assert(part.contains_key(r));
        }
        assert forall|c: ClassId, d: ClassId|
            part.dom().contains(c) && #[trigger] step(p, sel, c, d) implies part.dom().contains(
        d) by {
            assert(part.contains_key(c));
            assert(choice_of(p, c, part[c]).kids.contains(d));
        }
    }
    if is_cycle(p, sel, cycle) {
        assert forall|i: int| 0 <= i < cycle.len() implies part.contains_key(
            #[trigger] cycle[i],
        ) by {
            assert(is_used(p, sel, cycle[i]));
            assert(part.dom().contains(cycle[i]));
        }
        lemma_rank_falls(p, sel, part, rank, cycle, (cycle.len() - 1) as nat);
        let last = cycle.last();
        assert(part.contains_key(cycle[cycle.len() - 1]));
        assert(choice_of(p, last, part[last]).kids.contains(cycle[0]));
    }
}

proof fn lemma_rank_falls(
    p: Problem,
    sel: Map<ClassId, NodeId>,
    part: Map<ClassId, NodeId>,
    rank: Map<ClassId, nat>,
    cycle: Seq<ClassId>,
    i: nat,
)
    requires
        is_part(part, sel),
        solves_with(p, part, rank),
        is_cycle(p, sel, cycle),
        i < cycle.len(),
        forall|i: int| 0 <= i < cycle.len() ==> part.contains_key(#[trigger] cycle[i]),
    ensures
        rank[cycle[i as int]] <= rank[cycle[0]],
    decreases i,
{
    if i > 0 {
        lemma_rank_falls(p, sel, part, rank, cycle, (i - 1) as nat);
        let c = cycle[i - 1];
        assert(step(p, sel, cycle[i - 1], cycle[i - 1 + 1]));
        assert(part.contains_key(c));
        assert(choice_of(p, c, part[c]).kids.contains(cycle[i as int]));
    }
}

/// What the walk has established so far.
pub open spec fn walk_ok(
    p: Problem,
    sel: Map<ClassId, NodeId>,
    status: Map<ClassId, usize>,
    cycles: Seq<Vec<ClassId>>,
    stack: Seq<ClassId>,
    rank: Map<ClassId, nat>,
    clock: nat,
) -> bool {
    &&& forall|c: ClassId| #[trigger]
        status.contains_key(c) ==> (status[c] == DOING || status[c] == DONE) && sel.contains_key(c)
            && is_used(p, sel, c)
    &&& forall|c: ClassId| #[trigger]
        stack.contains(c) <==> status.contains_key(c) && status[c] == DOING
    &&& stack.no_duplicates()
    &&& forall|i: int|
        0 <= i < stack.len() - 1 ==> step(p, sel, #[trigger] stack[i], stack[i + 1])
    &&& forall|i: int| 0 <= i < cycles.len() ==> is_cycle(p, sel, (#[trigger] cycles[i])@)
    &&& cycles.len() == 0 ==> {
        &&& forall|c: ClassId| #[trigger]
            status.contains_key(c) && status[c] == DONE ==> rank[c] < clock
        &&& forall|c: ClassId, d: ClassId|
            status.contains_key(c) && status[c] == DONE && #[trigger] step(p, sel, c, d)
                ==> status.contains_key(d) && status[d] == DONE && rank[d] < rank[c]
    }
}

/// What is known stays known.
pub open spec fn walk_grows(a: Map<ClassId, usize>, b: Map<ClassId, usize>) -> bool {
    &&& forall|c: ClassId| #[trigger] a.contains_key(c) ==> b.contains_key(c) && b[c] == a[c]
    &&& forall|c: ClassId|
        b.contains_key(c) && !a.contains_key(c) ==> #[trigger] b[c] == DONE
}

/// What a depth-first walk from class `c`, no deeper than `depth` and below the
/// classes on `stack`, makes of the classes it has met and of the cycles it has
/// found. A class of the stack met again closes a cycle: the stack from there
/// on. Beyond the limit no new class is entered.
pub open spec fn cycles_from(
    p: Problem,
    sel: Map<ClassId, NodeId>,
    c: ClassId,
    met: Map<ClassId, usize>,
    found: Seq<Seq<ClassId>>,
    stack: Seq<ClassId>,
    depth: nat,
) -> (Map<ClassId, usize>, Seq<Seq<ClassId>>)
    decreases depth, 0nat,
{
    if met.contains_key(c) {
        if met[c] == DOING {
            (met, found.push(stack.skip(stack.index_of(c))))
        } else {
            (met, found)
        }
    } else if found.len() > CYCLE_LIMIT || depth == 0 {
        (met, found)
    } else {
        let kids = choice_of(p, c, sel[c]).kids;
        let below = cycles_below(
            p,
            sel,
            kids,
            kids.len(),
            met.insert(c, DOING),
            found,
            stack.push(c),
            (depth - 1) as nat,
        );
        (below.0.insert(c, DONE), below.1)
    }
}

/// [`cycles_from`] the first `k` of `kids` in turn.
pub open spec fn cycles_below(
    p: Problem,
    sel: Map<ClassId, NodeId>,
    kids: Seq<ClassId>,
    k: nat,
    met: Map<ClassId, usize>,
    found: Seq<Seq<ClassId>>,
    stack: Seq<ClassId>,
    depth: nat,
) -> (Map<ClassId, usize>, Seq<Seq<ClassId>>)
    decreases depth, k + 1,
{
    if k == 0 {
        (met, found)
    } else {
        let before = cycles_below(p, sel, kids, (k - 1) as nat, met, found, stack, depth);
        cycles_from(p, sel, kids[k - 1], before.0, before.1, stack, depth)
    }
}

/// [`cycles_from`] the first `k` roots in turn, of a problem of `n` classes.
pub open spec fn cycles_of(
    p: Problem,
    sel: Map<ClassId, NodeId>,
    n: nat,
    k: nat,
) -> (Map<ClassId, usize>, Seq<Seq<ClassId>>)
    decreases k,
{
    if k == 0 {
        (Map::empty(), Seq::empty())
    } else {
        let before = cycles_of(p, sel, n, (k - 1) as nat);
        cycles_from(p, sel, p.roots[k - 1], before.0, before.1, Seq::empty(), n + 1)
    }
}

/// The lists.
pub open spec fn listed_in(cycles: Seq<Vec<ClassId>>) -> Seq<Seq<ClassId>> {
    Seq::new(cycles.len(), |i: int| cycles[i]@)
}

fn tail_from(stack: &Vec<ClassId>, c: ClassId) -> (r: Vec<ClassId>)
    requires
        stack@.contains(c),
    ensures
        exists|k: int|
            0 <= k < stack@.len() && #[trigger] stack@[k] == c && r@ == stack@.skip(k),
{
    let len: usize = stack.len();
    let mut pos: usize = 0;
    while stack[pos] != c
        invariant
            stack@.contains(c),
            pos < stack@.len() == len,
            forall|j: int| 0 <= j < pos ==> stack@[j] != c,
        decreases stack@.len() - pos,
    {
        proof {
            let k = choose|k: int| 0 <= k < stack@.len() && stack@[k] == c;
            assert(k > pos);
        }
        pos += 1;
    }
    let mut tail: Vec<ClassId> = Vec::new();
    let mut i: usize = pos;
    while i < stack.len()
        invariant
            pos <= i <= stack@.len(),
            tail@ == stack@.subrange(pos as int, i as int),
        decreases stack@.len() - i,
    {
        tail.push(stack[i]);
        i += 1;
        assert(tail@ =~= stack@.subrange(pos as int, i as int));
    }
    assert(tail@ =~= stack@.skip(pos as int));
    tail
}

/// Walks from class `c` down, and notes the cycles it closes.
fn cycle_dfs(
    vars: &Vars,
    picks: &Vec<Option<usize>>,
    c: ClassId,
    status: &mut IndexMap<ClassId, usize>,
    cycles: &mut Vec<Vec<ClassId>>,
    stack: &mut Vec<ClassId>,
    Ghost(depth): Ghost<nat>,
    ranks: &mut Ghost<(Map<ClassId, nat>, nat)>,
)
    requires
        vars.wf(),
        Set::new(|x: ClassId| x < vars.size()).difference(id_map(*old(status)).dom()).len() < depth,
        picks@.len() == vars.size(),
        picks_fit(vars@, picks@),
        is_closed_under(vars@, picked(vars@, picks@)),
        picked(vars@, picks@).contains_key(c),
        is_used(vars@, picked(vars@, picks@), c),
        walk_ok(
            vars@,
            picked(vars@, picks@),
            id_map(*old(status)),
            old(cycles)@,
            old(stack)@,
            old(ranks)@.0,
            old(ranks)@.1,
        ),
        old(stack)@.len() > 0 ==> step(
            vars@,
            picked(vars@, picks@),
            old(stack)@.last(),
            c,
        ),
    ensures
        walk_ok(
            vars@,
            picked(vars@, picks@),
            id_map(*final(status)),
            final(cycles)@,
            final(stack)@,
            final(ranks)@.0,
            final(ranks)@.1,
        ),
        final(stack)@ == old(stack)@,
        (id_map(*final(status)), listed_in(final(cycles)@)) == cycles_from(
            vars@,
            picked(vars@, picks@),
            c,
            id_map(*old(status)),
            listed_in(old(cycles)@),
            old(stack)@,
            depth,
        ),
        walk_grows(id_map(*old(status)), id_map(*final(status))),
        final(cycles)@.len() >= old(cycles)@.len(),
        final(cycles)@.len() == 0 ==> id_map(*final(status)).contains_key(c) && id_map(*final(status))[c] == DONE,
        final(cycles)@.len() == 0 ==> (forall|x: ClassId| #[trigger]
            id_map(*old(status)).contains_key(x) && id_map(*old(status))[x] == DONE ==> final(ranks)@.0[x] == old(ranks)@.0[x]),
        final(ranks)@.1 >= old(ranks)@.1,
    decreases
            Set::new(|x: ClassId| x < vars.size()).difference(id_map(*old(status)).dom()).len(),
{
    let ghost p = vars@;
    let ghost n = vars.size();
    let ghost sel = picked(p, picks@);
    let ghost known = Set::new(|x: ClassId| x < n);
    let ghost status0 = id_map(*status);
    let ghost stack0 = stack@;
    let ghost ranks0 = ranks@;
    let ghost cycles0 = cycles@;
    proof {
        lemma_below_finite(n);
        lemma_picked(p, n, picks@);
        assert(p.classes.contains_key(c));
        assert(c < n);
    }
    match id_map_get(status, c) {
        Some(s) => {
            if s == DOING {
                let cycle: Vec<ClassId> = tail_from(stack, c);
                proof {
                    assert(stack0.contains(c));
                    let k = choose|k: int|
                        0 <= k < stack0.len() && #[trigger] stack0[k] == c && cycle@ == stack0.skip(
                            k,
                        );
                    assert(stack0.index_of(c) == k);
                    assert(is_cycle(p, sel, cycle@)) by {
                        assert(cycle@[0] == c);
                        assert(cycle@.last() == stack0.last());
                        assert forall|i: int| 0 <= i < cycle@.len() implies is_used(
                            p,
                            sel,
                            #[trigger] cycle@[i],
                        ) by {
                            assert(stack0.contains(stack0[k + i]));
                            assert(status0.contains_key(stack0[k + i]));
                        }
                        assert forall|i: int| 0 <= i < cycle@.len() - 1 implies step(
                            p,
                            sel,
                            #[trigger] cycle@[i],
                            cycle@[i + 1],
                        ) by {
                            assert(step(p, sel, stack0[k + i], stack0[k + i + 1]));
                        }
                    }
                }
                cycles.push(cycle);
                proof {
                    assert(listed_in(cycles@) =~= listed_in(cycles0).push(
                        stack0.skip(stack0.index_of(c)),
                    ));
                    assert forall|i: int| 0 <= i < cycles@.len() implies is_cycle(
                        p,
                        sel,
                        (#[trigger] cycles@[i])@,
                    ) by {
                        if i < cycles0.len() {
                            assert(is_cycle(p, sel, cycles0[i]@));
                        }
                    }
                }
            } else {
                assert(status0.contains_key(c));
            }
        },
        None => {
            if cycles.len() > CYCLE_LIMIT {
                return ;
            }
            id_map_insert(status, c, DOING);
            stack.push(c);
            let ghost status1 = id_map(*status);
            let ghost stack1 = stack@;
            proof {
                assert(stack1[stack0.len() as int] == c);
                assert(!stack0.contains(c));
                assert forall|x: ClassId| #[trigger] stack1.contains(x) <==> stack0.contains(x) || x
                    == c by {
                    if stack0.contains(x) {
                        let j = choose|j: int| 0 <= j < stack0.len() && stack0[j] == x;
                        assert(stack1[j] == x);
                    }
                }
                assert forall|i: int| 0 <= i < stack1.len() - 1 implies step(
                    p,
                    sel,
                    #[trigger] stack1[i],
                    stack1[i + 1],
                ) by {
                    if i < stack0.len() - 1 {
                        assert(step(p, sel, stack0[i], stack0[i + 1]));
                    }
                }
                assert(walk_ok(p, sel, status1, cycles@, stack1, ranks@.0, ranks@.1));
                let left0 = known.difference(status0.dom());
                assert(left0.contains(c));
                assert(known.difference(status1.dom()) =~= left0.remove(c));
                assert(picks@[c as int] is Some);
            }
            if let Some(i) = picks[c] {
                let node: &NodeIlp = &vars.classes[c].nodes[i];
                let kids: &IndexSet<ClassId> = &node.children_classes;
                let len: usize = id_set_len(kids);
                let ghost o = choice_of(p, c, sel[c]);
                proof {
                    assert(p.classes[c] == choices_in(vars.classes@[c as int].nodes@));
                    assert(o == node@);
                }
                let mut k: usize = 0;
                while k < len
                    invariant
                        vars.wf(),
                        p == vars@,
                        n == vars.size(),
                        known == Set::new(|x: ClassId| x < n),
                        known.finite(),
                        picks@.len() == n,
                        picks_fit(p, picks@),
                        sel == picked(p, picks@),
                        is_closed_under(p, sel),
                        sel.contains_key(c),
                        is_used(p, sel, c),
                        o == choice_of(p, c, sel[c]),
                        o.kids == id_set(*kids),
                        k <= len == o.kids.len(),
                        stack@ == stack1,
                        stack1.len() > 0,
                        stack1.last() == c,
                        walk_ok(p, sel, id_map(*status), cycles@, stack@, ranks@.0, ranks@.1),
                        walk_grows(status1, id_map(*status)),
                        known.difference(status0.dom()).len() < depth,
                        (id_map(*status), listed_in(cycles@)) == cycles_below(
                            p,
                            sel,
                            o.kids,
                            k as nat,
                            status1,
                            listed_in(cycles0),
                            stack1,
                            (depth - 1) as nat,
                        ),
                        cycles@.len() >= cycles0.len(),
                        cycles@.len() == 0 ==> forall|j: int|
                            0 <= j < k ==> id_map(*status).contains_key(#[trigger] o.kids[j])
                                && id_map(*status)[o.kids[j]] == DONE,
                        cycles@.len() == 0 ==> (forall|x: ClassId| #[trigger]
                            status1.contains_key(x) && status1[x] == DONE ==> ranks@.0[x]
                                == ranks0.0[x]),
                        ranks@.1 >= ranks0.1,
                        known.difference(status1.dom()).len() < known.difference(
                            status0.dom(),
                        ).len(),
                        known == Set::new(|x: ClassId| x < vars.size()),
                        status0 == id_map(*old(status)),
                    decreases len - k,
                {
                    if let Some(d) = id_set_get_index(kids, k) {
                        proof {
                            assert(o.kids[k as int] == d);
                            assert(choice_of(p, c, sel[c]).kids.contains(d));
                            assert(step(p, sel, c, d));
                            assert(sel.contains_key(d));
                            assert(is_used(p, sel, d)) by {
                                assert forall|classes: Set<ClassId>| #[trigger]
                                    closed_by_steps(p, sel, classes) implies classes.contains(
                                d) by {
                                    assert(classes.contains(c));
                                }
                            }
                            let now = known.difference(id_map(*status).dom());
                            let then = known.difference(status1.dom());
                            assert(now.subset_of(then)) by {
                                assert forall|x: ClassId| now.contains(x) implies then.contains(
                                x) by {
                                    if status1.contains_key(x) {
                                        assert(id_map(*status).contains_key(x));
                                    }
                                }
                            }
                            vstd::set_lib::lemma_len_subset(now, then);
                        }
                        let ghost before = id_map(*status);
                        let ghost ranks1 = ranks@;
                        cycle_dfs(
                            vars,
                            picks,
                            d,
                            status,
                            cycles,
                            stack,
                            Ghost((depth - 1) as nat),
                            ranks,
                        );
                        proof {
                            let after = id_map(*status);
                            assert forall|x: ClassId| #[trigger] status1.contains_key(x) implies after.contains_key(
                                x,
                            ) && after[x] == status1[x] by {
                                assert(before.contains_key(x));
                            }
                            assert forall|x: ClassId|
                                after.contains_key(x) && !status1.contains_key(
                                    x,
                                ) implies #[trigger] after[x] == DONE by {
                                if before.contains_key(x) {
                                    assert(before[x] == DONE);
                                }
                            }
                            if cycles@.len() == 0 {
                                assert forall|j: int| 0 <= j < k implies after.contains_key(
                                    #[trigger] o.kids[j],
                                ) && after[o.kids[j]] == DONE by {
                                    assert(before.contains_key(o.kids[j]));
                                }
                                assert forall|x: ClassId| #[trigger]
                                    status1.contains_key(x) && status1[x] == DONE implies ranks@.0[x]
                                    == ranks0.0[x] by {
                                    assert(before.contains_key(x) && before[x] == DONE);
                                }
                            }
                        }
                    }
                    k += 1;
                }
                let ghost status2 = id_map(*status);
                let ghost ranks2 = ranks@;
                stack.pop();
                id_map_insert(status, c, DONE);
                *ranks = Ghost((ranks2.0.insert(c, ranks2.1), ranks2.1 + 1));
                proof {
                    let status3 = id_map(*status);
                    assert(stack@ =~= stack0);
                    assert(status1.contains_key(c));
                    assert(status2[c] == DOING);
                    assert forall|x: ClassId| #[trigger] stack0.contains(x) <==> status3.contains_key(
                        x,
                    ) && status3[x] == DOING by {
                        assert(stack1.contains(x) <==> stack0.contains(x) || x == c);
                        assert(stack1.contains(x) <==> status2.contains_key(x) && status2[x]
                            == DOING);
                    }
                    assert(walk_grows(status0, status3)) by {
                        assert forall|x: ClassId| #[trigger] status0.contains_key(x) implies status3.contains_key(
                            x,
                        ) && status3[x] == status0[x] by {
                            assert(status1.contains_key(x) && status1[x] == status0[x]);
                        }
                        assert forall|x: ClassId|
                            status3.contains_key(x) && !status0.contains_key(
                                x,
                            ) implies #[trigger] status3[x] == DONE by {
                            if x != c {
                                assert(!status1.contains_key(x));
                                assert(status2[x] == DONE);
                            }
                        }
                    }
                    if cycles@.len() == 0 {
                        assert forall|x: ClassId, d: ClassId|
                            status3.contains_key(x) && status3[x] == DONE && #[trigger] step(
                                p,
                                sel,
                                x,
                                d,
                            ) implies status3.contains_key(d) && status3[d] == DONE && ranks@.0[d]
                            < ranks@.0[x] by {
                            if x == c {
                                let j = choose|j: int| 0 <= j < o.kids.len() && o.kids[j] == d;
                                assert(status2.contains_key(o.kids[j]));
                                assert(status2[d] == DONE);
                                assert(d != c);
                            } else {
                                assert(status2.contains_key(x) && status2[x] == DONE);
                                assert(status2[d] == DONE);
                                assert(d != c);
                            }
                        }
                        assert forall|x: ClassId| #[trigger]
                            status0.contains_key(x) && status0[x] == DONE implies ranks@.0[x]
                            == ranks0.0[x] by {
                            assert(status1.contains_key(x) && status1[x] == DONE);
                            assert(x != c);
                        }
                    }
                }
            }
        },
    }
}

/// The cycles that a depth-first walk from the roots closes, in the order it
/// does. There is none if and only if part of the choices is a solution.
pub(crate) fn find_cycles_in_result(vars: &Vars, picks: &Vec<Option<usize>>) -> (r: Vec<
    Vec<ClassId>,
>)
    requires
        vars.wf(),
        picks@.len() == vars.size(),
        picks_fit(vars@, picks@),
        is_closed_under(vars@, picked(vars@, picks@)),
    ensures
        listed_in(r@) == cycles_of(
            vars@,
            picked(vars@, picks@),
            vars.size(),
            vars@.roots.len(),
        ).1,
        forall|i: int|
            0 <= i < r@.len() ==> is_cycle(
                vars@,
                picked(vars@, picks@),
                (#[trigger] r@[i])@,
            ),
        r@.len() == 0 <==> holds_part(vars@, picked(vars@, picks@)),
{
    let ghost p = vars@;
    let ghost n = vars.size();
    let ghost sel = picked(p, picks@);
    let mut status: IndexMap<ClassId, usize> = id_map_new();
    let mut cycles: Vec<Vec<ClassId>> = Vec::new();
    let mut stack: Vec<ClassId> = Vec::new();
    let mut ranks: Ghost<(Map<ClassId, nat>, nat)> = Ghost((Map::empty(), 0));
    let mut i: usize = 0;
    proof {
        assert forall|c: ClassId| !#[trigger] stack@.contains(c) by {}
        assert(stack@ =~= Seq::empty());
        assert(listed_in(cycles@) =~= Seq::empty());
    }
    while i < vars.roots.len()
        invariant
            vars.wf(),
            p == vars@,
            n == vars.size(),
            picks@.len() == n,
            picks_fit(p, picks@),
            sel == picked(p, picks@),
            is_closed_under(p, sel),
            i <= p.roots.len(),
            stack@ == Seq::<ClassId>::empty(),
            (id_map(status), listed_in(cycles@)) == cycles_of(p, sel, n, i as nat),
            walk_ok(p, sel, id_map(status), cycles@, stack@, ranks@.0, ranks@.1),
            cycles@.len() == 0 ==> forall|k: int|
                0 <= k < i ==> id_map(status).contains_key(#[trigger] p.roots[k]) && id_map(
                    status,
                )[p.roots[k]] == DONE,
        decreases p.roots.len() - i,
    {
        let root: ClassId = vars.roots[i];
        proof {
            assert(p.roots.contains(root));
            assert(sel.contains_key(root));
            assert(is_used(p, sel, root));
        }
        let ghost before = id_map(status);
        proof {
            let known = Set::new(|x: ClassId| x < n);
            lemma_below_finite(n);
            vstd::set_lib::lemma_len_subset(known.difference(before.dom()), known);
        }
        cycle_dfs(
            vars,
            picks,
            root,
            &mut status,
            &mut cycles,
            &mut stack,
            Ghost(n + 1),
            &mut ranks,
        );
        proof {
            if cycles@.len() == 0 {
                assert forall|k: int| 0 <= k < i implies id_map(status).contains_key(
                    #[trigger] p.roots[k],
                ) && id_map(status)[p.roots[k]] == DONE by {
                    assert(before.contains_key(p.roots[k]));
                }
            }
        }
        i += 1;
    }
    proof {
        if cycles@.len() == 0 {
            let st = id_map(status);
            let part = Map::new(|c: ClassId| st.contains_key(c), |c: ClassId| sel[c]);
            lemma_picked(p, n, picks@);
            assert forall|c: ClassId| #[trigger] st.contains_key(c) implies st[c] == DONE
                && sel.contains_key(c) by {
                if st[c] == DOING {
                    assert(stack@.contains(c));
                }
            }
            assert(solves_with(p, part, ranks@.0)) by {
                assert forall|r: ClassId| #[trigger] p.roots.contains(r) implies part.contains_key(
                r) by {
                    let k = choose|k: int| 0 <= k < p.roots.len() && p.roots[k] == r;
                    assert(st.contains_key(p.roots[k]));
                }
                assert forall|c: ClassId| #[trigger] part.contains_key(c) implies p.classes.contains_key(
                    c,
                ) && offers(p.classes[c], part[c]) by {
                    assert(st.contains_key(c));
                    assert(sel.contains_key(c));
                }
                assert forall|c: ClassId, d: ClassId|
                    part.contains_key(c) && #[trigger] choice_of(p, c, part[c]).kids.contains(
                        d,
                    ) implies part.contains_key(d) && ranks@.0[d] < ranks@.0[c] by {
                    assert(st.contains_key(c) && st[c] == DONE);
                    assert(step(p, sel, c, d));
                }
            }
            assert(is_part(part, sel)) by {
                assert forall|c: ClassId| #[trigger] part.contains_key(c) implies sel.contains_key(c)
                    && sel[c] == part[c] by {
                    assert(st.contains_key(c));
                }
            }
            assert(solves(p, part));
        } else {
            assert(is_cycle(p, sel, cycles@[0]@));
            if holds_part(p, sel) {
                let part = choose|part: Map<ClassId, NodeId>|
                    is_part(part, sel) && #[trigger] solves(p, part);
                lemma_no_cycle(p, sel, part, cycles@[0]@);
            }
        }
    }
    cycles
}

} // verus!
