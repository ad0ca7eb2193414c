//! Deciding classes that cost nothing and need nothing.
use crate::collections::{
    fx_set_contains, fx_set_insert, id_set, id_set_get_index, id_set_insert, id_set_len, id_set_new,
};
use crate::egraph::{ClassId, NodeId};
use crate::extract::faster_ilp_cbc::problem::{
    attains, choice_of, choices_in, class_price, decisions_kept, drawn_from, holds_solution,
    lemma_offered, lemma_place, lemma_price_below, lemma_simplifies_itself, listed, offers, place, price,
    simplifies, solves, solves_with, sound, sound_class, Choice, NodeIlp, Problem, Vars,
};
use crate::extract::faster_ilp_cbc::prune::has_id;
use crate::extract::faster_ilp_cbc::Config;
use indexmap::IndexSet;
use rustc_hash::FxHashSet;
use vstd::prelude::*;

verus! {

/// Class `c` is no root and has one choice, which costs nothing and needs
/// nothing.
pub open spec fn is_free(p: Problem, c: ClassId) -> bool {
    &&& p.classes.contains_key(c)
    &&& p.classes[c].len() == 1
    &&& p.classes[c][0].kids.len() == 0
    &&& p.classes[c][0].cost == 0
    &&& !p.roots.contains(c)
}

/// Those of the first `k` of `kids` that are not free.
pub open spec fn unfree(p: Problem, kids: Seq<ClassId>, k: nat) -> Seq<ClassId>
    decreases k,
{
    if k == 0 {
        Seq::empty()
    } else if is_free(p, kids[k - 1]) {
        unfree(p, kids, (k - 1) as nat)
    } else {
        unfree(p, kids, (k - 1) as nat).push(kids[k - 1])
    }
}

/// A choice without the free classes it needs.
pub open spec fn unlinked(p: Problem, o: Choice) -> Choice {
    Choice { kids: unfree(p, o.kids, o.kids.len()), ..o }
}

pub open spec fn unlinked_list(p: Problem, list: Seq<Choice>) -> Seq<Choice> {
    Seq::new(list.len(), |i: int| unlinked(p, list[i]))
}

/// The choices for the free classes.
pub open spec fn free_choices(p: Problem) -> Map<ClassId, NodeId> {
    Map::new(|c: ClassId| is_free(p, c), |c: ClassId| p.classes[c][0].node)
}

/// The problem with the free classes decided.
pub open spec fn freed(p: Problem) -> Problem {
    Problem {
        classes: Map::new(
            |c: ClassId| p.classes.contains_key(c) && !is_free(p, c),
            |c: ClassId| unlinked_list(p, p.classes[c]),
        ),
        decided: p.decided.union_prefer_right(free_choices(p)),
        ..p
    }
}

impl Vars {
    /// Replaces what a node needs.
    pub(crate) fn set_kids(&mut self, c: ClassId, i: usize, kids: IndexSet<ClassId>)
        requires
            old(self).live@.len() == old(self).classes@.len(),
            old(self).has(c),
            i < old(self).classes@[c as int].nodes@.len(),
        ensures
            final(self)@ == (Problem {
                classes: old(self)@.classes.insert(
                    c,
                    old(self)@.classes[c].update(
                        i as int,
                        Choice { kids: id_set(kids), ..old(self)@.classes[c][i as int] },
                    ),
                ),
                ..old(self)@
            }),
            final(self).live@ == old(self).live@,
            final(self).same_columns(old(self)),
            final(self).classes@[c as int].nodes@.len() == old(
                self,
            ).classes@[c as int].nodes@.len(),
    {
        let ghost before = *self;
        self.classes[c].nodes[i].children_classes = kids;
        proof {
            assert forall|d: ClassId| d != c && before.has(d) implies #[trigger] self.classes@[d as int]
                == before.classes@[d as int] by {}
            let list = before@.classes[c].update(
                i as int,
                Choice { kids: id_set(kids), ..before@.classes[c][i as int] },
            );
            assert(choices_in(self.classes@[c as int].nodes@) =~= list);
            assert(self@.classes =~= before@.classes.insert(c, list));
        }
    }
}

/// The free classes.
fn find_free(vars: &Vars) -> (r: FxHashSet<ClassId>)
    requires
        vars.wf(),
    ensures
        forall|c: ClassId| #[trigger] r@.contains(c) <==> is_free(vars@, c),
{
    let mut zero: FxHashSet<ClassId> = FxHashSet::default();
    let mut c: usize = 0;
    while c < vars.classes.len()
        invariant
            vars.wf(),
            c <= vars.size(),
            forall|d: ClassId| #[trigger] zero@.contains(d) <==> d < c && is_free(vars@, d),
        decreases vars.size() - c,
    {
        if vars.live[c] {
            assert(vars@.classes.contains_key(c));
            let nodes: &Vec<NodeIlp> = &vars.classes[c].nodes;
            assert(vars@.classes[c] == choices_in(nodes@));
            if nodes.len() == 1 && id_set_len(&nodes[0].children_classes) == 0 && nodes[0].cost == 0
                && !has_id(&vars.roots, c) {
                assert(is_free(vars@, c));
                fx_set_insert(&mut zero, c);
            } else {
                assert(!is_free(vars@, c));
            }
        } else {
            assert(!is_free(vars@, c));
        }
        c += 1;
    }
    proof {
        assert forall|d: ClassId| is_free(vars@, d) implies #[trigger] zero@.contains(d) by {
            assert(vars@.classes.contains_key(d));
        }
    }
    zero
}

/// [`unfree`] of all.
fn drop_free(kids: &IndexSet<ClassId>, zero: &FxHashSet<ClassId>, Ghost(p): Ghost<Problem>) -> (r:
    IndexSet<ClassId>)
    requires
        forall|c: ClassId| #[trigger] zero@.contains(c) <==> is_free(p, c),
    ensures
        id_set(r) == unfree(p, id_set(*kids), id_set(*kids).len()),
{
    let mut rest: IndexSet<ClassId> = id_set_new();
    let len: usize = id_set_len(kids);
    let ghost all = id_set(*kids);
    let mut k: usize = 0;
    while k < len
        invariant
            forall|c: ClassId| #[trigger] zero@.contains(c) <==> is_free(p, c),
            all == id_set(*kids),
            all.no_duplicates(),
            k <= len == all.len(),
            id_set(rest) == unfree(p, all, k as nat),
        decreases len - k,
    {
        if let Some(d) = id_set_get_index(kids, k) {
            if !fx_set_contains(zero, d) {
                proof {
                    lemma_unfree(p, all, k as nat, d);
                    assert(!id_set(rest).contains(d)) by {
                        if all.take(k as int).contains(d) {
                            let j = choose|j: int| 0 <= j < k && all.take(k as int)[j] == d;
                            assert(all[j] == all[k as int]);
                        }
                    }
                }
                id_set_insert(&mut rest, d);
            }
        }
        k += 1;
    }
    rest
}

proof fn lemma_unfree(p: Problem, kids: Seq<ClassId>, k: nat, d: ClassId)
    requires
        k <= kids.len(),
    ensures
        unfree(p, kids, k).contains(d) <==> !is_free(p, d) && kids.take(k as int).contains(d),
        kids.no_duplicates() ==> unfree(p, kids, k).no_duplicates(),
    decreases k,
{
    if k > 0 {
        lemma_unfree(p, kids, (k - 1) as nat, d);
        let e = kids[k - 1];
        let before = unfree(p, kids, (k - 1) as nat);
        let head = kids.take(k - 1);
        assert(kids.take(k as int) =~= head.push(e));
        assert(head.push(e).contains(d) <==> head.contains(d) || d == e) by {
            if head.contains(d) {
                let j = choose|j: int| 0 <= j < head.len() && head[j] == d;
                assert(head.push(e)[j] == d);
            }
            if d == e {
                assert(head.push(e)[head.len() as int] == d);
            }
        }
        if !is_free(p, e) {
            assert(before.push(e).contains(d) <==> before.contains(d) || d == e) by {
                if before.contains(d) {
                    let j = choose|j: int| 0 <= j < before.len() && before[j] == d;
                    assert(before.push(e)[j] == d);
                }
                if d == e {
                    assert(before.push(e)[before.len() as int] == d);
                }
            }
        }
        if kids.no_duplicates() {
            lemma_unfree(p, kids, (k - 1) as nat, e);
            assert(!head.contains(e)) by {
                if head.contains(e) {
                    let j = choose|j: int| 0 <= j < head.len() && head[j] == e;
                    assert(kids[j] == kids[k - 1]);
                }
            }
            if !is_free(p, e) {
                assert(before.push(e).no_duplicates());
            }
        }
    }
}

/// What a choice without the free classes needs.
proof fn lemma_unlinked(p: Problem, o: Choice)
    requires
        o.kids.no_duplicates(),
    ensures
        forall|d: ClassId| #[trigger]
            unlinked(p, o).kids.contains(d) <==> o.kids.contains(d) && !is_free(p, d),
        unlinked(p, o).kids.no_duplicates(),
{
    assert(o.kids.take(o.kids.len() as int) =~= o.kids);
    assert forall|d: ClassId| #[trigger] unlinked(p, o).kids.contains(d) <==> o.kids.contains(d)
        && !is_free(p, d) by {
        lemma_unfree(p, o.kids, o.kids.len(), d);
    }
    lemma_unfree(p, o.kids, o.kids.len(), 0);
}

/// The first `k` classes without links to free classes.
pub open spec fn unlinked_to(p: Problem, k: nat) -> Map<ClassId, Seq<Choice>> {
    Map::new(
        |c: ClassId| p.classes.contains_key(c),
        |c: ClassId|
            if c < k {
                unlinked_list(p, p.classes[c])
            } else {
                p.classes[c]
            },
    )
}

/// Drops the links of class `c` to free classes.
fn unlink_class(
    vars: &mut Vars,
    c: ClassId,
    zero: &FxHashSet<ClassId>,
    Ghost(p): Ghost<Problem>,
)
    requires
        old(vars).live@.len() == old(vars).classes@.len(),
        old(vars).has(c),
        old(vars)@.classes[c] == p.classes[c],
        forall|d: ClassId| #[trigger] zero@.contains(d) <==> is_free(p, d),
    ensures
        final(vars)@ == (Problem {
            classes: old(vars)@.classes.insert(c, unlinked_list(p, p.classes[c])),
            ..old(vars)@
        }),
        final(vars).live@ == old(vars).live@,
        final(vars).same_columns(old(vars)),
{
    let ghost start = vars@;
    let ghost list = p.classes[c];
    let mut i: usize = 0;
    let len: usize = vars.classes[c].nodes.len();
    assert(start.classes.insert(c, list) =~= start.classes);
    while i < len
        invariant
            vars.live@.len() == vars.classes@.len(),
            vars.has(c),
            vars.live@ == old(vars).live@,
            vars.same_columns(old(vars)),
            forall|d: ClassId| #[trigger] zero@.contains(d) <==> is_free(p, d),
            i <= len == list.len(),
            vars.classes@[c as int].nodes@.len() == len,
            vars@.classes[c].len() == len,
            vars@ == (Problem {
                classes: start.classes.insert(c, vars@.classes[c]),
                ..start
            }),
            forall|k: int|
                0 <= k < len ==> #[trigger] vars@.classes[c][k] == (if k < i {
                    unlinked(p, list[k])
                } else {
                    list[k]
                }),
        decreases len - i,
    {
        let ghost before = vars@;
        assert(vars@.classes[c][i as int] == vars.classes@[c as int].nodes@[i as int]@);
        let rest: IndexSet<ClassId> = drop_free(
            &vars.classes[c].nodes[i].children_classes,
            zero,
            Ghost(p),
        );
        vars.set_kids(c, i, rest);
        proof {
            assert(vars@.classes =~= start.classes.insert(c, vars@.classes[c]));
        }
        i += 1;
    }
    assert(vars@.classes[c] =~= unlinked_list(p, list));
}

/// Decides every class that is no root and has only one node, of no cost and
/// without children, and drops all references to it.
///
/// Nothing better can be found for such a class, and whatever depends on it
/// gets it for nothing.
pub fn remove_single_zero_cost(vars: &mut Vars, config: &Config)
    requires
        old(vars).wf(),
    ensures
        final(vars)@ == (if config.remove_single_zero_cost {
            freed(old(vars)@)
        } else {
            old(vars)@
        }),
        final(vars).wf(),
        final(vars).same_columns(old(vars)),
        forall|bound: int| #[trigger]
            simplifies(old(vars)@, final(vars)@, old(vars).size(), bound),
{
    let ghost p = vars@;
    let ghost n = vars.size();
    if !config.remove_single_zero_cost {
        proof {
            assert forall|bound: int| #[trigger] simplifies(p, p, n, bound) by {
                lemma_simplifies_itself(p, n, bound);
            }
        }
        return ;
    }
    let zero: FxHashSet<ClassId> = find_free(vars);
    let mut c: usize = 0;
    assert(unlinked_to(p, 0) =~= p.classes);
    while c < vars.classes.len()
        invariant
            n == vars.size(),
            sound(p, n),
            vars.live@.len() == n,
            vars.live@ == old(vars).live@,
            vars.same_columns(old(vars)),
            c <= n,
            forall|d: ClassId| #[trigger] zero@.contains(d) <==> is_free(p, d),
            vars@ == (Problem { classes: unlinked_to(p, c as nat), ..p }),
        decreases n - c,
    {
        if vars.live[c] {
            assert(vars@.classes.contains_key(c));
            unlink_class(vars, c, &zero, Ghost(p));
            assert(vars@.classes =~= unlinked_to(p, (c + 1) as nat));
        } else {
            assert(!vars@.classes.contains_key(c));
            assert(unlinked_to(p, (c + 1) as nat) =~= unlinked_to(p, c as nat));
        }
        c += 1;
    }
    let ghost mid = vars@;
    proof {
        assert forall|d: ClassId| #[trigger] mid.classes.contains_key(d) implies mid.classes[d]
            == unlinked_list(p, p.classes[d]) by {}
    }
    c = 0;
    let ghost vars1 = *vars;
    assert(p.decided.union_prefer_right(
        Map::new(|d: ClassId| d < 0 && is_free(p, d), |d: ClassId| p.classes[d][0].node),
    ) =~= p.decided);
    while c < vars.classes.len()
        invariant
            n == vars.size(),
            vars.live@.len() == n,
            vars1.live@.len() == n,
            vars.classes@ == vars1.classes@,
            vars.roots@ == p.roots,
            vars1@ == mid,
            c <= n,
            forall|d: ClassId| #[trigger] zero@.contains(d) <==> is_free(p, d),
            forall|d: ClassId| is_free(p, d) ==> #[trigger] mid.classes.contains_key(d),
            forall|d: ClassId| #[trigger]
                mid.classes.contains_key(d) ==> mid.classes[d] == unlinked_list(p, p.classes[d]),
            forall|d: ClassId|
                d < n ==> #[trigger] vars.live@[d as int] == (vars1.live@[d as int] && !(d < c
                    && is_free(p, d))),
            vars.decided@ == p.decided.union_prefer_right(
                Map::new(|d: ClassId| d < c && is_free(p, d), |d: ClassId| p.classes[d][0].node),
            ),
        decreases n - c,
    {
        let ghost before = vars.decided@;
        if fx_set_contains(&zero, c) {
            proof {
                assert(is_free(p, c));
                assert(mid.classes.contains_key(c));
                assert(mid.classes[c] == choices_in(vars.classes@[c as int].nodes@));
                assert(mid.classes[c][0] == unlinked(p, p.classes[c][0]));
            }
            let member: NodeId = vars.classes[c].nodes[0].member;
            vars.decided.select(c, member);
            vars.live.set(c, false);
        }
        proof {
            assert(vars.decided@ =~= p.decided.union_prefer_right(
                Map::new(
                    |d: ClassId| d < c + 1 && is_free(p, d),
                    |d: ClassId| p.classes[d][0].node,
                ),
            ));
        }
        c += 1;
    }
    proof {
        assert(vars.decided@ =~= freed(p).decided) by {
            assert forall|d: ClassId| is_free(p, d) implies d < n by {}
        }
        assert(vars@.classes =~= freed(p).classes) by {
            assert forall|d: ClassId| vars@.classes.contains_key(d) <==> freed(
                p,
            ).classes.contains_key(d) by {
                if d < n {
                    assert(vars.live@[d as int] == (vars1.live@[d as int] && !is_free(p, d)));
                    assert(mid.classes.contains_key(d) <==> vars1.live@[d as int]);
                    assert(mid.classes.contains_key(d) <==> p.classes.contains_key(d));
                }
            }
            assert forall|d: ClassId| vars@.classes.contains_key(d) implies vars@.classes[d]
                == freed(p).classes[d] by {
                assert(vars.live@[d as int] == (vars1.live@[d as int] && !is_free(p, d)));
                assert(mid.classes.contains_key(d));
            }
        }
        assert forall|bound: int| #[trigger] simplifies(p, vars@, n, bound) by {
            lemma_freed(p, n, bound);
        }
        lemma_freed(p, n, 0);
    }
}

/// Free classes can be decided.
proof fn lemma_freed(p: Problem, n: nat, bound: int)
    requires
        sound(p, n),
    ensures
        sound(freed(p), n),
        simplifies(p, freed(p), n, bound),
{
    let q = freed(p);
    assert forall|c: ClassId| #[trigger] q.classes.contains_key(c) implies {
        &&& p.classes.contains_key(c)
        &&& c < n
        &&& q.classes[c].len() == p.classes[c].len()
        &&& forall|i: int|
            0 <= i < p.classes[c].len() ==> #[trigger] q.classes[c][i] == unlinked(
                p,
                p.classes[c][i],
            )
    } by {}
    assert forall|c: ClassId| #[trigger] q.classes.contains_key(c) implies c < n && sound_class(
        q,
        q.classes[c],
    ) by {
        let list = p.classes[c];
        let thin = q.classes[c];
        assert(sound_class(p, list));
        assert forall|i: int, j: int| 0 <= i < j < thin.len() implies (#[trigger] thin[i]).node != (
        #[trigger] thin[j]).node by {
            assert(list[i].node != list[j].node);
        }
        assert forall|i: int| 0 <= i < thin.len() implies crate::cost::is_weight(
            (#[trigger] thin[i]).cost,
        ) && thin[i].kids.no_duplicates() by {
            assert(crate::cost::is_weight(list[i].cost));
            lemma_unlinked(p, list[i]);
        }
        assert forall|i: int, d: ClassId|
            0 <= i < thin.len() && (#[trigger] thin[i].kids.contains(d)) implies q.classes.contains_key(
        d) by {
            assert(list[i].kids.no_duplicates());
            lemma_unlinked(p, list[i]);
            assert(list[i].kids.contains(d));
        }
    }
    assert forall|r: ClassId| #[trigger] q.roots.contains(r) implies q.classes.contains_key(r) by {
        assert(p.roots.contains(r));
    }
    assert forall|c: ClassId| #[trigger]
        q.decided.contains_key(c) implies !q.classes.contains_key(c) by {
        if p.decided.contains_key(c) {
        }
    }
    assert forall|c: ClassId, j: int|
        q.classes.contains_key(c) && 0 <= j < q.classes[c].len() implies listed(
        p.classes[c],
        #[trigger] q.classes[c][j],
    ) by {
        assert(q.classes[c][j] == unlinked(p, p.classes[c][j]));
    }
    assert forall|c: ClassId| #[trigger] q.decided.contains_key(c) implies (p.decided.contains_key(c)
        && p.decided[c] == q.decided[c]) || (p.classes.contains_key(c) && offers(
        p.classes[c],
        q.decided[c],
    )) by {
        if is_free(p, c) {
            assert(free_choices(p).contains_key(c));
            assert(p.classes[c][0].node == q.decided[c]);
        }
    }
    assert(decisions_kept(p.decided, q.decided)) by {
        assert forall|c: ClassId| #[trigger] p.decided.contains_key(c) implies q.decided.contains_key(
            c,
        ) && q.decided[c] == p.decided[c] by {
            assert(!is_free(p, c));
        }
    }
    assert forall|sel: Map<ClassId, NodeId>| #[trigger]
        solves(p, sel) && price(p, sel, n) <= bound implies attains(q, n, price(p, sel, n)) by {
        let rank = choose|rank: Map<ClassId, nat>| solves_with(p, sel, rank);
        let part = Map::new(
            |c: ClassId| sel.contains_key(c) && !is_free(p, c),
            |c: ClassId| sel[c],
        );
        assert forall|c: ClassId| #[trigger] part.contains_key(c) implies q.classes.contains_key(c)
            && offers(q.classes[c], part[c]) && choice_of(q, c, part[c]) == unlinked(
            p,
            choice_of(p, c, part[c]),
        ) by {
            assert(sel.contains_key(c));
            lemma_unlinked_choice(p, n, c, part[c]);
        }
        assert forall|c: ClassId, d: ClassId|
            part.contains_key(c) && #[trigger] choice_of(q, c, part[c]).kids.contains(
                d,
            ) implies part.contains_key(d) && rank[d] < rank[c] by {
            assert(sel.contains_key(c));
            lemma_offered(p.classes[c], sel[c]);
            lemma_unlinked(p, choice_of(p, c, sel[c]));
            assert(choice_of(p, c, sel[c]).kids.contains(d));
        }
        assert forall|r: ClassId| #[trigger] q.roots.contains(r) implies part.contains_key(r) by {
            assert(p.roots.contains(r));
        }
        assert(solves_with(q, part, rank));
        assert forall|c: ClassId| #[trigger] class_price(q, part, c) <= class_price(p, sel, c) by {
            crate::extract::faster_ilp_cbc::problem::lemma_class_price(p, sel, c, n);
        }
        lemma_price_below(q, part, p, sel, n);
        assert(solves(q, part));
    }
    assert forall|sel: Map<ClassId, NodeId>| #[trigger] solves(q, sel) implies holds_solution(
        p,
        n,
        sel,
        q.decided,
        price(q, sel, n),
    ) by {
        let rank = choose|rank: Map<ClassId, nat>| solves_with(q, sel, rank);
        let whole = sel.union_prefer_right(free_choices(p));
        let ranks = Map::new(
            |c: ClassId| true,
            |c: ClassId|
                if is_free(p, c) {
                    0nat
                } else {
                    rank[c] + 1
                },
        );
        assert forall|c: ClassId| #[trigger] sel.contains_key(c) implies p.classes.contains_key(c)
            && !is_free(p, c) && offers(p.classes[c], sel[c]) && choice_of(q, c, sel[c])
            == unlinked(p, choice_of(p, c, sel[c])) by {
            assert(q.classes.contains_key(c));
            lemma_offered(q.classes[c], sel[c]);
            let i = place(q.classes[c], sel[c]);
            assert(q.classes[c][i] == unlinked(p, p.classes[c][i]));
            lemma_place(p.classes[c], i);
        }
        assert forall|c: ClassId| is_free(p, c) implies offers(
            p.classes[c],
            #[trigger] whole[c],
        ) && choice_of(p, c, whole[c]) == p.classes[c][0] by {
            assert(free_choices(p).contains_key(c));
            lemma_place(p.classes[c], 0);
        }
        assert forall|c: ClassId, d: ClassId|
            whole.contains_key(c) && #[trigger] choice_of(p, c, whole[c]).kids.contains(
                d,
            ) implies whole.contains_key(d) && ranks[d] < ranks[c] by {
            if is_free(p, c) {
                assert(p.classes[c][0].kids.len() == 0);
            } else {
                assert(sel.contains_key(c));
                assert(whole[c] == sel[c]);
                lemma_offered(p.classes[c], sel[c]);
                lemma_unlinked(p, choice_of(p, c, sel[c]));
                if !is_free(p, d) {
                    assert(choice_of(q, c, sel[c]).kids.contains(d));
                } else {
                    assert(free_choices(p).contains_key(d));
                }
            }
        }
        assert forall|c: ClassId| #[trigger] whole.contains_key(c) implies p.classes.contains_key(c)
            && offers(p.classes[c], whole[c]) by {
            if is_free(p, c) {
            } else {
                assert(sel.contains_key(c));
            }
        }
        assert forall|r: ClassId| #[trigger] p.roots.contains(r) implies whole.contains_key(r) by {
            assert(q.roots.contains(r));
        }
        assert(solves_with(p, whole, ranks));
        assert forall|c: ClassId| #[trigger] class_price(p, whole, c) <= class_price(q, sel, c) by {
            if is_free(p, c) {
                assert(choice_of(p, c, whole[c]).cost == 0);
                assert(!sel.contains_key(c));
            } else if whole.contains_key(c) {
                assert(sel.contains_key(c));
            }
        }
        lemma_price_below(p, whole, q, sel, n);
        assert(drawn_from(whole, sel, q.decided)) by {
            assert forall|c: ClassId| #[trigger] whole.contains_key(c) implies (sel.contains_key(c)
                && sel[c] == whole[c]) || (q.decided.contains_key(c) && q.decided[c]
                == whole[c]) by {
                if is_free(p, c) {
                    assert(free_choices(p).contains_key(c));
                }
            }
        }
        assert(solves(p, whole));
    }
}

/// A choice for a class that is not free is still there, without its links to
/// free classes.
proof fn lemma_unlinked_choice(p: Problem, n: nat, c: ClassId, node: NodeId)
    requires
        sound(p, n),
        p.classes.contains_key(c),
        !is_free(p, c),
        offers(p.classes[c], node),
    ensures
        offers(freed(p).classes[c], node),
        choice_of(freed(p), c, node) == unlinked(p, choice_of(p, c, node)),
{
    let q = freed(p);
    let list = p.classes[c];
    lemma_offered(list, node);
    let i = place(list, node);
    let thin = q.classes[c];
    assert(thin[i] == unlinked(p, list[i]));
    assert(crate::extract::faster_ilp_cbc::problem::distinct_nodes(thin)) by {
        assert forall|a: int, b: int| 0 <= a < b < thin.len() implies (#[trigger] thin[a]).node != (
        #[trigger] thin[b]).node by {
            assert(thin[a] == unlinked(p, list[a]));
            assert(thin[b] == unlinked(p, list[b]));
            assert(list[a].node != list[b].node);
        }
    }
    lemma_place(thin, i);
}

} // verus!
