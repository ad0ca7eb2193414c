//! Classes that only one class needs.
use crate::collections::{
    id_keys, id_map, id_map_get, id_map_get_index, id_map_insert, id_map_len, id_map_new, id_set,
    id_set_contains, id_set_get_index, id_set_insert, id_set_len, id_set_new,
};
use crate::egraph::ClassId;
use crate::extract::faster_ilp_cbc::problem::{choices_in, Choice, NodeIlp, Problem, Vars};
use crate::extract::faster_ilp_cbc::reach::needs;
use crate::milp::stage::noted;
use indexmap::{IndexMap, IndexSet};
use vstd::prelude::*;

verus! {

/// Class `c`, and no other, has a choice that needs class `d`.
pub open spec fn sole_parent(p: Problem, d: ClassId, c: ClassId) -> bool {
    &&& p.classes.contains_key(c)
    &&& needs(p.classes[c], d)
    &&& forall|x: ClassId| #[trigger]
        p.classes.contains_key(x) && needs(p.classes[x], d) ==> x == c
}

/// `order` with those of the first `k` of `kids` appended that are new.
pub open spec fn note_kids(order: Seq<ClassId>, kids: Seq<ClassId>, k: nat) -> Seq<ClassId>
    decreases k,
{
    if k == 0 {
        order
    } else {
        noted(note_kids(order, kids, (k - 1) as nat), kids[k - 1])
    }
}

/// `order` with what the first `i` choices need appended.
pub open spec fn note_list(order: Seq<ClassId>, list: Seq<Choice>, i: nat) -> Seq<ClassId>
    decreases i,
{
    if i == 0 {
        order
    } else {
        note_kids(
            note_list(order, list, (i - 1) as nat),
            list[i - 1].kids,
            list[i - 1].kids.len(),
        )
    }
}

/// What the first `c` classes need, in the order it is first met.
pub open spec fn kid_order(p: Problem, c: nat) -> Seq<ClassId>
    decreases c,
{
    if c == 0 {
        Seq::empty()
    } else {
        let before = kid_order(p, (c - 1) as nat);
        let list = p.classes[(c - 1) as ClassId];
        if p.classes.contains_key((c - 1) as ClassId) {
            note_list(before, list, list.len())
        } else {
            before
        }
    }
}

/// Some class is the only one that needs class `d`.
pub open spec fn has_sole_parent(p: Problem, d: ClassId) -> bool {
    exists|c: ClassId| sole_parent(p, d, c)
}

/// The class that alone needs class `d`.
pub open spec fn parent_of(p: Problem, d: ClassId) -> ClassId {
    choose|c: ClassId| sole_parent(p, d, c)
}

/// Those of the first `k` of `order` that only one class needs, with it.
pub open spec fn pairs_in(p: Problem, order: Seq<ClassId>, k: nat) -> Seq<(ClassId, ClassId)>
    decreases k,
{
    if k == 0 {
        Seq::empty()
    } else if has_sole_parent(p, order[k - 1]) {
        pairs_in(p, order, (k - 1) as nat).push((order[k - 1], parent_of(p, order[k - 1])))
    } else {
        pairs_in(p, order, (k - 1) as nat)
    }
}

/// The classes that only one class needs, with that class.
pub open spec fn single_parents(p: Problem, n: nat) -> Seq<(ClassId, ClassId)> {
    pairs_in(p, kid_order(p, n), kid_order(p, n).len())
}

pub proof fn lemma_sole_parent(p: Problem, d: ClassId, c: ClassId)
    requires
        sole_parent(p, d, c),
    ensures
        parent_of(p, d) == c,
        has_sole_parent(p, d),
{
    let x = parent_of(p, d);
    assert(sole_parent(p, d, x));
    assert(p.classes.contains_key(x));
}

/// Every pair is a class and the only one that needs it.
pub proof fn lemma_pairs(p: Problem, order: Seq<ClassId>, k: nat, i: int)
    requires
        0 <= i < pairs_in(p, order, k).len(),
    ensures
        sole_parent(p, pairs_in(p, order, k)[i].0, pairs_in(p, order, k)[i].1),
    decreases k,
{
    let d = order[k - 1];
    let before = pairs_in(p, order, (k - 1) as nat);
    if has_sole_parent(p, d) && i == before.len() {
        let c = choose|c: ClassId| sole_parent(p, d, c);
        lemma_sole_parent(p, d, c);
    } else {
        lemma_pairs(p, order, (k - 1) as nat, i);
    }
}

/// Some of the first `i` choices, or one of the first `k` classes that the
/// next needs.
pub open spec fn met(list: Seq<Choice>, i: int, k: int, d: ClassId) -> bool {
    ||| exists|j: int| 0 <= j < i && (#[trigger] list[j]).kids.contains(d)
    ||| exists|m: int| 0 <= m < k && #[trigger] list[i].kids[m] == d
}

/// Notes what class `c` needs: its first parent, and whether it has another.
fn note_class(
    nodes: &Vec<NodeIlp>,
    c: ClassId,
    first: &mut IndexMap<ClassId, ClassId>,
    shared: &mut IndexSet<ClassId>,
)
    requires
        forall|d: ClassId| #[trigger]
            id_keys(*old(first)).contains(d) <==> id_map(*old(first)).contains_key(d),
    ensures
        id_keys(*final(first)) == note_list(
            id_keys(*old(first)),
            choices_in(nodes@),
            nodes@.len(),
        ),
        forall|d: ClassId| #[trigger]
            id_keys(*final(first)).contains(d) <==> id_map(*final(first)).contains_key(d),
        forall|d: ClassId| #[trigger]
            id_map(*final(first)).contains_key(d) <==> id_map(*old(first)).contains_key(d) || needs(
                choices_in(nodes@),
                d,
            ),
        forall|d: ClassId| #[trigger]
            id_map(*final(first)).contains_key(d) ==> id_map(*final(first))[d] == (if id_map(
                *old(first),
            ).contains_key(d) {
                id_map(*old(first))[d]
            } else {
                c
            }),
        forall|d: ClassId| #[trigger]
            id_set(*final(shared)).contains(d) <==> id_set(*old(shared)).contains(d) || (needs(
                choices_in(nodes@),
                d,
            ) && id_map(*old(first)).contains_key(d) && id_map(*old(first))[d] != c),
{
    let ghost list = choices_in(nodes@);
    let ghost order0 = id_keys(*first);
    let ghost first0 = id_map(*first);
    let ghost shared0 = id_set(*shared);
    let mut i: usize = 0;
    while i < nodes.len()
        invariant
            list == choices_in(nodes@),
            i <= nodes@.len(),
            id_keys(*first) == note_list(order0, list, i as nat),
            forall|d: ClassId| #[trigger]
                id_keys(*first).contains(d) <==> id_map(*first).contains_key(d),
            forall|d: ClassId| #[trigger]
                id_map(*first).contains_key(d) <==> first0.contains_key(d) || met(
                    list,
                    i as int,
                    0,
                    d,
                ),
            forall|d: ClassId| #[trigger]
                id_map(*first).contains_key(d) ==> id_map(*first)[d] == (if first0.contains_key(d) {
                    first0[d]
                } else {
                    c
                }),
            forall|d: ClassId| #[trigger]
                id_set(*shared).contains(d) <==> shared0.contains(d) || (met(list, i as int, 0, d)
                    && first0.contains_key(d) && first0[d] != c),
        decreases nodes@.len() - i,
    {
        let kids: &IndexSet<ClassId> = &nodes[i].children_classes;
        let ghost o = list[i as int];
        assert(o.kids == id_set(*kids));
        let ghost order1 = id_keys(*first);
        let len: usize = id_set_len(kids);
        let mut k: usize = 0;
        while k < len
            invariant
                list == choices_in(nodes@),
                i < nodes@.len(),
                o == list[i as int],
                o.kids == id_set(*kids),
                k <= len == o.kids.len(),
                id_keys(*first) == note_kids(order1, o.kids, k as nat),
                forall|d: ClassId| #[trigger]
                    id_keys(*first).contains(d) <==> id_map(*first).contains_key(d),
                forall|d: ClassId| #[trigger]
                    id_map(*first).contains_key(d) <==> first0.contains_key(d) || met(
                        list,
                        i as int,
                        k as int,
                        d,
                    ),
                forall|d: ClassId| #[trigger]
                    id_map(*first).contains_key(d) ==> id_map(*first)[d] == (
                    if first0.contains_key(d) {
                        first0[d]
                    } else {
                        c
                    }),
                forall|d: ClassId| #[trigger]
                    id_set(*shared).contains(d) <==> shared0.contains(d) || (met(
                        list,
                        i as int,
                        k as int,
                        d,
                    ) && first0.contains_key(d) && first0[d] != c),
            decreases len - k,
        {
            if let Some(d) = id_set_get_index(kids, k) {
                let ghost before = id_keys(*first);
                let ghost map1 = id_map(*first);
                let ghost set1 = id_set(*shared);
                assert(o.kids[k as int] == d);
                proof {
                    assert forall|x: ClassId| met(list, i as int, k + 1, x) <==> met(
                        list,
                        i as int,
                        k as int,
                        x,
                    ) || x == d by {
                        if met(list, i as int, k + 1, x) && !met(list, i as int, k as int, x) {
                            let m = choose|m: int|
                                0 <= m < k + 1 && #[trigger] list[i as int].kids[m] == x;
                        }
                        if x == d {
                            assert(list[i as int].kids[k as int] == x);
                        }
                        if met(list, i as int, k as int, x) {
                            if exists|m: int|
                                0 <= m < k && #[trigger] list[i as int].kids[m] == x {
                                let m = choose|m: int|
                                    0 <= m < k && #[trigger] list[i as int].kids[m] == x;
                                assert(list[i as int].kids[m] == x);
                            }
                        }
                    }
                }
                match id_map_get(first, d) {
                    None => {
                        id_map_insert(first, d, c);
                        proof {
                            lemma_pushed(before, d);
                        }
                    },
                    Some(parent) => {
                        if parent != c {
                            id_set_insert(shared, d);
                            proof {
                                lemma_pushed(set1, d);
                            }
                        }
                    },
                }
            }
            k += 1;
        }
        proof {
            assert forall|d: ClassId| met(list, i + 1, 0, d) <==> met(
                list,
                i as int,
                len as int,
                d,
            ) by {
                if met(list, i + 1, 0, d) {
                    let j = choose|j: int| 0 <= j < i + 1 && (#[trigger] list[j]).kids.contains(d);
                    if j == i {
                        let m = choose|m: int| 0 <= m < o.kids.len() && o.kids[m] == d;
                        assert(list[i as int].kids[m] == d);
                    } else {
                        assert(list[j].kids.contains(d));
                    }
                }
                if met(list, i as int, len as int, d) {
                    if exists|m: int|
                        0 <= m < len && #[trigger] list[i as int].kids[m] == d {
                        assert(list[i as int].kids.contains(d));
                    } else {
                        let j = choose|j: int| 0 <= j < i && (#[trigger] list[j]).kids.contains(d);
                        assert(list[j].kids.contains(d));
                    }
                }
            }
        }
        i += 1;
    }
    proof {
        assert forall|d: ClassId| met(list, i as int, 0, d) <==> needs(list, d) by {}
    }
}

proof fn lemma_pushed(s: Seq<ClassId>, d: ClassId)
    ensures
        forall|x: ClassId| #[trigger] s.push(d).contains(x) <==> s.contains(x) || x == d,
{
    assert forall|x: ClassId| #[trigger] s.push(d).contains(x) <==> s.contains(x) || x == d by {
        if s.contains(x) {
            let j = choose|j: int| 0 <= j < s.len() && s[j] == x;
            assert(s.push(d)[j] == x);
        }
        if x == d {
            assert(s.push(d)[s.len() as int] == x);
        }
    }
}

/// One of the first `c` classes needs class `d`.
pub open spec fn needed_before(p: Problem, c: int, d: ClassId) -> bool {
    exists|x: ClassId| x < c && #[trigger] p.classes.contains_key(x) && needs(p.classes[x], d)
}

/// One of the first `c` classes other than `y` needs class `d`.
pub open spec fn needed_besides(p: Problem, c: int, d: ClassId, y: ClassId) -> bool {
    exists|x: ClassId|
        x < c && x != y && #[trigger] p.classes.contains_key(x) && needs(p.classes[x], d)
}

/// [`single_parents`].
pub(crate) fn classes_with_single_parent(vars: &Vars) -> (r: Vec<(ClassId, ClassId)>)
    requires
        vars.wf(),
    ensures
        r@ == single_parents(vars@, vars.size()),
{
    let ghost p = vars@;
    let n: usize = vars.classes.len();
    let mut first: IndexMap<ClassId, ClassId> = id_map_new();
    let mut shared: IndexSet<ClassId> = id_set_new();
    let mut c: usize = 0;
    proof {
        assert forall|d: ClassId| !#[trigger] id_set(shared).contains(d) by {}
        assert forall|d: ClassId| !#[trigger] id_keys(first).contains(d) by {}
    }
    while c < n
        invariant
            vars.wf(),
            p == vars@,
            n == vars.size(),
            c <= n,
            id_keys(first) == kid_order(p, c as nat),
            forall|d: ClassId| #[trigger]
                id_keys(first).contains(d) <==> id_map(first).contains_key(d),
            forall|d: ClassId| #[trigger]
                id_map(first).contains_key(d) <==> needed_before(p, c as int, d),
            forall|d: ClassId| #[trigger]
                id_map(first).contains_key(d) ==> {
                    let y = id_map(first)[d];
                    y < c && p.classes.contains_key(y) && needs(p.classes[y], d)
                },
            forall|d: ClassId| #[trigger]
                id_set(shared).contains(d) <==> id_map(first).contains_key(d) && needed_besides(
                    p,
                    c as int,
                    d,
                    id_map(first)[d],
                ),
        decreases n - c,
    {
        let ghost first0 = id_map(first);
        let ghost shared0 = id_set(shared);
        if vars.live[c] {
            assert(p.classes.contains_key(c));
            let nodes: &Vec<NodeIlp> = &vars.classes[c].nodes;
            assert(p.classes[c] == choices_in(nodes@));
            note_class(nodes, c, &mut first, &mut shared);
            proof {
                assert forall|d: ClassId| #[trigger]
                    id_map(first).contains_key(d) <==> needed_before(p, c + 1, d) by {
                    if needed_before(p, c + 1, d) {
                        let x = choose|x: ClassId|
                            x < c + 1 && #[trigger] p.classes.contains_key(x) && needs(
                                p.classes[x],
                                d,
                            );
                        if x < c {
                            assert(needed_before(p, c as int, d));
                        }
                    }
                    if first0.contains_key(d) {
                        assert(needed_before(p, c as int, d));
                    }
                }
                assert forall|d: ClassId| #[trigger]
                    id_set(shared).contains(d) <==> id_map(first).contains_key(d) && needed_besides(
                        p,
                        c + 1,
                        d,
                        id_map(first)[d],
                    ) by {
                    let y = id_map(first)[d];
                    if shared0.contains(d) {
                        assert(first0.contains_key(d));
                        assert(needed_besides(p, c as int, d, y));
                    }
                    if id_map(first).contains_key(d) && needed_besides(p, c + 1, d, y) {
                        let x = choose|x: ClassId|
                            x < c + 1 && x != y && #[trigger] p.classes.contains_key(x) && needs(
                                p.classes[x],
                                d,
                            );
                        if x < c {
                            assert(needed_before(p, c as int, d));
                            assert(first0.contains_key(d));
                            assert(needed_besides(p, c as int, d, y));
                        } else {
                            assert(first0.contains_key(d));
                        }
                    }
                }
            }
        } else {
            proof {
                assert(!p.classes.contains_key(c));
                assert forall|d: ClassId| needed_before(p, c + 1, d) == needed_before(
                    p,
                    c as int,
                    d,
                ) by {}
                assert forall|d: ClassId, y: ClassId|
                    needed_besides(p, c + 1, d, y) == needed_besides(p, c as int, d, y) by {}
            }
        }
        c += 1;
    }
    let ghost order = kid_order(p, n as nat);
    let mut pairs: Vec<(ClassId, ClassId)> = Vec::new();
    let len: usize = id_map_len(&first);
    let mut k: usize = 0;
    while k < len
        invariant
            vars.wf(),
            p == vars@,
            n == vars.size(),
            order == kid_order(p, n as nat),
            order == id_keys(first),
            k <= len == order.len(),
            forall|d: ClassId| #[trigger]
                id_keys(first).contains(d) <==> id_map(first).contains_key(d),
            forall|d: ClassId| #[trigger]
                id_map(first).contains_key(d) ==> {
                    let y = id_map(first)[d];
                    y < n && p.classes.contains_key(y) && needs(p.classes[y], d)
                },
            forall|d: ClassId| #[trigger]
                id_set(shared).contains(d) <==> id_map(first).contains_key(d) && needed_besides(
                    p,
                    n as int,
                    d,
                    id_map(first)[d],
                ),
            pairs@ == pairs_in(p, order, k as nat),
        decreases len - k,
    {
        if let Some((child, parent)) = id_map_get_index(&first, k) {
            proof {
                assert(order[k as int] == child);
                assert(id_map(first).contains_key(child));
                assert(id_map(first)[child] == parent);
            }
            if !id_set_contains(&shared, child) {
                proof {
                    assert(sole_parent(p, child, parent)) by {
                        assert forall|x: ClassId| #[trigger]
                            p.classes.contains_key(x) && needs(
                                p.classes[x],
                                child,
                            ) implies x == parent by {
                            if x != parent {
                                assert(needed_besides(p, n as int, child, parent));
                            }
                        }
                    }
                    lemma_sole_parent(p, child, parent);
                }
                pairs.push((child, parent));
            } else {
                proof {
                    assert(!has_sole_parent(p, child)) by {
                        if has_sole_parent(p, child) {
                            let y = choose|y: ClassId| sole_parent(p, child, y);
                            assert(y == parent);
                            let x = choose|x: ClassId|
                                x < n && x != parent && #[trigger] p.classes.contains_key(x)
                                    && needs(p.classes[x], child);
                            assert(x == y);
                        }
                    }
                }
            }
        }
        k += 1;
    }
    pairs
}

} // verus!
