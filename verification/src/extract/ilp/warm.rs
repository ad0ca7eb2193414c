//! Handing a warm-start seed to the solver.
//!
//! A seed is complete and acyclic before it arrives. What remains is making it
//! a feasible point for the *whole* model, not just the selection binaries:
//!
//! * [`push_seed`] sets every auxiliary column too: the `1 - x` switches, the
//!   topological levels ([`topological_levels`]) and the arrival times. A
//!   solver that reads an unseeded continuous column as zero would otherwise
//!   see the level rows violated.
//! * [`arrival_times`] computes depth with the model's own recurrence
//!   (`T_c = d_n + max_cc T_cc`), so that the depth-budget check is done in the
//!   solver's arithmetic.
use crate::collections::{
    id_map, id_map_get, id_map_insert, id_map_new, id_set, id_set_insert, id_set_len, id_set_new,
    id_set_shift_remove, num_map, num_map_get, num_map_insert, num_map_new,
};
use crate::cost::{add_costs, larger, max_cost, saturate, saturate_wide, Cost, ONE};
use crate::egraph::{ClassId, EGraph, NodeId};
use crate::extract::ilp::model::{is_handle, is_member, member, members, vars_placed, IlpVars, Role};
use crate::extract::measure::{lemma_below_finite, lemma_reached_known};
use crate::extract::selection;
use crate::extract::selection::{
    acyclic, arrival, covers, edge, is_timing, latest_child, nodes_known, on_cycle, ranked,
    reaches, roots_known, valid, walk,
};
use crate::extract::ExtractionResult;
use crate::milp::stage::{Col, Staged};
use indexmap::{IndexMap, IndexSet};
use vstd::prelude::*;

verus! {

/// The classes of the e-graph, and the roots.
pub open spec fn field(g: EGraph, roots: Seq<ClassId>) -> Set<ClassId> {
    Set::new(|x: ClassId| x < g.classes@.len() || roots.contains(x))
}

/// There are finitely many, and no walk from the roots leaves them.
proof fn lemma_field(g: EGraph, sel: Map<ClassId, NodeId>, roots: Seq<ClassId>, c: ClassId)
    requires
        g.wf(),
        nodes_known(g, sel),
        reaches(g, sel, roots, c),
    ensures
        field(g, roots).finite(),
        field(g, roots).contains(c),
{
    let all = field(g, roots);
    let below = Set::new(|x: ClassId| x < g.classes@.len());
    lemma_below_finite(g.classes@.len());
    vstd::seq_lib::seq_to_set_is_finite(roots);
    assert(all =~= below.union(roots.to_set()));
    assert forall|a: ClassId, b: ClassId|
        all.contains(a) && #[trigger] edge(g, sel, a, b) implies all.contains(b) by {
        g.lemma_depends(sel[a], b);
    }
    selection::lemma_reaches_closed(g, sel, roots, all, c);
}

/// Why a seed has no arrival times.
#[derive(Debug, Clone, Copy, PartialEq, Eq)]
pub enum TimingError {
    /// The seed runs in a cycle through `class`.
    Cycle { class: ClassId },
    /// The seed has no choice for `class`.
    NoChoice { class: ClassId },
}

/// The timed classes have their arrival time and only timed children, of lower
/// rank.
pub open spec fn timed(
    g: EGraph,
    sel: Map<ClassId, NodeId>,
    roots: Seq<ClassId>,
    memo: Map<ClassId, Cost>,
    rank: Map<ClassId, nat>,
    clock: nat,
) -> bool {
    &&& forall|c: ClassId| #[trigger]
        memo.contains_key(c) ==> sel.contains_key(c) && reaches(g, sel, roots, c) && memo[c]
            == arrival(g, memo, sel[c]) && rank[c] < clock
    &&& forall|a: ClassId, b: ClassId|
        memo.contains_key(a) && #[trigger] edge(g, sel, a, b) ==> memo.contains_key(b) && rank[b]
            < rank[a]
}

/// Every class on the stack has `c` below it, and none is timed.
pub open spec fn stack_above(
    g: EGraph,
    sel: Map<ClassId, NodeId>,
    memo: Map<ClassId, Cost>,
    stack: Seq<ClassId>,
    c: ClassId,
) -> bool {
    forall|x: ClassId| #[trigger]
        stack.contains(x) ==> !memo.contains_key(x) && exists|n: nat|
            n > 0 && #[trigger] walk(g, sel, x, c, n)
}

/// What a depth-first walk from class `c`, no deeper than `depth` and below the
/// classes on `stack`, has timed, or the first thing wrong that it meets.
pub open spec fn times_from(
    g: EGraph,
    sel: Map<ClassId, NodeId>,
    c: ClassId,
    memo: Map<ClassId, Cost>,
    stack: Set<ClassId>,
    depth: nat,
) -> Result<Map<ClassId, Cost>, TimingError>
    decreases depth, 0nat,
{
    if memo.contains_key(c) {
        Ok(memo)
    } else if stack.contains(c) {
        Err(TimingError::Cycle { class: c })
    } else if !sel.contains_key(c) {
        Err(TimingError::NoChoice { class: c })
    } else if depth == 0 {
        Ok(memo)
    } else {
        let n = sel[c];
        match times_below(
            g,
            sel,
            n,
            g.nodes@[n as int].children@.len(),
            memo,
            stack.insert(c),
            (depth - 1) as nat,
        ) {
            Ok(below) => Ok(below.insert(c, arrival(g, below, n))),
            Err(why) => Err(why),
        }
    }
}

/// [`times_from`] the first `k` children of node `n` in turn.
pub open spec fn times_below(
    g: EGraph,
    sel: Map<ClassId, NodeId>,
    n: NodeId,
    k: nat,
    memo: Map<ClassId, Cost>,
    stack: Set<ClassId>,
    depth: nat,
) -> Result<Map<ClassId, Cost>, TimingError>
    decreases depth, k + 1,
{
    if k == 0 {
        Ok(memo)
    } else {
        match times_below(g, sel, n, (k - 1) as nat, memo, stack, depth) {
            Ok(before) => times_from(g, sel, g.child_class(n, k - 1), before, stack, depth),
            Err(why) => Err(why),
        }
    }
}

/// [`times_from`] the first `k` roots in turn.
pub open spec fn times_of(
    g: EGraph,
    sel: Map<ClassId, NodeId>,
    roots: Seq<ClassId>,
    k: nat,
) -> Result<Map<ClassId, Cost>, TimingError>
    decreases k,
{
    if k == 0 {
        Ok(Map::empty())
    } else {
        match times_of(g, sel, roots, (k - 1) as nat) {
            Ok(before) => times_from(
                g,
                sel,
                roots[k - 1],
                before,
                Set::empty(),
                field(g, roots).len() + 1,
            ),
            Err(why) => Err(why),
        }
    }
}

/// Where a walk ends with something wrong, a longer one does too.
proof fn lemma_times_stop(
    g: EGraph,
    sel: Map<ClassId, NodeId>,
    n: NodeId,
    k: nat,
    m: nat,
    memo: Map<ClassId, Cost>,
    stack: Set<ClassId>,
    depth: nat,
)
    requires
        k <= m,
        times_below(g, sel, n, k, memo, stack, depth) is Err,
    ensures
        times_below(g, sel, n, m, memo, stack, depth) == times_below(
            g,
            sel,
            n,
            k,
            memo,
            stack,
            depth,
        ),
    decreases m,
{
    if k < m {
        lemma_times_stop(g, sel, n, k, (m - 1) as nat, memo, stack, depth);
    }
}

proof fn lemma_roots_stop(
    g: EGraph,
    sel: Map<ClassId, NodeId>,
    roots: Seq<ClassId>,
    k: nat,
    m: nat,
)
    requires
        k <= m,
        times_of(g, sel, roots, k) is Err,
    ensures
        times_of(g, sel, roots, m) == times_of(g, sel, roots, k),
    decreases m,
{
    if k < m {
        lemma_roots_stop(g, sel, roots, k, (m - 1) as nat);
    }
}

/// Arrival time (critical-path delay) per class under `selection`, computed
/// with the recurrence that the model's rows encode:
///
/// ```text
/// T_c = delay(n_c) + max over child classes cc of n_c of T_cc      (0 if none)
/// ```
pub fn arrival_times(egraph: &EGraph, roots: &[ClassId], selection: &ExtractionResult) -> (r: Result<
    IndexMap<ClassId, Cost>,
    TimingError,
>)
    requires
        egraph.wf(),
        nodes_known(*egraph, selection@),
    ensures
        r is Ok <==> covers(*egraph, selection@, roots@) && acyclic(
            *egraph,
            selection@,
            roots@,
        ),
        r matches Ok(times) ==> is_timing(*egraph, selection@, roots@, num_map(times)) && forall|
            c: ClassId,
        | #[trigger]
            num_map(times).contains_key(c) <==> reaches(*egraph, selection@, roots@, c),
        r matches Err(why) ==> times_of(*egraph, selection@, roots@, roots@.len())
            == Err::<Map<ClassId, Cost>, TimingError>(why),
        r matches Err(TimingError::NoChoice { class }) ==> reaches(
            *egraph,
            selection@,
            roots@,
            class,
        ) && !selection@.contains_key(class),
        r matches Err(TimingError::Cycle { class }) ==> reaches(
            *egraph,
            selection@,
            roots@,
            class,
        ) && on_cycle(*egraph, selection@, class),
{
    let ghost g = *egraph;
    let ghost sel = selection@;
    let mut memo: IndexMap<ClassId, Cost> = num_map_new();
    let mut ranks: Ghost<(Map<ClassId, nat>, nat)> = Ghost((Map::empty(), 0));
    let mut i: usize = 0;
    while i < roots.len()
        invariant
            egraph.wf(),
            g == *egraph,
            sel == selection@,
            nodes_known(g, sel),
            i <= roots@.len(),
            times_of(g, sel, roots@, i as nat) == Ok::<Map<ClassId, Cost>, TimingError>(
                num_map(memo),
            ),
            timed(g, sel, roots@, num_map(memo), ranks@.0, ranks@.1),
            forall|k: int| 0 <= k < i ==> num_map(memo).contains_key(#[trigger] roots@[k]),
        decreases roots@.len() - i,
    {
        let root: ClassId = roots[i];
        proof {
            assert(roots@.contains(root));
            selection::lemma_reaches_root(g, sel, roots@, root);
        }
        let mut on_stack: IndexSet<ClassId> = id_set_new();
        let ghost before = num_map(memo);
        proof {
            lemma_field(g, sel, roots@, root);
            assert(id_set(on_stack).to_set() =~= Set::<ClassId>::empty());
            assert(field(g, roots@).difference(id_set(on_stack).to_set()) =~= field(g, roots@));
        }
        let res: Result<Cost, TimingError> = arrival_of(
            egraph,
            root,
            selection,
            &mut memo,
            &mut on_stack,
            Ghost(roots@),
            Ghost(field(g, roots@).len() + 1),
            &mut ranks,
        );
        if let Err(why) = res {
            proof {
                lemma_roots_stop(g, sel, roots@, (i + 1) as nat, roots@.len());
                lemma_timing_error(g, sel, roots@, why);
            }
            return Err(why);
        }
        proof {
            assert forall|k: int| 0 <= k < i + 1 implies num_map(memo).contains_key(
                #[trigger] roots@[k],
            ) by {
                if k < i {
                    assert(before.contains_key(roots@[k]));
                }
            }
        }
        i += 1;
    }
    proof {
        let times = num_map(memo);
        assert forall|c: ClassId| #[trigger] reaches(g, sel, roots@, c) implies times.contains_key(
        c) by {
            assert forall|r: ClassId| #[trigger] roots@.contains(r) implies times.dom().contains(
            r) by {
                let k = choose|k: int| 0 <= k < roots@.len() && roots@[k] == r;
                assert(times.contains_key(roots@[k]));
            }
            assert forall|a: ClassId, b: ClassId|
                times.dom().contains(a) && #[trigger] edge(
                    g,
                    sel,
                    a,
                    b,
                ) implies times.dom().contains(b) by {
                assert(times.contains_key(a));
            }
            selection::lemma_reaches_closed(g, sel, roots@, times.dom(), c);
        }
        assert(covers(g, sel, roots@));
        assert forall|a: ClassId, b: ClassId|
            reaches(g, sel, roots@, a) && #[trigger] edge(g, sel, a, b) implies Seq::<
            ClassId,
        >::empty().contains(b) || ranks@.0[b] < ranks@.0[a] by {
            assert(times.contains_key(a));
        }
        assert(ranked(g, sel, roots@, ranks@.0));
    }
    Ok(memo)
}

/// A seed with a timing error is not complete and acyclic.
proof fn lemma_timing_error(
    g: EGraph,
    sel: Map<ClassId, NodeId>,
    roots: Seq<ClassId>,
    why: TimingError,
)
    requires
        why matches TimingError::NoChoice { class } ==> reaches(g, sel, roots, class)
            && !sel.contains_key(class),
        why matches TimingError::Cycle { class } ==> reaches(g, sel, roots, class) && on_cycle(
            g,
            sel,
            class,
        ),
    ensures
        !(covers(g, sel, roots) && acyclic(g, sel, roots)),
{
    match why {
        TimingError::NoChoice { class } => {},
        TimingError::Cycle { class } => {
            if acyclic(g, sel, roots) {
                selection::acyclic_means_no_cycle(g, sel, roots, class);
            }
        },
    }
}

fn arrival_of(
    egraph: &EGraph,
    cid: ClassId,
    selection: &ExtractionResult,
    memo: &mut IndexMap<ClassId, Cost>,
    on_stack: &mut IndexSet<ClassId>,
    Ghost(roots): Ghost<Seq<ClassId>>,
    Ghost(depth): Ghost<nat>,
    ranks: &mut Ghost<(Map<ClassId, nat>, nat)>,
) -> (r: Result<Cost, TimingError>)
    requires
        egraph.wf(),
        field(*egraph, roots).difference(id_set(*old(on_stack)).to_set()).len() < depth,
        nodes_known(*egraph, selection@),
        reaches(*egraph, selection@, roots, cid),
        timed(*egraph, selection@, roots, num_map(*old(memo)), old(ranks)@.0, old(ranks)@.1),
        stack_above(*egraph, selection@, num_map(*old(memo)), id_set(*old(on_stack)), cid),
    ensures
        timed(
            *egraph,
            selection@,
            roots,
            num_map(*final(memo)),
            final(ranks)@.0,
            final(ranks)@.1,
        ),
        forall|c: ClassId| #[trigger]
            num_map(*old(memo)).contains_key(c) ==> num_map(*final(memo)).contains_key(c)
                && num_map(*final(memo))[c] == num_map(*old(memo))[c] && final(ranks)@.0[c]
                == old(ranks)@.0[c],
        times_from(
            *egraph,
            selection@,
            cid,
            num_map(*old(memo)),
            id_set(*old(on_stack)).to_set(),
            depth,
        ) == (match r {
            Ok(_) => Ok::<Map<ClassId, Cost>, TimingError>(num_map(*final(memo))),
            Err(why) => Err(why),
        }),
        r matches Ok(t) ==> num_map(*final(memo)).contains_key(cid) && num_map(
            *final(memo),
        )[cid] == t && (forall|x: ClassId| #[trigger]
            id_set(*final(on_stack)).contains(x) <==> id_set(*old(on_stack)).contains(x)) && (
        forall|x: ClassId| #[trigger]
            id_set(*old(on_stack)).contains(x) ==> !num_map(*final(memo)).contains_key(x)),
        r matches Err(TimingError::NoChoice { class }) ==> reaches(
            *egraph,
            selection@,
            roots,
            class,
        ) && !selection@.contains_key(class),
        r matches Err(TimingError::Cycle { class }) ==> reaches(
            *egraph,
            selection@,
            roots,
            class,
        ) && on_cycle(*egraph, selection@, class),
    decreases
            field(*egraph, roots).difference(
                id_set(*old(on_stack)).to_set(),
            ).len(),
{
    let ghost g = *egraph;
    let ghost sel = selection@;
    let ghost memo0 = num_map(*memo);
    let ghost rank0 = ranks@.0;
    let ghost stack0 = id_set(*on_stack);
    let ghost known = field(g, roots);
    if let Some(v) = num_map_get(&*memo, cid) {
        return Ok(*v);
    }
    let distinct: usize = id_set_len(&*on_stack);
    if !id_set_insert(on_stack, cid) {
        return Err(TimingError::Cycle { class: cid });
    }
    let ghost stack1 = id_set(*on_stack);
    let nid: NodeId = match selection.get(cid) {
        Some(nid) => nid,
        None => {
            return Err(TimingError::NoChoice { class: cid });
        },
    };
    proof {
        lemma_field(g, sel, roots, cid);
        let left0 = known.difference(stack0.to_set());
        assert(left0.contains(cid));
        assert(stack1[stack0.len() as int] == cid);
        assert forall|x: ClassId| #[trigger] stack1.contains(x) <==> stack0.contains(x) || x
            == cid by {
            lemma_push_contains(stack0, cid, x);
        }
        assert(known.difference(stack1.to_set()) =~= left0.remove(cid));
        assert(stack1.to_set() =~= stack0.to_set().insert(cid));
    }
    let ghost measure0 = known.difference(stack0.to_set()).len();
    let mut child_max: Cost = 0;
    let mut j: usize = 0;
    while j < egraph.nodes[nid].children.len()
        invariant
            egraph.wf(),
            g == *egraph,
            sel == selection@,
            nodes_known(g, sel),
            reaches(g, sel, roots, cid),
            sel.contains_key(cid),
            sel[cid] == nid,
            nid < g.nodes@.len(),
            known == field(g, roots),
            stack0 == id_set(*old(on_stack)),
            memo0 == num_map(*old(memo)),
            rank0 == old(ranks)@.0,
            measure0 == known.difference(stack0.to_set()).len(),
            known.difference(stack1.to_set()).len() < measure0,
            measure0 < depth,
            times_below(
                g,
                sel,
                nid,
                j as nat,
                memo0,
                stack1.to_set(),
                (depth - 1) as nat,
            ) == Ok::<Map<ClassId, Cost>, TimingError>(num_map(*memo)),
            stack1.to_set() == stack0.to_set().insert(cid),
            !memo0.contains_key(cid),
            !stack0.contains(cid),
            forall|x: ClassId| #[trigger] stack1.contains(x) <==> stack0.contains(x) || x == cid,
            forall|x: ClassId| #[trigger]
                id_set(*on_stack).contains(x) <==> stack1.contains(x),
            stack_above(g, sel, memo0, stack0, cid),
            j <= g.nodes@[nid as int].children@.len(),
            timed(g, sel, roots, num_map(*memo), ranks@.0, ranks@.1),
            forall|c: ClassId| #[trigger]
                memo0.contains_key(c) ==> num_map(*memo).contains_key(c) && num_map(*memo)[c]
                    == memo0[c] && ranks@.0[c] == rank0[c],
            forall|x: ClassId| #[trigger]
                stack1.contains(x) ==> !num_map(*memo).contains_key(x),
            child_max == latest_child(g, num_map(*memo), nid, j as nat),
            forall|i: int|
                0 <= i < j ==> num_map(*memo).contains_key(#[trigger] g.child_class(nid, i)),
        decreases g.nodes@[nid as int].children@.len() - j,
    {
        let ghost before = num_map(*memo);
        let ghost rank_before = ranks@.0;
        let ghost stack_before = id_set(*on_stack);
        proof {
            g.lemma_child_class(nid, j as int);
            assert(g.nodes@[nid as int].children@[j as int] < g.nodes@.len());
            assert(edge(g, sel, cid, g.child_class(nid, j as int)));
            selection::lemma_reaches_step(g, sel, roots, cid, g.child_class(nid, j as int));
        }
        let child: ClassId = egraph.nid_to_cid(egraph.nodes[nid].children[j]);
        proof {
            assert(stack_above(g, sel, before, stack_before, child)) by {
                assert forall|x: ClassId| #[trigger]
                    stack_before.contains(x) implies !before.contains_key(x) && exists|n: nat|
                    n > 0 && #[trigger] walk(g, sel, x, child, n) by {
                    assert(stack1.contains(x));
                    if x == cid {
                        assert(walk(g, sel, x, cid, 0));
                        selection::lemma_walk_step(g, sel, x, cid, child, 0);
                        assert(walk(g, sel, x, child, 1));
                    } else {
                        assert(stack0.contains(x));
                        let n = choose|n: nat| n > 0 && #[trigger] walk(g, sel, x, cid, n);
                        selection::lemma_walk_step(g, sel, x, cid, child, n);
                        assert(walk(g, sel, x, child, n + 1));
                    }
                }
            }
            assert(stack_before.to_set() =~= stack1.to_set());
            assert(known.difference(stack_before.to_set()) =~= known.difference(
                stack1.to_set(),
            ));
        }
        let t: Cost = match arrival_of(
            egraph,
            child,
            selection,
            memo,
            on_stack,
            Ghost(roots),
            Ghost((depth - 1) as nat),
            ranks,
        ) {
            Ok(t) => t,
            Err(why) => {
                proof {
                    lemma_times_stop(
                        g,
                        sel,
                        nid,
                        (j + 1) as nat,
                        g.nodes@[nid as int].children@.len(),
                        memo0,
                        stack1.to_set(),
                        (depth - 1) as nat,
                    );
                    assert forall|c: ClassId| #[trigger]
                        memo0.contains_key(c) implies num_map(*memo).contains_key(c) && num_map(
                        *memo,
                    )[c] == memo0[c] && ranks@.0[c] == rank0[c] by {
                        assert(before.contains_key(c));
                    }
                }
                return Err(why);
            },
        };
        proof {
            assert forall|i: int| 0 <= i < j implies before[#[trigger] g.child_class(nid, i)]
                == num_map(*memo)[g.child_class(nid, i)] by {
                assert(before.contains_key(g.child_class(nid, i)));
            }
            selection::lemma_latest_child_agree(g, before, num_map(*memo), nid, j as nat);
            assert forall|i: int| 0 <= i < j + 1 implies num_map(*memo).contains_key(
                #[trigger] g.child_class(nid, i),
            ) by {
                if i < j {
                    assert(before.contains_key(g.child_class(nid, i)));
                }
            }
            assert forall|c: ClassId| #[trigger] memo0.contains_key(c) implies num_map(
                *memo,
            ).contains_key(c) && num_map(*memo)[c] == memo0[c] && ranks@.0[c] == rank0[c] by {
                assert(before.contains_key(c));
            }
            assert forall|x: ClassId| #[trigger] stack1.contains(x) implies !num_map(
                *memo,
            ).contains_key(x) by {
                assert(stack_before.contains(x));
            }
        }
        if t > child_max {
            child_max = t;
        }
        j += 1;
    }
    let total: Cost = add_costs(egraph.nodes[nid].delay, child_max);
    let ghost stack2 = id_set(*on_stack);
    let distinct: usize = id_set_len(&*on_stack);
    id_set_shift_remove(on_stack, cid);
    let ghost memo2 = num_map(*memo);
    let ghost rank2 = ranks@.0;
    let ghost clock = ranks@.1;
    num_map_insert(memo, cid, total);
    *ranks = Ghost((rank2.insert(cid, clock), clock + 1));
    proof {
        let memo3 = num_map(*memo);
        assert(stack1.contains(cid));
        assert(!memo2.contains_key(cid));
        assert forall|x: ClassId| #[trigger] id_set(*on_stack).contains(x) <==> stack0.contains(
            x,
        ) by {
            lemma_removed_contains(stack2, cid, x);
            assert(stack2.contains(x) <==> stack1.contains(x));
        }
        assert forall|c: ClassId| #[trigger] g.depends(nid, c) implies memo2.contains_key(c)
            && c != cid by {
            let i = choose|i: int|
                0 <= i < g.nodes@[nid as int].children@.len() && g.child_class(nid, i) == c;
            assert(memo2.contains_key(g.child_class(nid, i)));
        }
        assert forall|c: ClassId| #[trigger] memo3.contains_key(c) implies sel.contains_key(c)
            && reaches(g, sel, roots, c) && memo3[c] == arrival(g, memo3, sel[c])
            && ranks@.0[c] < clock + 1 by {
            assert forall|b: ClassId| #[trigger] g.depends(sel[c], b) implies memo2[b]
                == memo3[b] by {
                if c != cid {
                    assert(memo2.contains_key(c));
                    assert(edge(g, sel, c, b));
                }
            }
            selection::lemma_arrival_agree(g, memo2, memo3, sel[c]);
            if c != cid {
                assert(memo2.contains_key(c));
            }
        }
        assert forall|a: ClassId, b: ClassId|
            memo3.contains_key(a) && #[trigger] edge(g, sel, a, b) implies memo3.contains_key(b)
            && ranks@.0[b] < ranks@.0[a] by {
            if a != cid {
                assert(memo2.contains_key(a));
            } else {
                assert(memo2.contains_key(b));
            }
        }
        assert forall|c: ClassId| #[trigger] memo0.contains_key(c) implies memo3.contains_key(c)
            && memo3[c] == memo0[c] && ranks@.0[c] == rank0[c] by {
            assert(c != cid);
            assert(memo2.contains_key(c));
        }
        assert forall|x: ClassId| #[trigger] stack0.contains(x) implies !memo3.contains_key(x) by {
            assert(stack1.contains(x));
        }
    }
    Ok(total)
}

proof fn lemma_push_contains(s: Seq<ClassId>, item: ClassId, x: ClassId)
    ensures
        s.push(item).contains(x) <==> s.contains(x) || x == item,
{
    let all = s.push(item);
    if s.contains(x) {
        let k = choose|k: int| 0 <= k < s.len() && s[k] == x;
        assert(all[k] == x);
    }
    assert(all[s.len() as int] == item);
    if all.contains(x) {
        let k = choose|k: int| 0 <= k < all.len() && all[k] == x;
        if k < s.len() {
            assert(s[k] == x);
        }
    }
}

proof fn lemma_removed_contains(s: Seq<ClassId>, item: ClassId, x: ClassId)
    requires
        s.no_duplicates(),
        s.contains(item),
    ensures
        s.remove_value(item).contains(x) <==> s.contains(x) && x != item,
{
    s.index_of_first_ensures(item);
    let at = s.index_of_first(item)->0;
    let rest = s.remove(at);
    assert(s.remove_value(item) == rest);
    if s.contains(x) && x != item {
        let k = choose|k: int| 0 <= k < s.len() && s[k] == x;
        if k < at {
            assert(rest[k] == x);
        } else {
            assert(rest[k - 1] == x);
        }
    }
    if rest.contains(x) {
        let k = choose|k: int| 0 <= k < rest.len() && rest[k] == x;
        if k < at {
            assert(s[k] == x);
        } else {
            assert(s[k + 1] == x);
        }
    }
}

/// What a walk in post-order has established: every class of `order` has been
/// seen with all its children, and, in an acyclic selection, its children come
/// before it.
pub open spec fn post_ordered(
    g: EGraph,
    sel: Map<ClassId, NodeId>,
    roots: Seq<ClassId>,
    seen: Map<ClassId, usize>,
    order: Seq<ClassId>,
) -> bool {
    &&& order.no_duplicates()
    &&& forall|i: int|
        0 <= i < order.len() ==> seen.contains_key(#[trigger] order[i]) && reaches(
            g,
            sel,
            roots,
            order[i],
        )
    &&& forall|i: int, b: ClassId|
        0 <= i < order.len() && #[trigger] edge(g, sel, order[i], b) ==> seen.contains_key(b)
}

/// The children of every class of `order` come before it.
pub open spec fn children_first(g: EGraph, sel: Map<ClassId, NodeId>, order: Seq<ClassId>) -> bool {
    forall|i: int, b: ClassId|
        0 <= i < order.len() && #[trigger] edge(g, sel, order[i], b) ==> order.take(i).contains(b)
}

/// What a walk in post-order from class `c`, no deeper than `depth`, has seen and
/// the order it has left, if it starts with `seen` and `order`.
pub open spec fn walk_from(
    g: EGraph,
    sel: Map<ClassId, NodeId>,
    c: ClassId,
    seen: Set<ClassId>,
    order: Seq<ClassId>,
    depth: nat,
) -> (Set<ClassId>, Seq<ClassId>)
    decreases depth, 0nat,
{
    if seen.contains(c) || depth == 0 {
        (seen, order)
    } else if sel.contains_key(c) {
        let n = sel[c];
        let (all, below) = walk_below(
            g,
            sel,
            n,
            g.nodes@[n as int].children@.len(),
            seen.insert(c),
            order,
            (depth - 1) as nat,
        );
        (all, below.push(c))
    } else {
        (seen.insert(c), order.push(c))
    }
}

/// [`walk_from`] the first `k` children of node `n` in turn.
pub open spec fn walk_below(
    g: EGraph,
    sel: Map<ClassId, NodeId>,
    n: NodeId,
    k: nat,
    seen: Set<ClassId>,
    order: Seq<ClassId>,
    depth: nat,
) -> (Set<ClassId>, Seq<ClassId>)
    decreases depth, k + 1,
{
    if k == 0 {
        (seen, order)
    } else {
        let (before, left) = walk_below(g, sel, n, (k - 1) as nat, seen, order, depth);
        walk_from(g, sel, g.child_class(n, k - 1), before, left, depth)
    }
}

/// [`walk_from`] the first `k` roots in turn.
pub open spec fn walk_of(
    g: EGraph,
    sel: Map<ClassId, NodeId>,
    roots: Seq<ClassId>,
    k: nat,
) -> (Set<ClassId>, Seq<ClassId>)
    decreases k,
{
    if k == 0 {
        (Set::empty(), Seq::empty())
    } else {
        let (before, left) = walk_of(g, sel, roots, (k - 1) as nat);
        walk_from(g, sel, roots[k - 1], before, left, field(g, roots).len() + 1)
    }
}

fn post_order(
    egraph: &EGraph,
    cid: ClassId,
    selection: &ExtractionResult,
    state: &mut IndexMap<ClassId, usize>,
    order: &mut Vec<ClassId>,
    Ghost(roots): Ghost<Seq<ClassId>>,
    Ghost(rank): Ghost<Map<ClassId, nat>>,
    Ghost(depth): Ghost<nat>,
)
    requires
        egraph.wf(),
        field(*egraph, roots).difference(id_map(*old(state)).dom()).len() < depth,
        nodes_known(*egraph, selection@),
        reaches(*egraph, selection@, roots, cid),
        post_ordered(*egraph, selection@, roots, id_map(*old(state)), old(order)@),
        ranked(*egraph, selection@, roots, rank) ==> children_first(
            *egraph,
            selection@,
            old(order)@,
        ),
        ranked(*egraph, selection@, roots, rank) ==> forall|x: ClassId| #[trigger]
            id_map(*old(state)).contains_key(x) && !old(order)@.contains(x) ==> rank[cid] < rank[x],
    ensures
        post_ordered(*egraph, selection@, roots, id_map(*final(state)), final(order)@),
        ranked(*egraph, selection@, roots, rank) ==> children_first(
            *egraph,
            selection@,
            final(order)@,
        ),
        (id_map(*final(state)).dom(), final(order)@) == walk_from(
            *egraph,
            selection@,
            cid,
            id_map(*old(state)).dom(),
            old(order)@,
            depth,
        ),
        id_map(*final(state)).contains_key(cid),
        forall|x: ClassId| #[trigger]
            id_map(*old(state)).contains_key(x) ==> id_map(*final(state)).contains_key(x),
        forall|x: ClassId| #[trigger]
            id_map(*final(state)).contains_key(x) ==> id_map(*old(state)).contains_key(x)
                || final(order)@.contains(x),
        old(order)@.is_prefix_of(final(order)@),
        forall|x: ClassId| #[trigger]
            final(order)@.contains(x) && !old(order)@.contains(x) ==> !id_map(
                *old(state),
            ).contains_key(x),
    decreases
            field(*egraph, roots).difference(
                id_map(*old(state)).dom(),
            ).len(),
{
    let ghost g = *egraph;
    let ghost sel = selection@;
    let ghost state0 = id_map(*state);
    let ghost order0 = order@;
    let ghost is_ranked = ranked(g, sel, roots, rank);
    let ghost known = field(g, roots);
    if id_map_get(&*state, cid).is_some() {
        return ;
    }
    id_map_insert(state, cid, 1);
    let ghost state1 = id_map(*state);
    proof {
        lemma_field(g, sel, roots, cid);
        let left0 = known.difference(state0.dom());
        assert(left0.contains(cid));
        assert(known.difference(state1.dom()) =~= left0.remove(cid));
        assert(state1.dom() =~= state0.dom().insert(cid));
        assert(!order0.contains(cid)) by {
            if order0.contains(cid) {
                let i = choose|i: int| 0 <= i < order0.len() && order0[i] == cid;
                assert(state0.contains_key(order0[i]));
            }
        }
        assert(post_ordered(g, sel, roots, state1, order0));
    }
    let ghost measure0 = known.difference(state0.dom()).len();
    if let Some(nid) = selection.get(cid) {
        let mut j: usize = 0;
        while j < egraph.nodes[nid].children.len()
            invariant
                egraph.wf(),
                g == *egraph,
                sel == selection@,
                nodes_known(g, sel),
                reaches(g, sel, roots, cid),
                sel.contains_key(cid),
                sel[cid] == nid,
                nid < g.nodes@.len(),
                is_ranked == ranked(g, sel, roots, rank),
                is_ranked ==> forall|x: ClassId| #[trigger]
                    state0.contains_key(x) && !order0.contains(x) ==> rank[cid] < rank[x],
                state0 == id_map(*old(state)),
                order0 == old(order)@,
                state1 == state0.insert(cid, 1),
                state1.dom() == state0.dom().insert(cid),
                measure0 < depth,
                (id_map(*state).dom(), order@) == walk_below(
                    g,
                    sel,
                    nid,
                    j as nat,
                    state1.dom(),
                    order0,
                    (depth - 1) as nat,
                ),
                !state0.contains_key(cid),
                !order0.contains(cid),
                known == field(g, roots),
                known.finite(),
                measure0 == known.difference(state0.dom()).len(),
                known.difference(id_map(*state).dom()).len() < measure0,
                j <= g.nodes@[nid as int].children@.len(),
                post_ordered(g, sel, roots, id_map(*state), order@),
                is_ranked ==> children_first(g, sel, order@),
                forall|x: ClassId| #[trigger]
                    state1.contains_key(x) ==> id_map(*state).contains_key(x),
                forall|x: ClassId| #[trigger]
                    id_map(*state).contains_key(x) ==> state1.contains_key(x) || order@.contains(
                        x,
                    ),
                order0.is_prefix_of(order@),
                forall|x: ClassId| #[trigger]
                    order@.contains(x) && !order0.contains(x) ==> !state1.contains_key(x),
                forall|i: int|
                    0 <= i < j ==> id_map(*state).contains_key(#[trigger] g.child_class(nid, i)),
            decreases g.nodes@[nid as int].children@.len() - j,
        {
            let ghost before = id_map(*state);
            let ghost order_before = order@;
            proof {
                g.lemma_child_class(nid, j as int);
                assert(g.nodes@[nid as int].children@[j as int] < g.nodes@.len());
                assert(edge(g, sel, cid, g.child_class(nid, j as int)));
                selection::lemma_reaches_step(g, sel, roots, cid, g.child_class(nid, j as int));
            }
            let child: ClassId = egraph.nid_to_cid(egraph.nodes[nid].children[j]);
            proof {
                if is_ranked {
                    assert forall|x: ClassId| #[trigger]
                        before.contains_key(x) && !order_before.contains(x) implies rank[child]
                        < rank[x] by {
                        assert(state1.contains_key(x));
                        assert(rank[child] < rank[cid]);
                        if x != cid {
                            assert(state0.contains_key(x));
                            if order0.contains(x) {
                                let q = choose|q: int| 0 <= q < order0.len() && order0[q] == x;
                                assert(order_before[q] == x);
                            }
                        }
                    }
                }
            }
            post_order(
                egraph,
                child,
                selection,
                state,
                order,
                Ghost(roots),
                Ghost(rank),
                Ghost((depth - 1) as nat),
            );
            proof {
                let after = id_map(*state);
                assert forall|x: ClassId| #[trigger] state1.contains_key(x) implies after.contains_key(
                x) by {
                    assert(before.contains_key(x));
                }
                assert forall|x: ClassId| order_before.contains(x) implies #[trigger] order@.contains(
                x) by {
                    let q = choose|q: int| 0 <= q < order_before.len() && order_before[q] == x;
                    assert(order@[q] == x);
                }
                assert forall|x: ClassId| #[trigger] after.contains_key(x) implies state1.contains_key(
                x) || order@.contains(x) by {
                    if before.contains_key(x) && !state1.contains_key(x) {
                        assert(order_before.contains(x));
                    }
                }
                assert forall|x: ClassId| #[trigger]
                    order@.contains(x) && !order0.contains(x) implies !state1.contains_key(x) by {
                    if !order_before.contains(x) {
                        assert(!before.contains_key(x));
                        if state1.contains_key(x) {
                            assert(before.contains_key(x));
                        }
                    }
                }
                assert forall|i: int| 0 <= i < j + 1 implies after.contains_key(
                    #[trigger] g.child_class(nid, i),
                ) by {
                    if i < j {
                        assert(before.contains_key(g.child_class(nid, i)));
                    }
                }
                assert(known.difference(after.dom()).subset_of(known.difference(before.dom())));
                vstd::set_lib::lemma_len_subset(
                    known.difference(after.dom()),
                    known.difference(before.dom()),
                );
            }
            j += 1;
        }
        proof {
            assert forall|b: ClassId| #[trigger] g.depends(nid, b) implies id_map(
                *state,
            ).contains_key(b) by {
                let i = choose|i: int|
                    0 <= i < g.nodes@[nid as int].children@.len() && g.child_class(nid, i) == b;
                assert(id_map(*state).contains_key(g.child_class(nid, i)));
            }
        }
    }
    let ghost order2 = order@;
    let ghost state2 = id_map(*state);
    order.push(cid);
    proof {
        assert(state1.contains_key(cid));
        assert(!order2.contains(cid)) by {
            if order2.contains(cid) {
                assert(!order0.contains(cid));
            }
        }
        assert forall|x: ClassId| #[trigger] order@.contains(x) <==> order2.contains(x) || x
            == cid by {
            lemma_push_contains(order2, cid, x);
        }
        assert forall|i: int, b: ClassId|
            0 <= i < order@.len() && #[trigger] edge(
                g,
                sel,
                order@[i],
                b,
            ) implies state2.contains_key(b) by {
            if i < order2.len() {
                assert(order@[i] == order2[i]);
            }
        }
        assert forall|i: int| 0 <= i < order@.len() implies state2.contains_key(
            #[trigger] order@[i],
        ) && reaches(g, sel, roots, order@[i]) by {
            if i < order2.len() {
                assert(order@[i] == order2[i]);
            }
        }
        if is_ranked {
            assert forall|i: int, b: ClassId|
                0 <= i < order@.len() && #[trigger] edge(
                    g,
                    sel,
                    order@[i],
                    b,
                ) implies order@.take(i).contains(b) by {
                assert(order@.take(i) =~= order2.take(i));
                if i < order2.len() {
                    assert(order@[i] == order2[i]);
                } else {
                    assert(order2.take(i) =~= order2);
                    assert(order@[i] == cid);
                    assert(rank[b] < rank[cid]);
                    assert(state2.contains_key(b));
                    if !order2.contains(b) {
                        assert(state1.contains_key(b));
                        assert(state0.contains_key(b));
                        if order0.contains(b) {
                            let q = choose|q: int| 0 <= q < order0.len() && order0[q] == b;
                            assert(order2[q] == b);
                        }
                    }
                }
            }
        }
        assert forall|x: ClassId| #[trigger] state2.contains_key(x) implies state0.contains_key(x)
            || order@.contains(x) by {
            if state1.contains_key(x) && x != cid {
                assert(state0.contains_key(x));
            }
        }
        assert forall|x: ClassId| #[trigger]
            order@.contains(x) && !order0.contains(x) implies !state0.contains_key(x) by {
            if x != cid {
                assert(order2.contains(x));
                assert(!state1.contains_key(x));
            }
        }
        assert forall|x: ClassId| #[trigger] state0.contains_key(x) implies state2.contains_key(
        x) by {
            assert(state1.contains_key(x));
        }
    }
}

/// Every level rises by one step at least along every edge below the roots.
pub open spec fn levels_rise(
    g: EGraph,
    sel: Map<ClassId, NodeId>,
    roots: Seq<ClassId>,
    levels: Map<ClassId, usize>,
) -> bool {
    forall|a: ClassId, b: ClassId|
        reaches(g, sel, roots, a) && #[trigger] edge(g, sel, a, b) ==> levels[a] < levels[b]
}

/// The level of class `c` is zero, or one step above that of class `a`.
pub open spec fn one_above(
    g: EGraph,
    sel: Map<ClassId, NodeId>,
    levels: Map<ClassId, usize>,
    a: ClassId,
    c: ClassId,
) -> bool {
    edge(g, sel, a, c) && levels[c] == levels[a] + 1
}

/// No level is higher than the edges make it.
pub open spec fn levels_tight(
    g: EGraph,
    sel: Map<ClassId, NodeId>,
    roots: Seq<ClassId>,
    levels: Map<ClassId, usize>,
) -> bool {
    forall|c: ClassId| #[trigger]
        reaches(g, sel, roots, c) ==> levels[c] == 0 || exists|a: ClassId|
            reaches(g, sel, roots, a) && #[trigger] one_above(g, sel, levels, a, c)
}

/// `level` with the children of node `nid` raised above `here`.
pub open spec fn raised(
    g: EGraph,
    nid: NodeId,
    here: usize,
    before: Map<ClassId, usize>,
    after: Map<ClassId, usize>,
) -> bool {
    &&& after.dom() == before.dom()
    &&& forall|b: ClassId| #[trigger]
        before.contains_key(b) ==> after[b] == (if g.depends(nid, b) && before[b] < here + 1 {
            (here + 1) as usize
        } else {
            before[b]
        })
}

/// [`raised`], as a function of the levels before.
pub open spec fn lifted(
    g: EGraph,
    nid: NodeId,
    here: usize,
    levels: Map<ClassId, usize>,
) -> Map<ClassId, usize> {
    Map::new(
        |b: ClassId| levels.contains_key(b),
        |b: ClassId|
            if g.depends(nid, b) && levels[b] < here + 1 {
                (here + 1) as usize
            } else {
                levels[b]
            },
    )
}

/// The levels that come of taking the classes of `order` back to front, down to
/// place `q`, and lifting the children of each above it. All start at zero.
pub open spec fn swept(
    g: EGraph,
    sel: Map<ClassId, NodeId>,
    order: Seq<ClassId>,
    q: nat,
) -> Map<ClassId, usize>
    decreases order.len() - q,
{
    if q >= order.len() {
        Map::new(|c: ClassId| order.contains(c), |c: ClassId| 0usize)
    } else {
        let levels = swept(g, sel, order, q + 1);
        let c = order[q as int];
        if sel.contains_key(c) {
            lifted(g, sel[c], levels[c], levels)
        } else {
            levels
        }
    }
}

fn raise_children(
    egraph: &EGraph,
    nid: NodeId,
    here: usize,
    level: &mut IndexMap<ClassId, usize>,
)
    requires
        egraph.wf(),
        nid < egraph.nodes@.len(),
        here < usize::MAX,
        forall|b: ClassId| #[trigger] egraph.depends(nid, b) ==> id_map(*old(level)).contains_key(b),
    ensures
        raised(*egraph, nid, here, id_map(*old(level)), id_map(*final(level))),
{
    let ghost g = *egraph;
    let ghost before = id_map(*level);
    let mut j: usize = 0;
    while j < egraph.nodes[nid].children.len()
        invariant
            egraph.wf(),
            g == *egraph,
            nid < g.nodes@.len(),
            here < usize::MAX,
            before == id_map(*old(level)),
            forall|b: ClassId| #[trigger] g.depends(nid, b) ==> before.contains_key(b),
            j <= g.nodes@[nid as int].children@.len(),
            id_map(*level).dom() == before.dom(),
            forall|b: ClassId| #[trigger]
                before.contains_key(b) ==> id_map(*level)[b] == before[b] || (id_map(*level)[b]
                    == here + 1 && g.depends(nid, b) && before[b] < here + 1),
            forall|i: int|
                0 <= i < j ==> id_map(*level)[#[trigger] g.child_class(nid, i)] >= here + 1,
        decreases g.nodes@[nid as int].children@.len() - j,
    {
        proof {
            g.lemma_child_class(nid, j as int);
            assert(g.nodes@[nid as int].children@[j as int] < g.nodes@.len());
        }
        let child: ClassId = egraph.nid_to_cid(egraph.nodes[nid].children[j]);
        let ghost mid = id_map(*level);
        proof {
            assert(g.depends(nid, child));
            assert(before.contains_key(child));
            assert(mid.dom().contains(child));
        }
        if let Some(e) = id_map_get(&*level, child) {
            if e < here + 1 {
                id_map_insert(level, child, here + 1);
                proof {
                    assert(id_map(*level).dom() =~= before.dom());
                }
            }
        }
        j += 1;
    }
    proof {
        assert forall|b: ClassId| #[trigger] before.contains_key(b) implies id_map(*level)[b] == (
        if g.depends(nid, b) && before[b] < here + 1 {
            (here + 1) as usize
        } else {
            before[b]
        }) by {
            if g.depends(nid, b) {
                let i = choose|i: int|
                    0 <= i < g.nodes@[nid as int].children@.len() && g.child_class(nid, i) == b;
                assert(id_map(*level)[g.child_class(nid, i)] >= here + 1);
            }
        }
    }
}

/// Longest-path depth from the roots along the selected edges, which is a
/// valid assignment for the level columns: the rows demand
/// `level_child >= level_parent + 1` for every *selected* edge, and merely
/// `level_parent - level_child <= |classes|` for the others. Depths lie in
/// `[0, |classes| - 1]`, so both hold.
pub fn topological_levels(egraph: &EGraph, roots: &[ClassId], selection: &ExtractionResult) -> (r:
    IndexMap<ClassId, usize>)
    requires
        egraph.wf(),
        nodes_known(*egraph, selection@),
    ensures
        forall|c: ClassId| #[trigger]
            id_map(r).contains_key(c) <==> reaches(*egraph, selection@, roots@, c),
        id_map(r) == swept(
            *egraph,
            selection@,
            walk_of(*egraph, selection@, roots@, roots@.len()).1,
            0,
        ),
        acyclic(*egraph, selection@, roots@) ==> {
            &&& levels_rise(*egraph, selection@, roots@, id_map(r))
            &&& levels_tight(*egraph, selection@, roots@, id_map(r))
            &&& roots_known(*egraph, roots@) ==> forall|c: ClassId| #[trigger]
                id_map(r).contains_key(c) ==> id_map(r)[c] < egraph.classes@.len()
        },
{
    let ghost g = *egraph;
    let ghost sel = selection@;
    let ghost rank = choose|rank: Map<ClassId, nat>| ranked(g, sel, roots@, rank);
    let ghost is_ranked = ranked(g, sel, roots@, rank);
    let mut order: Vec<ClassId> = Vec::new();
    let mut state: IndexMap<ClassId, usize> = id_map_new();
    let mut i: usize = 0;
    assert(id_map(state).dom() =~= Set::<ClassId>::empty());
    while i < roots.len()
        invariant
            egraph.wf(),
            g == *egraph,
            sel == selection@,
            nodes_known(g, sel),
            is_ranked == ranked(g, sel, roots@, rank),
            i <= roots@.len(),
            (id_map(state).dom(), order@) == walk_of(g, sel, roots@, i as nat),
            post_ordered(g, sel, roots@, id_map(state), order@),
            is_ranked ==> children_first(g, sel, order@),
            forall|x: ClassId| #[trigger]
                id_map(state).contains_key(x) ==> order@.contains(x),
            forall|k: int| 0 <= k < i ==> id_map(state).contains_key(#[trigger] roots@[k]),
        decreases roots@.len() - i,
    {
        let root: ClassId = roots[i];
        let ghost before = id_map(state);
        let ghost order_before = order@;
        proof {
            assert(roots@.contains(root));
            selection::lemma_reaches_root(g, sel, roots@, root);
            lemma_field(g, sel, roots@, root);
            vstd::set_lib::lemma_len_subset(
                field(g, roots@).difference(before.dom()),
                field(g, roots@),
            );
        }
        post_order(
            egraph,
            root,
            selection,
            &mut state,
            &mut order,
            Ghost(roots@),
            Ghost(rank),
            Ghost(field(g, roots@).len() + 1),
        );
        proof {
            assert forall|x: ClassId| #[trigger] id_map(state).contains_key(x) implies order@.contains(
            x) by {
                if before.contains_key(x) {
                    assert(order_before.contains(x));
                    let q = choose|q: int| 0 <= q < order_before.len() && order_before[q] == x;
                    assert(order@[q] == x);
                }
            }
            assert forall|k: int| 0 <= k < i + 1 implies id_map(state).contains_key(
                #[trigger] roots@[k],
            ) by {
                if k < i {
                    assert(before.contains_key(roots@[k]));
                }
            }
        }
        i += 1;
    }
    let n: usize = order.len();
    proof {
        assert forall|c: ClassId| #[trigger] order@.contains(c) <==> reaches(
            g,
            sel,
            roots@,
            c,
        ) by {
            if order@.contains(c) {
                let q = choose|q: int| 0 <= q < order@.len() && order@[q] == c;
                assert(reaches(g, sel, roots@, order@[q]));
            }
            if reaches(g, sel, roots@, c) {
                let closed = order@.to_set();
                assert forall|r: ClassId| #[trigger] roots@.contains(r) implies closed.contains(
                r) by {
                    let k = choose|k: int| 0 <= k < roots@.len() && roots@[k] == r;
                    assert(id_map(state).contains_key(roots@[k]));
                }
                assert forall|a: ClassId, b: ClassId|
                    closed.contains(a) && #[trigger] edge(g, sel, a, b) implies closed.contains(
                b) by {
                    let q = choose|q: int| 0 <= q < order@.len() && order@[q] == a;
                    assert(edge(g, sel, order@[q], b));
                    assert(id_map(state).contains_key(b));
                }
                selection::lemma_reaches_closed(g, sel, roots@, closed, c);
            }
        }
        if roots_known(g, roots@) {
            assert forall|q: int| 0 <= q < order@.len() implies (#[trigger] order@[q])
                < g.classes@.len() by {
                lemma_reached_known(g, sel, roots@, order@[q]);
            }
            lemma_distinct_below(order@, g.classes@.len());
        }
    }
    let mut level: IndexMap<ClassId, usize> = id_map_new();
    // Parents before children: back to front.
    let mut q: usize = n;
    while q > 0
        invariant
            q <= n == order@.len(),
            forall|c: ClassId| #[trigger]
                id_map(level).contains_key(c) <==> order@.skip(q as int).contains(c),
            forall|c: ClassId| #[trigger] id_map(level).contains_key(c) ==> id_map(level)[c] == 0,
        decreases q,
    {
        q -= 1;
        let ghost before = id_map(level);
        id_map_insert(&mut level, order[q], 0);
        proof {
            let tail = order@.skip(q + 1);
            let tail1 = order@.skip(q as int);
            assert(tail1 =~= seq![order@[q as int]] + tail);
            assert forall|c: ClassId| #[trigger] id_map(level).contains_key(c)
                <==> tail1.contains(c) by {
                if tail.contains(c) {
                    let k = choose|k: int| 0 <= k < tail.len() && tail[k] == c;
                    assert(tail1[k + 1] == c);
                }
                assert(tail1[0] == order@[q as int]);
                if tail1.contains(c) {
                    let k = choose|k: int| 0 <= k < tail1.len() && tail1[k] == c;
                    if k > 0 {
                        assert(tail[k - 1] == c);
                    }
                }
            }
        }
    }
    proof {
        assert(order@.skip(0) =~= order@);
        assert(id_map(level) =~= swept(g, sel, order@, n as nat));
        assert forall|a: int| 0 <= a < n implies id_map(level)[#[trigger] order@[a]] < n - a by {
            assert(order@.contains(order@[a]));
            assert(id_map(level).contains_key(order@[a]));
        }
    }
    let mut q: usize = n;
    while q > 0
        invariant
            egraph.wf(),
            g == *egraph,
            sel == selection@,
            nodes_known(g, sel),
            q <= n == order@.len(),
            order@.no_duplicates(),
            is_ranked ==> children_first(g, sel, order@),
            forall|a: int, b: ClassId|
                0 <= a < n && #[trigger] edge(g, sel, order@[a], b) ==> order@.contains(b),
            id_map(level) == swept(g, sel, order@, q as nat),
            forall|c: ClassId| #[trigger] id_map(level).contains_key(c) <==> order@.contains(c),
            forall|c: ClassId| #[trigger]
                id_map(level).contains_key(c) ==> id_map(level)[c] <= n - q,
            is_ranked ==> forall|a: int| 0 <= a < n ==> id_map(level)[#[trigger] order@[a]] < n - a,
            is_ranked ==> forall|a: int, b: ClassId|
                q <= a < n && #[trigger] edge(g, sel, order@[a], b) ==> id_map(level)[order@[a]]
                    < id_map(level)[b],
            is_ranked ==> forall|c: ClassId| #[trigger]
                id_map(level).contains_key(c) ==> id_map(level)[c] == 0 || exists|a: int|
                    q <= a < n && one_above(g, sel, id_map(level), #[trigger] order@[a], c),
        decreases q,
    {
        q -= 1;
        let cid: ClassId = order[q];
        let ghost before = id_map(level);
        proof {
            assert(order@.contains(cid)) by {
                assert(order@[q as int] == cid);
            }
        }
        let here: usize = match id_map_get(&level, cid) {
            Some(h) => h,
            None => 0,
        };
        let nid: NodeId = match selection.get(cid) {
            Some(nid) => nid,
            None => {
                proof {
                    assert forall|a: int, b: ClassId|
                        q <= a < n && edge(g, sel, order@[a], b) implies q + 1 <= a by {}
                    if is_ranked {
                        assert forall|c: ClassId| #[trigger]
                            before.contains_key(c) implies before[c] == 0 || exists|a: int|
                            q <= a < n && one_above(g, sel, before, #[trigger] order@[a], c) by {
                            if before[c] != 0 {
                                let a = choose|a: int|
                                    q + 1 <= a < n && one_above(
                                        g,
                                        sel,
                                        before,
                                        #[trigger] order@[a],
                                        c,
                                    );
                                assert(one_above(g, sel, before, order@[a], c));
                            }
                        }
                    }
                }
                continue;
            },
        };
        proof {
            assert forall|b: ClassId| #[trigger] g.depends(nid, b) implies before.contains_key(
            b) by {
                assert(edge(g, sel, order@[q as int], b));
            }
        }
        raise_children(egraph, nid, here, &mut level);
        proof {
            let after = id_map(level);
            assert(after =~= lifted(g, nid, here, before)) by {
                assert forall|b: ClassId| #[trigger] after.contains_key(b) <==> before.contains_key(
                b) by {
                    assert(after.dom().contains(b) <==> before.dom().contains(b));
                }
            }
            assert forall|c: ClassId| #[trigger] after.contains_key(c) <==> order@.contains(c) by {
                assert(after.dom().contains(c) <==> before.dom().contains(c));
                assert(before.contains_key(c) <==> order@.contains(c));
            }
            assert forall|c: ClassId| #[trigger] after.contains_key(c) implies after[c] <= n
                - q by {
                assert(before.dom().contains(c));
                assert(before.contains_key(c));
            }
            if is_ranked {
                // The children of the class stand before it in the order.
                assert forall|b: ClassId| #[trigger] g.depends(nid, b) implies order@.take(
                    q as int,
                ).contains(b) by {
                    assert(edge(g, sel, order@[q as int], b));
                }
                assert forall|a: int| 0 <= a < n implies after[#[trigger] order@[a]] < n - a by {
                    let c = order@[a];
                    assert(order@.contains(c));
                    assert(before.contains_key(c));
                    assert(before[order@[a]] < n - a);
                    if g.depends(nid, c) {
                        let head = order@.take(q as int);
                        let k = choose|k: int| 0 <= k < head.len() && head[k] == c;
                        assert(order@[k] == order@[a]);
                        assert(a < q);
                        assert(before[order@[q as int]] < n - q);
                    }
                }
                assert forall|a: int| q <= a < n implies after[#[trigger] order@[a]]
                    == before[order@[a]] by {
                    let c = order@[a];
                    assert(order@.contains(c));
                    assert(before.contains_key(c));
                    if g.depends(nid, c) {
                        let head = order@.take(q as int);
                        let k = choose|k: int| 0 <= k < head.len() && head[k] == c;
                        assert(order@[k] == order@[a]);
                    }
                }
                assert forall|a: int, b: ClassId|
                    q <= a < n && #[trigger] edge(g, sel, order@[a], b) implies after[order@[a]]
                    < after[b] by {
                    assert(order@.contains(b));
                    assert(before.contains_key(b));
                    assert(after[order@[a]] == before[order@[a]]);
                    if a == q {
                        assert(g.depends(nid, b));
                    }
                }
                assert forall|c: ClassId| #[trigger] after.contains_key(c) implies after[c] == 0
                    || exists|a: int|
                    q <= a < n && one_above(g, sel, after, #[trigger] order@[a], c) by {
                    assert(before.dom().contains(c));
                    assert(before.contains_key(c));
                    if after[c] != before[c] {
                        assert(edge(g, sel, order@[q as int], c));
                        assert(after[order@[q as int]] == here);
                        assert(one_above(g, sel, after, order@[q as int], c));
                    } else if before[c] != 0 {
                        let a = choose|a: int|
                            q + 1 <= a < n && one_above(g, sel, before, #[trigger] order@[a], c);
                        assert(after[order@[a]] == before[order@[a]]);
                        assert(one_above(g, sel, after, order@[a], c));
                    }
                }
            }
        }
    }
    proof {
        let levels = id_map(level);
        if acyclic(g, sel, roots@) {
            assert forall|a: ClassId, b: ClassId|
                reaches(g, sel, roots@, a) && #[trigger] edge(g, sel, a, b) implies levels[a]
                < levels[b] by {
                assert(order@.contains(a));
                let p = choose|p: int| 0 <= p < order@.len() && order@[p] == a;
                assert(edge(g, sel, order@[p], b));
            }
            assert forall|c: ClassId| #[trigger] reaches(g, sel, roots@, c) implies levels[c] == 0
                || exists|a: ClassId|
                reaches(g, sel, roots@, a) && #[trigger] one_above(g, sel, levels, a, c) by {
                assert(order@.contains(c));
                assert(levels.contains_key(c));
                if levels[c] != 0 {
                    let p = choose|p: int|
                        0 <= p < n && one_above(g, sel, levels, #[trigger] order@[p], c);
                    let a = order@[p];
                    assert(order@.contains(a));
                    assert(one_above(g, sel, levels, a, c));
                }
            }
            assert forall|c: ClassId| roots_known(
                g,
                roots@,
            ) && #[trigger] levels.contains_key(c) implies levels[c] < g.classes@.len() by {
                assert(order@.contains(c));
                let p = choose|p: int| 0 <= p < order@.len() && order@[p] == c;
                assert(levels[order@[p]] < n - p);
            }
        }
    }
    level
}

/// Different numbers below `n` are at most `n`.
pub(crate) proof fn lemma_distinct_below(s: Seq<ClassId>, n: nat)
    requires
        s.no_duplicates(),
        forall|i: int| 0 <= i < s.len() ==> (#[trigger] s[i]) < n,
    ensures
        s.len() <= n,
{
    s.unique_seq_to_set();
    lemma_below_len(n);
    lemma_below_finite(n);
    let all = Set::new(|x: usize| x < n);
    assert(s.to_set().subset_of(all));
    vstd::set_lib::lemma_len_subset(s.to_set(), all);
}

pub(crate) proof fn lemma_below_len(n: nat)
    ensures
        Set::new(|x: usize| x < n).len() <= n,
    decreases n,
{
    let s = Set::new(|x: usize| x < n);
    if n == 0 {
        assert(s =~= Set::<usize>::empty());
    } else {
        let t = Set::new(|x: usize| x < (n - 1) as nat);
        lemma_below_len((n - 1) as nat);
        lemma_below_finite((n - 1) as nat);
        if n - 1 <= usize::MAX {
            assert(s =~= t.insert((n - 1) as usize));
        } else {
            assert(s =~= t);
        }
    }
}

/// `x` moved into `[0, cap]`.
pub open spec fn clamped_to(x: Cost, cap: Cost) -> Cost {
    if x < 0 {
        0
    } else if x > cap {
        cap
    } else {
        x
    }
}

/// [`clamped_to`].
fn clamp_to(x: Cost, cap: Cost) -> (r: Cost)
    ensures
        r == clamped_to(x, cap),
{
    if x < 0 {
        0
    } else if x > cap {
        cap
    } else {
        x
    }
}

/// The arrival time of class `c`, zero where there is none.
pub open spec fn time_of(times: Map<ClassId, Cost>, c: ClassId) -> Cost {
    if times.contains_key(c) {
        times[c]
    } else {
        0
    }
}

/// The largest arrival time of the first `k` roots, and at least zero.
pub open spec fn latest_of(roots: Seq<ClassId>, times: Map<ClassId, Cost>, k: nat) -> Cost
    decreases k,
{
    if k == 0 {
        0
    } else {
        larger(latest_of(roots, times, (k - 1) as nat), time_of(times, roots[k - 1]))
    }
}

/// The seed selects class `c`: it is below the roots and has a choice.
pub open spec fn seeded(
    g: EGraph,
    sel: Map<ClassId, NodeId>,
    roots: Seq<ClassId>,
    c: ClassId,
) -> bool {
    reaches(g, sel, roots, c) && sel.contains_key(c)
}

/// The seed selects the member of class `c` at position `k`.
pub open spec fn seeded_pick(
    g: EGraph,
    sel: Map<ClassId, NodeId>,
    roots: Seq<ClassId>,
    c: ClassId,
    k: usize,
) -> bool {
    seeded(g, sel, roots, c) && sel[c] == member(g, c as int, k as int)
}

/// What a seed sets the column of a role to.
pub open spec fn seed_value(
    g: EGraph,
    sel: Map<ClassId, NodeId>,
    roots: Seq<ClassId>,
    levels: Map<ClassId, usize>,
    times: Map<ClassId, Cost>,
    cap: Cost,
    role: Role,
) -> Cost {
    match role {
        Role::Active(c) => if seeded(g, sel, roots, c) {
            ONE
        } else {
            0
        },
        Role::Pick(c, k) => if seeded_pick(g, sel, roots, c, k) {
            ONE
        } else {
            0
        },
        Role::Opposite(c, k) => if seeded_pick(g, sel, roots, c, k) {
            0
        } else {
            ONE
        },
        Role::Level(c) => if levels.contains_key(c) {
            saturate(levels[c] * 1_000_000)
        } else {
            0
        },
        Role::Arrival(c) => clamped_to(time_of(times, c), cap),
        Role::RootDepth => clamped_to(latest_of(roots, times, roots.len()), cap),
    }
}

/// The arrival times, if there are any.
pub open spec fn times_in(arrival: Option<IndexMap<ClassId, Cost>>) -> Map<ClassId, Cost> {
    match arrival {
        Some(times) => num_map(times),
        None => Map::empty(),
    }
}

/// The cap of a model's arrival times.
pub open spec fn cap_in(vars: IlpVars) -> Cost {
    match vars.depth {
        Some(d) => d.cap,
        None => 0,
    }
}

/// The levels that [`topological_levels`] gives.
pub open spec fn is_levelling(
    g: EGraph,
    sel: Map<ClassId, NodeId>,
    roots: Seq<ClassId>,
    levels: Map<ClassId, usize>,
) -> bool {
    &&& forall|c: ClassId| #[trigger] levels.contains_key(c) <==> reaches(g, sel, roots, c)
    &&& acyclic(g, sel, roots) ==> {
        &&& levels_rise(g, sel, roots, levels)
        &&& levels_tight(g, sel, roots, levels)
        &&& forall|c: ClassId| #[trigger]
            levels.contains_key(c) ==> levels[c] < g.classes@.len()
    }
}

/// `start` gives every column of the model the value of the seed.
pub open spec fn starts_from(
    g: EGraph,
    roots: Seq<ClassId>,
    vars: IlpVars,
    sel: Map<ClassId, NodeId>,
    levels: Map<ClassId, usize>,
    times: Map<ClassId, Cost>,
    start: Map<Col, Cost>,
) -> bool {
    forall|i: Col|
        #![trigger start.contains_key(i)]
        #![trigger start[i]]
        (start.contains_key(i) <==> i < vars.roles@.len()) && (i < vars.roles@.len() ==> start[i]
            == seed_value(g, sel, roots, levels, times, cap_in(vars), vars.roles@[i as int]))
}

/// Every staged column has the value of the seed.
spec fn sets_only(
    g: EGraph,
    roots: Seq<ClassId>,
    vars: IlpVars,
    sel: Map<ClassId, NodeId>,
    levels: Map<ClassId, usize>,
    times: Map<ClassId, Cost>,
    start: Map<Col, Cost>,
) -> bool {
    forall|i: Col| #[trigger]
        start.contains_key(i) ==> i < vars.roles@.len() && start[i] == seed_value(
            g,
            sel,
            roots,
            levels,
            times,
            cap_in(vars),
            vars.roles@[i as int],
        )
}

/// Seeds the selection columns of one class.
fn seed_class(
    model: &mut Staged,
    egraph: &EGraph,
    vars: &IlpVars,
    chosen: Option<NodeId>,
    c: usize,
    Ghost(roots): Ghost<Seq<ClassId>>,
    Ghost(sel): Ghost<Map<ClassId, NodeId>>,
    Ghost(levels): Ghost<Map<ClassId, usize>>,
    Ghost(times): Ghost<Map<ClassId, Cost>>,
)
    requires
        egraph.wf(),
        vars_placed(*egraph, *vars),
        c < egraph.classes@.len(),
        chosen == (if seeded(*egraph, sel, roots, c) {
            Some(sel[c])
        } else {
            None
        }),
        old(model).wf(),
        sets_only(*egraph, roots, *vars, sel, levels, times, old(model).start()),
    ensures
        final(model).wf(),
        final(model).lp() == old(model).lp(),
        final(model).sent() == old(model).sent(),
        sets_only(*egraph, roots, *vars, sel, levels, times, final(model).start()),
        forall|i: Col| #[trigger]
            old(model).start().contains_key(i) ==> final(model).start().contains_key(i),
        final(model).start().contains_key(vars.classes@[c as int].active),
        forall|k: int|
            0 <= k < members(*egraph, c as int) ==> final(model).start().contains_key(
                #[trigger] vars.classes@[c as int].nodes@[k],
            ),
        forall|k: int|
            0 <= k < members(*egraph, c as int) ==> final(model).start().contains_key(
                #[trigger] vars.cycles.opposite@[c as int]@[k],
            ),
{
    let ghost g = *egraph;
    let active: Col = vars.classes[c].active;
    proof {
        assert(vars.roles@[vars.classes@[c as int].active as int] == Role::Active(c));
    }
    let active_value: Cost = if chosen.is_some() {
        ONE
    } else {
        0
    };
    model.set_warm(active, active_value);
    let n: usize = egraph.classes[c].nodes.len();
    let mut k: usize = 0;
    while k < n
        invariant
            egraph.wf(),
            g == *egraph,
            vars_placed(g, *vars),
            c < g.classes@.len(),
            chosen == (if seeded(g, sel, roots, c) {
                Some(sel[c])
            } else {
                None
            }),
            active == vars.classes@[c as int].active,
            k <= n == members(g, c as int),
            model.wf(),
            model.lp() == old(model).lp(),
            model.sent() == old(model).sent(),
            sets_only(g, roots, *vars, sel, levels, times, model.start()),
            forall|i: Col| #[trigger]
                old(model).start().contains_key(i) ==> model.start().contains_key(i),
            model.start().contains_key(active),
            forall|q: int|
                0 <= q < k ==> model.start().contains_key(
                    #[trigger] vars.classes@[c as int].nodes@[q],
                ),
            forall|q: int|
                0 <= q < k ==> model.start().contains_key(
                    #[trigger] vars.cycles.opposite@[c as int]@[q],
                ),
        decreases n - k,
    {
        let nid: NodeId = egraph.classes[c].nodes[k];
        let on: bool = match chosen {
            Some(chosen) => chosen == nid,
            None => false,
        };
        proof {
            assert(is_member(g, c as int, k as int));
            assert(vars.roles@[vars.classes@[c as int].nodes@[k as int] as int] == Role::Pick(
                c,
                k,
            ));
            assert(vars.roles@[vars.cycles.opposite@[c as int]@[k as int] as int]
                == Role::Opposite(c, k));
            assert(on == seeded_pick(g, sel, roots, c, k));
        }
        let pick_value: Cost = if on {
            ONE
        } else {
            0
        };
        let opposite_value: Cost = if on {
            0
        } else {
            ONE
        };
        model.set_warm(vars.classes[c].nodes[k], pick_value);
        model.set_warm(vars.cycles.opposite[c][k], opposite_value);
        k += 1;
    }
}

/// Stages `seed` as the MIP start, with a value for every auxiliary column
/// (levels, `1 - x` switches, arrival times, root depth), so that the point is
/// feasible for the whole model, not just the binaries. Only what is below the
/// roots is selected.
///
/// `arrival` are the [`arrival_times`] of the seed, needed whenever the model
/// has depth variables.
pub fn push_seed(
    model: &mut Staged,
    egraph: &EGraph,
    roots: &[ClassId],
    vars: &IlpVars,
    seed: &ExtractionResult,
    arrival: &Option<IndexMap<ClassId, Cost>>,
)
    requires
        egraph.wf(),
        roots_known(*egraph, roots@),
        nodes_known(*egraph, seed@),
        vars_placed(*egraph, *vars),
        vars.depth is Some ==> arrival is Some,
        old(model).wf(),
        old(model).start() == Map::<Col, Cost>::empty(),
        old(model).lp().cols.len() == vars.roles@.len(),
    ensures
        final(model).wf(),
        final(model).lp() == old(model).lp(),
        final(model).sent() == old(model).sent(),
        exists|levels: Map<ClassId, usize>|
            is_levelling(*egraph, seed@, roots@, levels) && #[trigger] starts_from(
                *egraph,
                roots@,
                *vars,
                seed@,
                levels,
                times_in(*arrival),
                final(model).start(),
            ),
{
    let ghost g = *egraph;
    let ghost sel = seed@;
    let ghost times = times_in(*arrival);
    let levels: IndexMap<ClassId, usize> = topological_levels(egraph, roots, seed);
    let ghost lv = id_map(levels);
    let n_classes: usize = egraph.classes.len();
    let n_cols: usize = model.num_cols();
    // Selection binaries.
    let mut c: usize = 0;
    while c < n_classes
        invariant
            egraph.wf(),
            g == *egraph,
            sel == seed@,
            lv == id_map(levels),
            forall|b: ClassId| #[trigger] lv.contains_key(b) <==> reaches(g, sel, roots@, b),
            vars_placed(g, *vars),
            c <= n_classes == g.classes@.len(),
            model.wf(),
            model.lp() == old(model).lp(),
            model.sent() == old(model).sent(),
            sets_only(g, roots@, *vars, sel, lv, times, model.start()),
            forall|b: int|
                0 <= b < c ==> model.start().contains_key((#[trigger] vars.classes@[b]).active),
            forall|b: int, k: int|
                b < c && is_member(g, b, k) ==> model.start().contains_key(
                    #[trigger] vars.classes@[b].nodes@[k],
                ),
            forall|b: int, k: int|
                b < c && is_member(g, b, k) ==> model.start().contains_key(
                    #[trigger] vars.cycles.opposite@[b]@[k],
                ),
        decreases n_classes - c,
    {
        let ghost before = model.start();
        let chosen: Option<NodeId> = if id_map_get(&levels, c).is_some() {
            seed.get(c)
        } else {
            None
        };
        proof {
            assert(lv.contains_key(c) <==> reaches(g, sel, roots@, c));
        }
        seed_class(
            model,
            egraph,
            vars,
            chosen,
            c,
            Ghost(roots@),
            Ghost(sel),
            Ghost(lv),
            Ghost(times),
        );
        proof {
            assert forall|b: int| 0 <= b < c + 1 implies model.start().contains_key(
                (#[trigger] vars.classes@[b]).active,
            ) by {
                if b < c {
                    assert(before.contains_key(vars.classes@[b].active));
                }
            }
            assert forall|b: int, k: int|
                b < c + 1 && is_member(g, b, k) implies model.start().contains_key(
                #[trigger] vars.classes@[b].nodes@[k],
            ) by {
                if b < c {
                    assert(before.contains_key(vars.classes@[b].nodes@[k]));
                }
            }
            assert forall|b: int, k: int|
                b < c + 1 && is_member(g, b, k) implies model.start().contains_key(
                #[trigger] vars.cycles.opposite@[b]@[k],
            ) by {
                if b < c {
                    assert(before.contains_key(vars.cycles.opposite@[b]@[k]));
                }
            }
        }
        c += 1;
    }
    let ghost picked = model.start();
    // Topological levels for the cycle-blocking rows.
    let mut c: usize = 0;
    while c < n_classes
        invariant
            g == *egraph,
            lv == id_map(levels),
            vars_placed(g, *vars),
            c <= n_classes == g.classes@.len(),
            model.wf(),
            model.lp() == old(model).lp(),
            model.sent() == old(model).sent(),
            sets_only(g, roots@, *vars, sel, lv, times, model.start()),
            forall|i: Col| #[trigger] picked.contains_key(i) ==> model.start().contains_key(i),
            forall|b: int|
                0 <= b < c ==> model.start().contains_key(#[trigger] vars.cycles.levels@[b]),
        decreases n_classes - c,
    {
        proof {
            assert(vars.roles@[vars.cycles.levels@[c as int] as int] == Role::Level(c));
        }
        let value: Cost = match id_map_get(&levels, c) {
            Some(level) => saturate_wide(level as i128 * 1_000_000),
            None => 0,
        };
        model.set_warm(vars.cycles.levels[c], value);
        c += 1;
    }
    let ghost levelled = model.start();
    // Arrival times, clamped into their column bounds, and the root depth.
    if let Some(depth) = &vars.depth {
        if let Some(arrivals) = arrival {
            let mut c: usize = 0;
            while c < n_classes
                invariant
                    g == *egraph,
                    times == num_map(*arrivals),
                    vars.depth == Some(*depth),
                    vars_placed(g, *vars),
                    c <= n_classes == g.classes@.len(),
                    model.wf(),
                    model.lp() == old(model).lp(),
                    model.sent() == old(model).sent(),
                    sets_only(g, roots@, *vars, sel, lv, times, model.start()),
                    forall|i: Col| #[trigger]
                        levelled.contains_key(i) ==> model.start().contains_key(i),
                    forall|b: int|
                        0 <= b < c ==> model.start().contains_key(#[trigger] depth.arrival@[b]),
                decreases n_classes - c,
            {
                proof {
                    assert(vars.roles@[depth.arrival@[c as int] as int] == Role::Arrival(c));
                }
                let t: Cost = match num_map_get(arrivals, c) {
                    Some(t) => *t,
                    None => 0,
                };
                model.set_warm(depth.arrival[c], clamp_to(t, depth.cap));
                c += 1;
            }
            if let Some(t) = depth.root_depth {
                let mut worst: Cost = 0;
                let mut i: usize = 0;
                while i < roots.len()
                    invariant
                        times == num_map(*arrivals),
                        i <= roots@.len(),
                        worst == latest_of(roots@, times, i as nat),
                    decreases roots@.len() - i,
                {
                    let time: Cost = match num_map_get(arrivals, roots[i]) {
                        Some(time) => *time,
                        None => 0,
                    };
                    worst = max_cost(worst, time);
                    i += 1;
                }
                model.set_warm(t, clamp_to(worst, depth.cap));
            }
        }
    }
    proof {
        let start = model.start();
        assert forall|i: Col| i < vars.roles@.len() implies #[trigger] start.contains_key(i) by {
            assert(is_handle(g, *vars, i as int));
            match vars.roles@[i as int] {
                Role::Active(c) => {
                    assert(picked.contains_key(vars.classes@[c as int].active));
                    assert(levelled.contains_key(i));
                },
                Role::Pick(c, k) => {
                    assert(is_member(g, c as int, k as int));
                    assert(picked.contains_key(vars.classes@[c as int].nodes@[k as int]));
                    assert(levelled.contains_key(i));
                },
                Role::Opposite(c, k) => {
                    assert(is_member(g, c as int, k as int));
                    assert(picked.contains_key(vars.cycles.opposite@[c as int]@[k as int]));
                    assert(levelled.contains_key(i));
                },
                Role::Level(c) => {
                    assert(levelled.contains_key(vars.cycles.levels@[c as int]));
                },
                Role::Arrival(c) => {
                    assert(start.contains_key(vars.depth->0.arrival@[c as int]));
                },
                Role::RootDepth => {},
            }
        }
        assert(is_levelling(g, sel, roots@, lv));
        assert(starts_from(g, roots@, *vars, sel, lv, times, start)) by {
            assert forall|i: Col|
                (#[trigger] start.contains_key(i) <==> i < vars.roles@.len()) && (i
                    < vars.roles@.len() ==> start[i] == seed_value(
                    g,
                    sel,
                    roots@,
                    lv,
                    times,
                    cap_in(*vars),
                    vars.roles@[i as int],
                )) by {
                if i < vars.roles@.len() {
                    assert(start.contains_key(i));
                }
            }
        }
    }
}

} // verus!
