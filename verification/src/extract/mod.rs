//! Extractions: one chosen node per e-class, and what can be asked of them.
use crate::collections::{
    fx_map_get, fx_set_contains, fx_set_insert, id_keys, id_map, id_map_clone, id_map_get,
    id_map_get_index, id_map_insert, id_map_len, id_map_new, num_map, num_map_get,
};
use crate::cost::Cost;
use crate::egraph::{ClassId, EGraph, NodeId};
use indexmap::IndexMap;
use rustc_hash::{FxHashMap, FxHashSet};
use std::collections::HashMap;
use vstd::prelude::*;

pub mod faster_ilp_cbc;
pub mod greedy;
pub mod ilp;
pub mod ilp_cbc;
pub mod measure;
pub mod selection;
pub mod warm;

use selection::{
    acyclic, covers, edge, nodes_known, on_cycle, placed, ranked, ranked_except, reaches, valid,
    walk,
};

verus! {

/// Chooses one node per class.
pub trait Extractor {
    fn extract(&self, egraph: &EGraph, roots: &[ClassId]) -> ExtractionResult
        requires
            egraph.wf(),
    ;
}

/// Looking a key up in a map.
pub trait MapGet<K, V> {
    /// What the map holds for `key`.
    spec fn entry(&self, key: K) -> Option<V>;

    fn get(&self, key: &K) -> (r: Option<&V>)
        ensures
            r == (match self.entry(*key) {
                Some(v) => Some(&v),
                None => None,
            }),
    ;
}

impl MapGet<ClassId, Cost> for HashMap<ClassId, Cost> {
    open spec fn entry(&self, key: ClassId) -> Option<Cost> {
        if self@.contains_key(key) {
            Some(self@[key])
        } else {
            None
        }
    }

    fn get(&self, key: &ClassId) -> (r: Option<&Cost>) {
        broadcast use vstd::std_specs::hash::group_hash_axioms;

        HashMap::get(self, key)
    }
}

impl MapGet<ClassId, Cost> for FxHashMap<ClassId, Cost> {
    open spec fn entry(&self, key: ClassId) -> Option<Cost> {
        if self@.contains_key(key) {
            Some(self@[key])
        } else {
            None
        }
    }

    fn get(&self, key: &ClassId) -> (r: Option<&Cost>) {
        fx_map_get(self, *key)
    }
}

impl MapGet<ClassId, Cost> for IndexMap<ClassId, Cost> {
    open spec fn entry(&self, key: ClassId) -> Option<Cost> {
        if num_map(*self).contains_key(key) {
            Some(num_map(*self)[key])
        } else {
            None
        }
    }

    fn get(&self, key: &ClassId) -> (r: Option<&Cost>) {
        num_map_get(self, *key)
    }
}

/// A class-to-node choice; it may be incomplete or cyclic.
pub struct ExtractionResult {
    pub choices: IndexMap<ClassId, NodeId>,
}

/// An [`ExtractionResult`] that is valid for the roots it was made for. The
/// only constructor validates.
pub struct CompleteExtraction(ExtractionResult);

/// Why a choice is not a valid extraction of its roots.
#[derive(Debug, Clone, Copy, PartialEq, Eq)]
pub enum ExtractionError {
    /// There is nothing to extract.
    NoRoots,
    /// `node` is chosen for `class` but belongs to another one.
    WrongClass { node: NodeId, class: ClassId, belongs_to: ClassId },
    /// `class` is below the roots but has no choice.
    NoChoice { class: ClassId },
    /// The chosen nodes form a cycle through `class`.
    Cycle { class: ClassId },
}

/// The class is on the path being walked.
const DOING: usize = 1;

/// The class and all that is below it have been walked.
const DONE: usize = 2;

/// The classes of a slice.
pub(crate) fn ids_to_vec(ids: &[ClassId]) -> (r: Vec<ClassId>)
    ensures
        r@ == ids@,
{
    let mut r: Vec<ClassId> = Vec::new();
    let mut i: usize = 0;
    while i < ids.len()
        invariant
            i <= ids@.len(),
            r@ == ids@.take(i as int),
        decreases ids@.len() - i,
    {
        r.push(ids[i]);
        proof {
            assert(ids@.take(i + 1) =~= ids@.take(i as int).push(ids@[i as int]));
        }
        i += 1;
    }
    proof {
        assert(ids@.take(ids@.len() as int) =~= ids@);
    }
    r
}

/// What the walk that looks for cycles has established so far.
pub open spec fn dfs_inv(
    g: EGraph,
    sel: Map<ClassId, NodeId>,
    roots: Seq<ClassId>,
    status: Map<ClassId, usize>,
    cycles: Seq<ClassId>,
    rank: Map<ClassId, nat>,
) -> bool {
    &&& forall|c: ClassId| #[trigger]
        status.contains_key(c) ==> (status[c] == 1 || status[c] == 2) && reaches(g, sel, roots, c)
    &&& forall|a: ClassId, b: ClassId|
        status.contains_key(a) && status[a] == 2 && #[trigger] edge(g, sel, a, b)
            ==> status.contains_key(b) && (cycles.contains(b) || (status[b] == 2 && rank[b]
            < rank[a]))
    &&& forall|i: int|
        0 <= i < cycles.len() ==> reaches(g, sel, roots, #[trigger] cycles[i]) && on_cycle(
            g,
            sel,
            cycles[i],
        )
}

/// Every class on the path being walked has `c` below it.
pub open spec fn doing_above(
    g: EGraph,
    sel: Map<ClassId, NodeId>,
    status: Map<ClassId, usize>,
    c: ClassId,
) -> bool {
    forall|x: ClassId| #[trigger]
        status.contains_key(x) && status[x] == 1 ==> exists|n: nat|
            n > 0 && #[trigger] walk(g, sel, x, c, n)
}

/// The finished classes, and no others, gain a status.
pub open spec fn status_grows(old_s: Map<ClassId, usize>, new_s: Map<ClassId, usize>) -> bool {
    &&& forall|x: ClassId| #[trigger]
        old_s.contains_key(x) ==> new_s.contains_key(x) && new_s[x] == old_s[x]
    &&& forall|x: ClassId|
        new_s.contains_key(x) && !old_s.contains_key(x) ==> #[trigger] new_s[x] == 2
}

/// Every rank given so far is below `clock`, and old ranks are kept.
pub open spec fn ranks_grow(
    status: Map<ClassId, usize>,
    old_r: Map<ClassId, nat>,
    new_r: Map<ClassId, nat>,
) -> bool {
    forall|x: ClassId| #[trigger] status.contains_key(x) && status[x] == 2 ==> new_r[x] == old_r[x]
}

pub open spec fn ranks_below(status: Map<ClassId, usize>, rank: Map<ClassId, nat>, clock: nat) -> bool {
    forall|x: ClassId| #[trigger] status.contains_key(x) && status[x] == 2 ==> rank[x] < clock
}

impl View for ExtractionResult {
    type V = Map<ClassId, NodeId>;

    open spec fn view(&self) -> Map<ClassId, NodeId> {
        id_map(self.choices)
    }
}

impl ExtractionResult {
    /// The classes with a choice, in the order in which they first got one.
    pub open spec fn order(&self) -> Seq<ClassId> {
        id_keys(self.choices)
    }
}

impl CompleteExtraction {
    /// [`ExtractionResult::order`].
    pub closed spec fn order(&self) -> Seq<ClassId> {
        self.0.order()
    }
}

impl View for CompleteExtraction {
    type V = Map<ClassId, NodeId>;

    closed spec fn view(&self) -> Map<ClassId, NodeId> {
        self.0@
    }
}

impl Clone for ExtractionResult {
    fn clone(&self) -> (r: Self)
        ensures
            r@ == self@,
            r.order() == self.order(),
    {
        ExtractionResult { choices: id_map_clone(&self.choices) }
    }
}

impl Default for ExtractionResult {
    fn default() -> (r: Self)
        ensures
            r@ == Map::<ClassId, NodeId>::empty(),
            r.order() == Seq::<ClassId>::empty(),
    {
        ExtractionResult { choices: id_map_new() }
    }
}

/// What a depth-first walk from class `c`, no deeper than `depth`, makes of the
/// classes it has met, which are on its path (1) or behind it (2), and of the
/// classes at which it has closed a cycle.
pub open spec fn walk_from(
    g: EGraph,
    sel: Map<ClassId, NodeId>,
    c: ClassId,
    met: Map<ClassId, usize>,
    closed: Seq<ClassId>,
    depth: nat,
) -> (Map<ClassId, usize>, Seq<ClassId>)
    decreases depth, 0nat,
{
    if met.contains_key(c) {
        if met[c] == 1 {
            (met, closed.push(c))
        } else {
            (met, closed)
        }
    } else if depth == 0 {
        (met, closed)
    } else {
        let n = sel[c];
        let below = walk_children(
            g,
            sel,
            n,
            g.nodes@[n as int].children@.len(),
            met.insert(c, 1),
            closed,
            (depth - 1) as nat,
        );
        (below.0.insert(c, 2), below.1)
    }
}

/// [`walk_from`] the first `k` children of node `n` in turn.
pub open spec fn walk_children(
    g: EGraph,
    sel: Map<ClassId, NodeId>,
    n: NodeId,
    k: nat,
    met: Map<ClassId, usize>,
    closed: Seq<ClassId>,
    depth: nat,
) -> (Map<ClassId, usize>, Seq<ClassId>)
    decreases depth, k + 1,
{
    if k == 0 {
        (met, closed)
    } else {
        let before = walk_children(g, sel, n, (k - 1) as nat, met, closed, depth);
        walk_from(g, sel, g.child_class(n, k - 1), before.0, before.1, depth)
    }
}

/// [`walk_from`] the first `k` roots in turn.
pub open spec fn walk_roots(
    g: EGraph,
    sel: Map<ClassId, NodeId>,
    roots: Seq<ClassId>,
    k: nat,
) -> (Map<ClassId, usize>, Seq<ClassId>)
    decreases k,
{
    if k == 0 {
        (Map::empty(), Seq::empty())
    } else {
        let before = walk_roots(g, sel, roots, (k - 1) as nat);
        walk_from(g, sel, roots[k - 1], before.0, before.1, sel.dom().len() + 1)
    }
}

/// The classes of the first `k` children of node `n`.
pub open spec fn child_classes(g: EGraph, n: NodeId, k: nat) -> Seq<ClassId> {
    Seq::new(k, |j: int| g.child_class(n, j))
}

/// The first class without a choice that is met when the classes in `todo` are
/// taken from the end, each but those `seen` replaced by its children, no more
/// than `steps` of them.
pub open spec fn first_missing(
    g: EGraph,
    sel: Map<ClassId, NodeId>,
    todo: Seq<ClassId>,
    seen: Set<ClassId>,
    steps: nat,
) -> Option<ClassId>
    decreases steps, todo.len(),
{
    if todo.len() == 0 {
        None
    } else {
        let c = todo.last();
        let rest = todo.drop_last();
        if seen.contains(c) {
            first_missing(g, sel, rest, seen, steps)
        } else if steps == 0 {
            None
        } else if !sel.contains_key(c) {
            Some(c)
        } else {
            let n = sel[c];
            first_missing(
                g,
                sel,
                rest + child_classes(g, n, g.nodes@[n as int].children@.len()),
                seen.insert(c),
                (steps - 1) as nat,
            )
        }
    }
}

/// Class `class` is the first, in the order of the choices, that is below the
/// roots and has a node of another class chosen for it.
pub open spec fn is_first_misplaced(
    g: EGraph,
    result: ExtractionResult,
    roots: Seq<ClassId>,
    class: ClassId,
) -> bool {
    let order = result.order();
    exists|i: int|
        {
            &&& 0 <= i < order.len()
            &&& #[trigger] order[i] == class
            &&& forall|k: int|
                0 <= k < i && reaches(g, result@, roots, #[trigger] order[k])
                    ==> g.nodes@[result@[order[k]] as int].eclass == order[k]
        }
}

/// What is wrong with a choice. A choice of the wrong class goes before a class
/// without one, and that before a cycle.
pub open spec fn explains(
    g: EGraph,
    sel: Map<ClassId, NodeId>,
    roots: Seq<ClassId>,
    why: ExtractionError,
) -> bool {
    match why {
        ExtractionError::NoRoots => roots.len() == 0,
        ExtractionError::WrongClass { node, class, belongs_to } => {
            &&& reaches(g, sel, roots, class)
            &&& sel.contains_key(class)
            &&& sel[class] == node
            &&& g.nodes@[node as int].eclass == belongs_to
            &&& belongs_to != class
        },
        ExtractionError::NoChoice { class } => {
            &&& placed(g, sel, roots)
            &&& reaches(g, sel, roots, class)
            &&& !sel.contains_key(class)
            &&& first_missing(g, sel, roots, Set::empty(), sel.dom().len() + 1) == Some(class)
        },
        ExtractionError::Cycle { class } => {
            &&& placed(g, sel, roots)
            &&& covers(g, sel, roots)
            &&& reaches(g, sel, roots, class)
            &&& on_cycle(g, sel, class)
            &&& walk_roots(g, sel, roots, roots.len()).1.first() == class
        },
    }
}

impl CompleteExtraction {
    /// `result`, if it is a valid extraction of `roots` and there is a root.
    pub fn try_new(result: ExtractionResult, egraph: &EGraph, roots: &[ClassId]) -> (r: Result<
        Self,
        ExtractionError,
    >)
        requires
            egraph.wf(),
            nodes_known(*egraph, result@),
        ensures
            r is Ok <==> roots@.len() > 0 && valid(*egraph, result@, roots@),
            r matches Ok(complete) ==> complete@ == result@ && complete.order() == result.order()
                && valid(
                *egraph,
                complete@,
                roots@,
            ) && roots@.len() > 0,
            r matches Err(why) ==> explains(*egraph, result@, roots@, why),
            r matches Err(ExtractionError::WrongClass { class, .. }) ==> is_first_misplaced(
                *egraph,
                result,
                roots@,
                class,
            ),
            r is Err && r->Err_0 is NoRoots <==> roots@.len() == 0,
    {
        if roots.len() == 0 {
            return Err(ExtractionError::NoRoots);
        }
        match result.validate(egraph, roots) {
            Ok(()) => Ok(CompleteExtraction(result)),
            Err(why) => Err(why),
        }
    }

    /// The extraction itself.
    pub fn into_inner(self) -> (r: ExtractionResult)
        ensures
            r@ == self@,
            r.order() == self.order(),
    {
        self.0
    }

    /// The extraction, borrowed.
    pub fn as_result(&self) -> (r: &ExtractionResult)
        ensures
            r@ == self@,
            r.order() == self.order(),
    {
        &self.0
    }
}

impl Clone for CompleteExtraction {
    fn clone(&self) -> (r: Self)
        ensures
            r@ == self@,
            r.order() == self.order(),
    {
        CompleteExtraction(self.0.clone())
    }
}

impl ExtractionResult {
    /// Choose `node_id` for `class_id`, in place of any earlier choice.
    pub fn select(&mut self, class_id: ClassId, node_id: NodeId)
        ensures
            final(self)@ == old(self)@.insert(class_id, node_id),
            final(self).order() == (if old(self)@.contains_key(class_id) {
                old(self).order()
            } else {
                old(self).order().push(class_id)
            }),
    {
        id_map_insert(&mut self.choices, class_id, node_id);
    }

    /// The node chosen for `class_id`.
    pub fn get(&self, class_id: ClassId) -> (r: Option<NodeId>)
        ensures
            r == (if self@.contains_key(class_id) {
                Some(self@[class_id])
            } else {
                None
            }),
    {
        id_map_get(&self.choices, class_id)
    }

    /// Whether this is a valid extraction of `roots`: see [`Self::validate`].
    pub fn is_complete(&self, egraph: &EGraph, roots: &[ClassId]) -> (r: bool)
        requires
            egraph.wf(),
            nodes_known(*egraph, self@),
        ensures
            r == valid(*egraph, self@, roots@),
    {
        self.validate(egraph, roots).is_ok()
    }

    /// Whether this is a valid extraction of the e-graph's own roots, of which
    /// there is at least one.
    pub fn check(&self, egraph: &EGraph) -> (r: Result<(), ExtractionError>)
        requires
            egraph.wf(),
            nodes_known(*egraph, self@),
        ensures
            r is Ok <==> egraph.root_eclasses@.len() > 0 && valid(
                *egraph,
                self@,
                egraph.root_eclasses@,
            ),
            r == Err::<(), ExtractionError>(ExtractionError::NoRoots)
                <==> egraph.root_eclasses@.len() == 0,
            r matches Err(why) ==> explains(*egraph, self@, egraph.root_eclasses@, why),
            r matches Err(ExtractionError::WrongClass { class, .. }) ==> is_first_misplaced(
                *egraph,
                *self,
                egraph.root_eclasses@,
                class,
            ),
    {
        if egraph.root_eclasses.len() == 0 {
            return Err(ExtractionError::NoRoots);
        }
        self.validate(egraph, egraph.root_eclasses.as_slice())
    }

    /// `Ok` iff every class reachable from `roots` through the chosen nodes
    /// has a choice, which lives in the class, and the chosen nodes form no
    /// cycle there. Choices for unreachable classes are ignored.
    pub fn validate(&self, egraph: &EGraph, roots: &[ClassId]) -> (r: Result<(), ExtractionError>)
        requires
            egraph.wf(),
            nodes_known(*egraph, self@),
        ensures
            r is Ok <==> valid(*egraph, self@, roots@),
            r matches Err(why) ==> explains(*egraph, self@, roots@, why) && !(why is NoRoots),
            r matches Err(ExtractionError::WrongClass { class, .. }) ==> is_first_misplaced(
                *egraph,
                *self,
                roots@,
                class,
            ),
    {
        let ghost g = *egraph;
        let ghost sel = self@;
        let n_choices: usize = id_map_len(&self.choices);
        proof {
            assert(sel.dom().finite()) by {
                vstd::seq_lib::seq_to_set_is_finite(id_keys(self.choices));
            }
        }
        let (reached, missing) = self.missing_choice(egraph, roots);
        // Nodes should match the class they are selected into.
        let mut i: usize = 0;
        while i < n_choices
            invariant
                i <= n_choices == id_keys(self.choices).len(),
                id_keys(self.choices).to_set() == self@.dom(),
                g == *egraph,
                sel == self@,
                nodes_known(g, sel),
                forall|c: ClassId| #[trigger]
                    reached@.contains(c) <==> reaches(g, sel, roots@, c),
                forall|k: int|
                    0 <= k < i && reaches(g, sel, roots@, #[trigger] id_keys(self.choices)[k])
                        ==> g.nodes@[sel[id_keys(self.choices)[k]] as int].eclass == id_keys(
                        self.choices,
                    )[k],
            decreases n_choices - i,
        {
            match id_map_get_index(&self.choices, i) {
                Some((class, node)) => {
                    proof {
                        assert(sel.contains_key(class));
                        assert(reached@.contains(class) <==> reaches(g, sel, roots@, class));
                    }
                    let belongs_to: ClassId = egraph.nodes[node].eclass;
                    if belongs_to != class && fx_set_contains(&reached, class) {
                        proof {
                            assert(!placed(g, sel, roots@));
                            assert(self.order()[i as int] == class);
                            assert(is_first_misplaced(g, *self, roots@, class));
                        }
                        return Err(ExtractionError::WrongClass { node, class, belongs_to });
                    }
                },
                None => {},
            }
            i += 1;
        }
        proof {
            assert forall|c: ClassId| #[trigger] reaches(g, sel, roots@, c) && sel.contains_key(
                c,
            ) implies sel[c] < g.nodes@.len() && g.nodes@[sel[c] as int].eclass == c by {
                assert(id_keys(self.choices).to_set().contains(c));
                let k = choose|k: int|
                    0 <= k < id_keys(self.choices).len() && id_keys(self.choices)[k] == c;
                assert(reaches(g, sel, roots@, id_keys(self.choices)[k]));
            }
        }
        // All the classes the roots depend upon should have a choice.
        if let Some(class) = missing {
            return Err(ExtractionError::NoChoice { class });
        }
        // No cycles
        let cycles: Vec<ClassId> = self.find_cycles(egraph, roots);
        if cycles.len() > 0 {
            proof {
                assert(on_cycle(g, sel, cycles@[0]));
                if acyclic(g, sel, roots@) {
                    selection::acyclic_means_no_cycle(g, sel, roots@, cycles@[0]);
                }
            }
            return Err(ExtractionError::Cycle { class: cycles[0] });
        }
        proof {
            let rank = choose|rank: Map<ClassId, nat>|
                ranked_except(g, sel, roots@, cycles@, rank);
            assert(cycles@ =~= Seq::<ClassId>::empty());
            assert(ranked(g, sel, roots@, rank));
        }
        Ok(())
    }

    /// The classes below the roots, and the first met that has no choice.
    fn missing_choice(&self, egraph: &EGraph, roots: &[ClassId]) -> (r: (
        FxHashSet<ClassId>,
        Option<ClassId>,
    ))
        requires
            egraph.wf(),
            nodes_known(*egraph, self@),
            self@.dom().finite(),
        ensures
            forall|c: ClassId| #[trigger]
                r.0@.contains(c) <==> reaches(*egraph, self@, roots@, c),
            r.1 is None ==> covers(*egraph, self@, roots@),
            r.1 matches Some(c) ==> reaches(*egraph, self@, roots@, c) && !self@.contains_key(c),
            r.1 == first_missing(*egraph, self@, roots@, Set::empty(), self@.dom().len() + 1),
    {
        let ghost g = *egraph;
        let ghost sel = self@;
        let ghost mut steps: nat = sel.dom().len() + 1;
        let ghost found = first_missing(g, sel, roots@, Set::empty(), steps);
        let mut todo: Vec<ClassId> = ids_to_vec(roots);
        let mut visited: FxHashSet<ClassId> = FxHashSet::default();
        let mut missing: Option<ClassId> = None;
        proof {
            assert forall|k: int| 0 <= k < todo@.len() implies reaches(
                g,
                sel,
                roots@,
                #[trigger] todo@[k],
            ) by {
                assert(roots@.contains(todo@[k]));
                selection::lemma_reaches_root(g, sel, roots@, todo@[k]);
            }
            assert forall|c: ClassId| #[trigger] roots@.contains(c) implies visited@.contains(c)
                || todo@.contains(c) by {}
        }
        assert(sel.dom().difference(visited@) =~= sel.dom());
        while todo.len() > 0
            invariant
                egraph.wf(),
                g == *egraph,
                sel == self@,
                nodes_known(g, sel),
                sel.dom().finite(),
                missing is None ==> visited@.subset_of(sel.dom()),
                found == first_missing(g, sel, roots@, Set::empty(), sel.dom().len() + 1),
                missing is None ==> found == first_missing(g, sel, todo@, visited@, steps),
                missing is None ==> sel.dom().difference(visited@).len() < steps,
                missing matches Some(c) ==> found == Some(c) && reaches(g, sel, roots@, c)
                    && !sel.contains_key(c),
                forall|c: ClassId| #[trigger] visited@.contains(c) ==> reaches(g, sel, roots@, c),
                forall|k: int|
                    0 <= k < todo@.len() ==> reaches(g, sel, roots@, #[trigger] todo@[k]),
                forall|c: ClassId| #[trigger]
                    roots@.contains(c) ==> visited@.contains(c) || todo@.contains(c),
                forall|a: ClassId, b: ClassId|
                    visited@.contains(a) && #[trigger] edge(g, sel, a, b) ==> visited@.contains(b)
                        || todo@.contains(b),
            decreases sel.dom().difference(visited@).len(), todo@.len(),
        {
            let ghost todo0 = todo@;
            let ghost visited0 = visited@;
            let cid: ClassId = todo[todo.len() - 1];
            todo.pop();
            proof {
                assert(todo0[todo0.len() - 1] == cid);
                assert(todo@ =~= todo0.drop_last());
                assert(reaches(g, sel, roots@, cid));
                assert forall|c: ClassId| todo0.contains(c) implies c == cid || #[trigger] todo@.contains(c) by {
                    let k = choose|k: int| 0 <= k < todo0.len() && todo0[k] == c;
                    if k < todo0.len() - 1 {
                        assert(todo@[k] == c);
                    }
                }
            }
            if !fx_set_insert(&mut visited, cid) {
                proof {
                    assert(visited@ =~= visited0);
                }
                continue;
            }
            let nid: NodeId = match self.get(cid) {
                Some(nid) => nid,
                None => {
                    if missing.is_none() {
                        missing = Some(cid);
                    }
                    proof {
                        assert(sel.dom().difference(visited@) =~= sel.dom().difference(visited0));
                        assert forall|a: ClassId, b: ClassId|
                            visited@.contains(a) && #[trigger] edge(
                                g,
                                sel,
                                a,
                                b,
                            ) implies visited@.contains(b) || todo@.contains(b) by {
                            assert(visited0.contains(a));
                            if !visited0.contains(b) && b != cid {
                                assert(todo0.contains(b));
                            }
                        }
                        assert forall|c: ClassId| #[trigger] roots@.contains(
                            c,
                        ) implies visited@.contains(c) || todo@.contains(c) by {
                            if !visited0.contains(c) && c != cid {
                                assert(todo0.contains(c));
                            }
                        }
                    }
                    continue;
                },
            };
            let ghost rest = todo@;
            assert(todo@ =~= rest + child_classes(g, nid, 0));
            let mut j: usize = 0;
            while j < egraph.nodes[nid].children.len()
                invariant
                    egraph.wf(),
                    g == *egraph,
                    nid < g.nodes@.len(),
                    sel.contains_key(cid),
                    sel[cid] == nid,
                    reaches(g, sel, roots@, cid),
                    j <= g.nodes@[nid as int].children@.len(),
                    todo@ == rest + child_classes(g, nid, j as nat),
                    forall|k: int|
                        0 <= k < todo@.len() ==> reaches(g, sel, roots@, #[trigger] todo@[k]),
                    forall|c: ClassId| rest.contains(c) ==> #[trigger] todo@.contains(c),
                    forall|i: int| 0 <= i < j ==> todo@.contains(#[trigger] g.child_class(nid, i)),
                decreases g.nodes@[nid as int].children@.len() - j,
            {
                proof {
                    g.lemma_child_class(nid, j as int);
                    assert(g.nodes@[nid as int].children@[j as int] < g.nodes@.len());
                    assert(edge(g, sel, cid, g.child_class(nid, j as int)));
                    selection::lemma_reaches_step(
                        g,
                        sel,
                        roots@,
                        cid,
                        g.child_class(nid, j as int),
                    );
                }
                let child: ClassId = egraph.nid_to_cid(egraph.nodes[nid].children[j]);
                let ghost before = todo@;
                todo.push(child);
                proof {
                    assert(todo@ =~= rest + child_classes(g, nid, (j + 1) as nat));
                    assert(todo@[before.len() as int] == child);
                    assert forall|c: ClassId| before.contains(c) implies #[trigger] todo@.contains(
                    c) by {
                        let k = choose|k: int| 0 <= k < before.len() && before[k] == c;
                        assert(todo@[k] == c);
                    }
                }
                j += 1;
            }
            proof {
                assert forall|a: ClassId, b: ClassId|
                    visited@.contains(a) && #[trigger] edge(g, sel, a, b) implies visited@.contains(
                b) || todo@.contains(b) by {
                    if a == cid {
                        let i = choose|i: int|
                            0 <= i < g.nodes@[nid as int].children@.len() && g.child_class(nid, i)
                                == b;
                        assert(todo@.contains(g.child_class(nid, i)));
                    } else {
                        assert(visited0.contains(a));
                        if !visited0.contains(b) && b != cid {
                            assert(todo0.contains(b));
                            assert(rest.contains(b));
                        }
                    }
                }
                assert forall|c: ClassId| #[trigger] roots@.contains(c) implies visited@.contains(c)
                    || todo@.contains(c) by {
                    if !visited0.contains(c) && c != cid {
                        assert(todo0.contains(c));
                        assert(rest.contains(c));
                    }
                }
                let left0 = sel.dom().difference(visited0);
                assert(sel.dom().difference(visited@) =~= left0.remove(cid));
                assert(left0.contains(cid));
                if missing is None {
                    steps = (steps - 1) as nat;
                }
            }
        }
        proof {
            assert forall|c: ClassId| #[trigger] reaches(
                g,
                sel,
                roots@,
                c,
            ) implies visited@.contains(c) by {
                selection::lemma_reaches_closed(g, sel, roots@, visited@, c);
            }
        }
        (visited, missing)
    }

    /// The classes at which a depth-first walk from the roots closes a cycle,
    /// in the order it does: each is below the roots and on a cycle, and
    /// leaving out the edges into them leaves no cycle below the roots.
    pub fn find_cycles(&self, egraph: &EGraph, roots: &[ClassId]) -> (r: Vec<ClassId>)
        requires
            egraph.wf(),
            nodes_known(*egraph, self@),
            covers(*egraph, self@, roots@),
        ensures
            r@ == walk_roots(*egraph, self@, roots@, roots@.len()).1,
            forall|i: int|
                0 <= i < r@.len() ==> reaches(*egraph, self@, roots@, #[trigger] r@[i]) && on_cycle(
                    *egraph,
                    self@,
                    r@[i],
                ),
            exists|rank: Map<ClassId, nat>| ranked_except(*egraph, self@, roots@, r@, rank),
            r@.len() == 0 <==> acyclic(*egraph, self@, roots@),
    {
        let ghost g = *egraph;
        let ghost sel = self@;
        let n_choices: usize = id_map_len(&self.choices);
        proof {
            vstd::seq_lib::seq_to_set_is_finite(id_keys(self.choices));
        }
        let mut status: IndexMap<ClassId, usize> = id_map_new();
        let mut cycles: Vec<ClassId> = Vec::new();
        let mut ranks: Ghost<(Map<ClassId, nat>, nat)> = Ghost((Map::empty(), 0));
        let mut i: usize = 0;
        while i < roots.len()
            invariant
                egraph.wf(),
                g == *egraph,
                sel == self@,
                sel.dom().finite(),
                nodes_known(g, sel),
                covers(g, sel, roots@),
                i <= roots@.len(),
                (id_map(status), cycles@) == walk_roots(g, sel, roots@, i as nat),
                dfs_inv(g, sel, roots@, id_map(status), cycles@, ranks@.0),
                ranks_below(id_map(status), ranks@.0, ranks@.1),
                forall|x: ClassId| #[trigger]
                    id_map(status).contains_key(x) ==> id_map(status)[x] == 2,
                forall|k: int|
                    0 <= k < i ==> id_map(status).contains_key(#[trigger] roots@[k]),
            decreases roots@.len() - i,
        {
            let root: ClassId = roots[i];
            let ghost status0 = id_map(status);
            proof {
                assert(roots@.contains(root));
                selection::lemma_reaches_root(g, sel, roots@, root);
            }
            proof {
                vstd::set_lib::lemma_len_subset(
                    sel.dom().difference(id_map(status).dom()),
                    sel.dom(),
                );
            }
            self.cycle_dfs(
                egraph,
                root,
                &mut status,
                &mut cycles,
                Ghost(roots@),
                Ghost(sel.dom().len() + 1),
                &mut ranks,
            );
            proof {
                assert forall|x: ClassId| #[trigger]
                    id_map(status).contains_key(x) implies id_map(status)[x] == 2 by {
                    if status0.contains_key(x) {
                    } else {
                    }
                }
            }
            i += 1;
        }
        proof {
            let st = id_map(status);
            let rank = ranks@.0;
            let known = st.dom();
            assert forall|c: ClassId| #[trigger] roots@.contains(c) implies known.contains(c) by {
                let k = choose|k: int| 0 <= k < roots@.len() && roots@[k] == c;
                assert(st.contains_key(roots@[k]));
            }
            assert forall|a: ClassId, b: ClassId|
                known.contains(a) && #[trigger] edge(g, sel, a, b) implies known.contains(b) by {
                assert(st.contains_key(a));
            }
            assert forall|a: ClassId, b: ClassId|
                reaches(g, sel, roots@, a) && #[trigger] edge(g, sel, a, b) implies cycles@.contains(
            b) || rank[b] < rank[a] by {
                selection::lemma_reaches_closed(g, sel, roots@, known, a);
                assert(st.contains_key(a));
            }
            assert(ranked_except(g, sel, roots@, cycles@, rank));
            if cycles@.len() == 0 {
                assert(cycles@ =~= Seq::<ClassId>::empty());
                assert(ranked(g, sel, roots@, rank));
            } else {
                assert(on_cycle(g, sel, cycles@[0]));
                if acyclic(g, sel, roots@) {
                    selection::acyclic_means_no_cycle(g, sel, roots@, cycles@[0]);
                }
            }
        }
        cycles
    }

    fn cycle_dfs(
        &self,
        egraph: &EGraph,
        class_id: ClassId,
        status: &mut IndexMap<ClassId, usize>,
        cycles: &mut Vec<ClassId>,
        Ghost(roots): Ghost<Seq<ClassId>>,
        Ghost(depth): Ghost<nat>,
        ranks: &mut Ghost<(Map<ClassId, nat>, nat)>,
    )
        requires
            egraph.wf(),
            self@.dom().finite(),
            self@.dom().difference(id_map(*old(status)).dom()).len() < depth,
            nodes_known(*egraph, self@),
            covers(*egraph, self@, roots),
            reaches(*egraph, self@, roots, class_id),
            dfs_inv(*egraph, self@, roots, id_map(*old(status)), old(cycles)@, old(ranks)@.0),
            ranks_below(id_map(*old(status)), old(ranks)@.0, old(ranks)@.1),
            doing_above(*egraph, self@, id_map(*old(status)), class_id),
        ensures
            (id_map(*final(status)), final(cycles)@) == walk_from(
                *egraph,
                self@,
                class_id,
                id_map(*old(status)),
                old(cycles)@,
                depth,
            ),
            dfs_inv(*egraph, self@, roots, id_map(*final(status)), final(cycles)@, final(ranks)@.0),
            ranks_below(id_map(*final(status)), final(ranks)@.0, final(ranks)@.1),
            status_grows(id_map(*old(status)), id_map(*final(status))),
            ranks_grow(id_map(*old(status)), old(ranks)@.0, final(ranks)@.0),
            old(ranks)@.1 <= final(ranks)@.1,
            id_map(*final(status)).contains_key(class_id),
            id_map(*final(status))[class_id] == 2 || final(cycles)@.contains(class_id),
            old(cycles)@.is_prefix_of(final(cycles)@),
        decreases self@.dom().difference(id_map(*old(status)).dom()).len(),
    {
        let ghost g = *egraph;
        let ghost sel = self@;
        match id_map_get(&*status, class_id) {
            Some(s) => {
                if s == DOING {
                    proof {
                        assert(id_map(*status).contains_key(class_id));
                        assert(on_cycle(g, sel, class_id));
                    }
                    let ghost before = cycles@;
                    cycles.push(class_id);
                    proof {
                        assert(cycles@[before.len() as int] == class_id);
                        assert forall|a: ClassId, b: ClassId|
                            id_map(*status).contains_key(a) && id_map(*status)[a] == 2
                                && #[trigger] edge(g, sel, a, b) implies id_map(
                            *status,
                        ).contains_key(b) && (cycles@.contains(b) || (id_map(*status)[b] == 2
                            && ranks@.0[b] < ranks@.0[a])) by {
                            if before.contains(b) {
                                let k = choose|k: int| 0 <= k < before.len() && before[k] == b;
                                assert(cycles@[k] == b);
                            }
                        }
                    }
                }
            },
            None => {
                let ghost status0 = id_map(*status);
                let ghost ranks0 = ranks@.0;
                id_map_insert(status, class_id, DOING);
                let ghost status1 = id_map(*status);
                let nid: NodeId = match self.get(class_id) {
                    Some(nid) => nid,
                    None => {
                        proof {
                            assert(false);
                        }
                        return;
                    },
                };
                proof {
                    assert(sel.contains_key(class_id));
                    let left0 = sel.dom().difference(status0.dom());
                    assert(left0.contains(class_id));
                    assert(sel.dom().difference(status1.dom()) =~= left0.remove(class_id));
                }
                let ghost measure0 = sel.dom().difference(status0.dom()).len();
                let mut j: usize = 0;
                while j < egraph.nodes[nid].children.len()
                    invariant
                        egraph.wf(),
                        g == *egraph,
                        sel == self@,
                        sel.dom().finite(),
                        nodes_known(g, sel),
                        covers(g, sel, roots),
                        reaches(g, sel, roots, class_id),
                        sel.contains_key(class_id),
                        sel[class_id] == nid,
                        nid < g.nodes@.len(),
                        j <= g.nodes@[nid as int].children@.len(),
                        !status0.contains_key(class_id),
                        status1 == status0.insert(class_id, 1),
                        measure0 == sel.dom().difference(status0.dom()).len(),
                        measure0 < depth,
                        (id_map(*status), cycles@) == walk_children(
                            g,
                            sel,
                            nid,
                            j as nat,
                            status1,
                            old(cycles)@,
                            (depth - 1) as nat,
                        ),
                        sel.dom().difference(id_map(*status).dom()).len() < measure0,
                        measure0 == self@.dom().difference(id_map(*old(status)).dom()).len(),
                        dfs_inv(g, sel, roots, id_map(*status), cycles@, ranks@.0),
                        ranks_below(id_map(*status), ranks@.0, ranks@.1),
                        doing_above(g, sel, status0, class_id),
                        status_grows(status1, id_map(*status)),
                        ranks_grow(status0, ranks0, ranks@.0),
                        old(ranks)@.1 <= ranks@.1,
                        old(cycles)@.is_prefix_of(cycles@),
                        forall|i: int|
                            0 <= i < j ==> id_map(*status).contains_key(
                                #[trigger] g.child_class(nid, i),
                            ) && (id_map(*status)[g.child_class(nid, i)] == 2 || cycles@.contains(
                                g.child_class(nid, i),
                            )),
                    decreases g.nodes@[nid as int].children@.len() - j,
                {
                    let ghost st = id_map(*status);
                    let ghost cyc = cycles@;
                    proof {
                        g.lemma_child_class(nid, j as int);
                        assert(g.nodes@[nid as int].children@[j as int] < g.nodes@.len());
                        assert(edge(g, sel, class_id, g.child_class(nid, j as int)));
                        selection::lemma_reaches_step(
                            g,
                            sel,
                            roots,
                            class_id,
                            g.child_class(nid, j as int),
                        );
                    }
                    let child: ClassId = egraph.nid_to_cid(egraph.nodes[nid].children[j]);
                    proof {
                        assert forall|x: ClassId| #[trigger]
                            st.contains_key(x) && st[x] == 1 implies exists|n: nat|
                            n > 0 && #[trigger] walk(g, sel, x, child, n) by {
                            if x == class_id {
                                assert(walk(g, sel, x, class_id, 0));
                                selection::lemma_walk_step(g, sel, x, class_id, child, 0);
                                assert(walk(g, sel, x, child, 1));
                            } else {
                                assert(status1.contains_key(x));
                                assert(status0.contains_key(x) && status0[x] == 1);
                                let n = choose|n: nat| n > 0 && #[trigger] walk(g, sel, x, class_id, n);
                                selection::lemma_walk_step(g, sel, x, class_id, child, n);
                                assert(walk(g, sel, x, child, n + 1));
                            }
                        }
                    }
                    self.cycle_dfs(
                        egraph,
                        child,
                        status,
                        cycles,
                        Ghost(roots),
                        Ghost((depth - 1) as nat),
                        ranks,
                    );
                    proof {
                        let st2 = id_map(*status);
                        assert(sel.dom().difference(st2.dom()).subset_of(
                            sel.dom().difference(st.dom()),
                        ));
                        vstd::set_lib::lemma_len_subset(
                            sel.dom().difference(st2.dom()),
                            sel.dom().difference(st.dom()),
                        );
                        assert forall|i: int| 0 <= i < j + 1 implies st2.contains_key(
                            #[trigger] g.child_class(nid, i),
                        ) && (st2[g.child_class(nid, i)] == 2 || cycles@.contains(
                            g.child_class(nid, i),
                        )) by {
                            if i < j {
                                let b = g.child_class(nid, i);
                                assert(st.contains_key(b));
                                if cyc.contains(b) {
                                    let k = choose|k: int| 0 <= k < cyc.len() && cyc[k] == b;
                                    assert(cycles@[k] == b);
                                }
                            }
                        }
                        assert(status_grows(status1, st2)) by {
                            assert forall|x: ClassId|
                                st2.contains_key(x) && !status1.contains_key(x) implies #[trigger] st2[x]
                                == 2 by {
                                if st.contains_key(x) {
                                    assert(st[x] == 2);
                                }
                            }
                        }
                        assert forall|x: ClassId| #[trigger]
                            status0.contains_key(x) && status0[x] == 2 implies ranks@.0[x]
                            == ranks0[x] by {
                            assert(status1.contains_key(x));
                            assert(st.contains_key(x) && st[x] == 2);
                        }
                    }
                    j += 1;
                }
                let ghost st = id_map(*status);
                let ghost rk = ranks@.0;
                let ghost clock = ranks@.1;
                id_map_insert(status, class_id, DONE);
                *ranks = Ghost((rk.insert(class_id, clock), clock + 1));
                proof {
                    let st2 = id_map(*status);
                    let rk2 = ranks@.0;
                    assert(status1.contains_key(class_id));
                    assert forall|a: ClassId, b: ClassId|
                        st2.contains_key(a) && st2[a] == 2 && #[trigger] edge(
                            g,
                            sel,
                            a,
                            b,
                        ) implies st2.contains_key(b) && (cycles@.contains(b) || (st2[b] == 2
                        && rk2[b] < rk2[a])) by {
                        if a == class_id {
                            let i = choose|i: int|
                                0 <= i < g.nodes@[nid as int].children@.len() && g.child_class(
                                    nid,
                                    i,
                                ) == b;
                            assert(st.contains_key(g.child_class(nid, i)));
                            if !cycles@.contains(b) {
                                assert(st[b] == 2);
                                assert(b != class_id);
                                assert(rk[b] < clock);
                            }
                        } else {
                            assert(st.contains_key(a) && st[a] == 2);
                            if !cycles@.contains(b) {
                                assert(st[b] == 2);
                                assert(b != class_id);
                            }
                        }
                    }
                    assert forall|x: ClassId| #[trigger] st2.contains_key(x) && st2[x] == 2 implies rk2[x]
                        < clock + 1 by {
                        if x != class_id {
                            assert(st.contains_key(x) && st[x] == 2);
                        }
                    }
                    assert(status_grows(status0, st2)) by {
                        assert forall|x: ClassId| #[trigger]
                            status0.contains_key(x) implies st2.contains_key(x) && st2[x]
                            == status0[x] by {
                            assert(status1.contains_key(x));
                        }
                        assert forall|x: ClassId|
                            st2.contains_key(x) && !status0.contains_key(x) implies #[trigger] st2[x]
                            == 2 by {
                            if x != class_id {
                                assert(!status1.contains_key(x));
                                assert(st[x] == 2);
                            }
                        }
                    }
                }
            },
        }
    }
}

} // verus!
