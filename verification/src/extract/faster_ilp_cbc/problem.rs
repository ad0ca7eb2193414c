//! The extraction problem the simplifying passes work on: what is left to be
//! chosen, and what it means for one problem to be as good as another.
use crate::collections::id_set;
use crate::cost::{is_weight, Cost};
use crate::egraph::{ClassId, NodeId};
use crate::extract::ExtractionResult;
use crate::milp::Col;
use indexmap::IndexSet;
use vstd::prelude::*;

verus! {

/// A node that can be chosen for its class.
pub struct NodeIlp {
    /// The column that chooses it.
    pub variable: Col,
    pub cost: Cost,
    pub member: NodeId,
    /// The classes it needs. At first these are the classes of its children;
    /// passes move, drop and add to them.
    pub children_classes: IndexSet<ClassId>,
}

/// The nodes that can be chosen for a class.
pub struct ClassIlp {
    /// The column that says whether the class is used.
    pub active: Col,
    pub nodes: Vec<NodeIlp>,
}

/// What is left to be chosen, and what has been decided.
pub struct Vars {
    /// One entry for each class, whether it is left or not.
    pub classes: Vec<ClassIlp>,
    /// The classes that are left.
    pub live: Vec<bool>,
    /// The classes that have to be used, without repetition.
    pub roots: Vec<ClassId>,
    /// The choices already made.
    pub decided: ExtractionResult,
}

/// What a [`NodeIlp`] says.
#[verifier::ext_equal]
pub struct Choice {
    pub variable: Col,
    pub cost: Cost,
    pub node: NodeId,
    pub kids: Seq<ClassId>,
}

/// What [`Vars`] says.
#[verifier::ext_equal]
pub struct Problem {
    pub classes: Map<ClassId, Seq<Choice>>,
    pub roots: Seq<ClassId>,
    pub decided: Map<ClassId, NodeId>,
}

impl NodeIlp {
    pub open spec fn view(&self) -> Choice {
        Choice {
            variable: self.variable,
            cost: self.cost,
            node: self.member,
            kids: id_set(self.children_classes),
        }
    }
}

/// What a list of nodes says.
pub open spec fn choices_in(nodes: Seq<NodeIlp>) -> Seq<Choice> {
    Seq::new(nodes.len(), |i: int| nodes[i]@)
}

impl Vars {
    pub open spec fn view(&self) -> Problem {
        Problem {
            classes: Map::new(
                |c: ClassId| self.has(c),
                |c: ClassId| choices_in(self.classes@[c as int].nodes@),
            ),
            roots: self.roots@,
            decided: self.decided@,
        }
    }

    /// Class `c` is left.
    pub open spec fn has(&self, c: ClassId) -> bool {
        c < self.live@.len() && self.live@[c as int]
    }

    /// The column of class `c`.
    pub open spec fn active(&self, c: ClassId) -> Col {
        self.classes@[c as int].active
    }

    /// The number of classes, left or not.
    pub open spec fn size(&self) -> nat {
        self.classes@.len()
    }

    /// The problem makes sense.
    pub open spec fn wf(&self) -> bool {
        &&& self.live@.len() == self.classes@.len()
        &&& sound(self@, self.size())
    }

    /// The columns of the classes are those of `before`.
    pub open spec fn same_columns(&self, before: &Vars) -> bool {
        &&& self.classes@.len() == before.classes@.len()
        &&& forall|c: int|
            0 <= c < self.classes@.len() ==> (#[trigger] self.classes@[c]).active
                == before.classes@[c].active
    }
}

/// No node is listed twice.
pub open spec fn distinct_nodes(list: Seq<Choice>) -> bool {
    forall|i: int, j: int|
        0 <= i < j < list.len() ==> (#[trigger] list[i]).node != (#[trigger] list[j]).node
}

/// A class's choices: distinct nodes, valid costs, and known classes below.
pub open spec fn sound_class(p: Problem, list: Seq<Choice>) -> bool {
    &&& distinct_nodes(list)
    &&& forall|i: int|
        0 <= i < list.len() ==> is_weight((#[trigger] list[i]).cost) && list[i].kids.no_duplicates()
    &&& forall|i: int, d: ClassId|
        0 <= i < list.len() && (#[trigger] list[i].kids.contains(d)) ==> p.classes.contains_key(d)
}

/// Every class is one of the first `n`, every class mentioned is left, and
/// what has been decided is not up for choice.
pub open spec fn sound(p: Problem, n: nat) -> bool {
    &&& forall|c: ClassId| #[trigger]
        p.classes.contains_key(c) ==> c < n && sound_class(p, p.classes[c])
    &&& forall|r: ClassId| #[trigger] p.roots.contains(r) ==> p.classes.contains_key(r)
    &&& p.roots.no_duplicates()
    &&& forall|c: ClassId| #[trigger] p.decided.contains_key(c) ==> !p.classes.contains_key(c)
}

// ---------------------------------------------------------------------------
// Solutions
// ---------------------------------------------------------------------------

/// Node `n` is one of the choices.
pub open spec fn offers(list: Seq<Choice>, n: NodeId) -> bool {
    exists|i: int| 0 <= i < list.len() && (#[trigger] list[i]).node == n
}

/// Where node `n` stands among the choices.
pub open spec fn place(list: Seq<Choice>, n: NodeId) -> int {
    choose|i: int| 0 <= i < list.len() && (#[trigger] list[i]).node == n
}

/// The choice of node `n` for class `c`.
pub open spec fn choice_of(p: Problem, c: ClassId, n: NodeId) -> Choice {
    p.classes[c][place(p.classes[c], n)]
}

/// `sel` chooses for every root, and with a class for all it needs, which
/// `rank` puts below it.
pub open spec fn solves_with(p: Problem, sel: Map<ClassId, NodeId>, rank: Map<ClassId, nat>) -> bool {
    &&& forall|r: ClassId| #[trigger] p.roots.contains(r) ==> sel.contains_key(r)
    &&& forall|c: ClassId| #[trigger]
        sel.contains_key(c) ==> p.classes.contains_key(c) && offers(p.classes[c], sel[c])
    &&& forall|c: ClassId, d: ClassId|
        sel.contains_key(c) && #[trigger] choice_of(p, c, sel[c]).kids.contains(d)
            ==> sel.contains_key(d) && rank[d] < rank[c]
}

/// `sel` is a solution: it chooses for every root and all that is needed, and
/// without a cycle.
pub open spec fn solves(p: Problem, sel: Map<ClassId, NodeId>) -> bool {
    exists|rank: Map<ClassId, nat>| solves_with(p, sel, rank)
}

/// What `sel` costs among the first `n` classes.
pub open spec fn price(p: Problem, sel: Map<ClassId, NodeId>, n: nat) -> int
    decreases n,
{
    if n == 0 {
        0
    } else {
        price(p, sel, (n - 1) as nat) + class_price(p, sel, (n - 1) as ClassId)
    }
}

/// What `sel` costs for class `c`.
pub open spec fn class_price(p: Problem, sel: Map<ClassId, NodeId>, c: ClassId) -> int {
    if sel.contains_key(c) {
        choice_of(p, c, sel[c]).cost as int
    } else {
        0
    }
}

/// Every choice of `sel` is one of `other` or has been decided.
pub open spec fn drawn_from(
    sel: Map<ClassId, NodeId>,
    other: Map<ClassId, NodeId>,
    decided: Map<ClassId, NodeId>,
) -> bool {
    forall|c: ClassId| #[trigger]
        sel.contains_key(c) ==> (other.contains_key(c) && other[c] == sel[c]) || (
        decided.contains_key(c) && decided[c] == sel[c])
}

/// `a` has no decision that `b` lacks.
pub open spec fn decisions_kept(a: Map<ClassId, NodeId>, b: Map<ClassId, NodeId>) -> bool {
    forall|c: ClassId| #[trigger] a.contains_key(c) ==> b.contains_key(c) && b[c] == a[c]
}

/// To every solution of `p` of at most `bound` there is one of `q` that costs
/// no more.
pub open spec fn no_worse(p: Problem, q: Problem, n: nat, bound: int) -> bool {
    forall|sel: Map<ClassId, NodeId>| #[trigger]
        solves(p, sel) && price(p, sel, n) <= bound ==> attains(q, n, price(p, sel, n))
}

/// Some solution costs at most `cost`.
pub open spec fn attains(q: Problem, n: nat, cost: int) -> bool {
    exists|sel: Map<ClassId, NodeId>| #[trigger] solves(q, sel) && price(q, sel, n) <= cost
}

/// Every solution of `q`, with what has been decided, holds one of `p` that
/// costs no more.
pub open spec fn lifts(p: Problem, q: Problem, n: nat) -> bool {
    forall|sel: Map<ClassId, NodeId>| #[trigger]
        solves(q, sel) ==> holds_solution(p, n, sel, q.decided, price(q, sel, n))
}

/// Part of `sel` and `decided` is a solution that costs at most `cost`.
pub open spec fn holds_solution(
    p: Problem,
    n: nat,
    sel: Map<ClassId, NodeId>,
    decided: Map<ClassId, NodeId>,
    cost: int,
) -> bool {
    exists|part: Map<ClassId, NodeId>| #[trigger]
        solves(p, part) && drawn_from(part, sel, decided) && price(p, part, n) <= cost
}

/// A choice for the same node, with the same column.
pub open spec fn listed(list: Seq<Choice>, o: Choice) -> bool {
    exists|i: int|
        0 <= i < list.len() && (#[trigger] list[i]).node == o.node && list[i].variable == o.variable
}

/// `q` offers nothing, and decides nothing, that `p` does not offer or decide.
pub open spec fn descends(p: Problem, q: Problem) -> bool {
    &&& forall|c: ClassId| #[trigger] q.classes.contains_key(c) ==> p.classes.contains_key(c)
    &&& forall|c: ClassId, j: int|
        q.classes.contains_key(c) && 0 <= j < q.classes[c].len() ==> listed(
            p.classes[c],
            #[trigger] q.classes[c][j],
        )
    &&& forall|c: ClassId| #[trigger]
        q.decided.contains_key(c) ==> (p.decided.contains_key(c) && p.decided[c] == q.decided[c])
            || (p.classes.contains_key(c) && offers(p.classes[c], q.decided[c]))
}

/// `q` can be solved in place of `p`, where only solutions of at most `bound`
/// matter.
pub open spec fn simplifies(p: Problem, q: Problem, n: nat, bound: int) -> bool {
    &&& decisions_kept(p.decided, q.decided)
    &&& descends(p, q)
    &&& no_worse(p, q, n, bound)
    &&& lifts(p, q, n)
}

pub proof fn lemma_place(list: Seq<Choice>, i: int)
    requires
        distinct_nodes(list),
        0 <= i < list.len(),
    ensures
        place(list, list[i].node) == i,
        offers(list, list[i].node),
{
    let k = place(list, list[i].node);
    assert(0 <= k < list.len() && list[k].node == list[i].node);
    if k < i {
        assert(list[k].node != list[i].node);
    } else if i < k {
        assert(list[i].node != list[k].node);
    }
}

pub proof fn lemma_offered(list: Seq<Choice>, n: NodeId)
    requires
        offers(list, n),
    ensures
        0 <= place(list, n) < list.len(),
        list[place(list, n)].node == n,
{
}

/// What matters up to a bound matters up to a smaller one.
pub proof fn lemma_simplifies_less(p: Problem, q: Problem, n: nat, bound: int, less: int)
    requires
        simplifies(p, q, n, bound),
        less <= bound,
    ensures
        simplifies(p, q, n, less),
{
}

/// A problem can be solved in its own place.
pub proof fn lemma_simplifies_itself(p: Problem, n: nat, bound: int)
    ensures
        simplifies(p, p, n, bound),
{
    assert forall|c: ClassId, j: int|
        p.classes.contains_key(c) && 0 <= j < p.classes[c].len() implies listed(
        p.classes[c],
        #[trigger] p.classes[c][j],
    ) by {}
    assert forall|sel: Map<ClassId, NodeId>| #[trigger] solves(p, sel) implies holds_solution(
        p,
        n,
        sel,
        p.decided,
        price(p, sel, n),
    ) by {
        assert(drawn_from(sel, sel, p.decided));
    }
}

/// One simplification after another is one.
pub proof fn lemma_simplifies_trans(p: Problem, q: Problem, r: Problem, n: nat, bound: int)
    requires
        simplifies(p, q, n, bound),
        simplifies(q, r, n, bound),
    ensures
        simplifies(p, r, n, bound),
{
    assert forall|c: ClassId, j: int|
        r.classes.contains_key(c) && 0 <= j < r.classes[c].len() implies listed(
        p.classes[c],
        #[trigger] r.classes[c][j],
    ) by {
        let o = r.classes[c][j];
        assert(listed(q.classes[c], o));
        let i = choose|i: int|
            0 <= i < q.classes[c].len() && (#[trigger] q.classes[c][i]).node == o.node
                && q.classes[c][i].variable == o.variable;
        assert(q.classes.contains_key(c));
        assert(listed(p.classes[c], q.classes[c][i]));
    }
    assert forall|c: ClassId| #[trigger] r.decided.contains_key(c) implies (p.decided.contains_key(c)
        && p.decided[c] == r.decided[c]) || (p.classes.contains_key(c) && offers(
        p.classes[c],
        r.decided[c],
    )) by {
        if q.decided.contains_key(c) && q.decided[c] == r.decided[c] {
        } else {
            let i = place(q.classes[c], r.decided[c]);
            assert(listed(p.classes[c], q.classes[c][i]));
        }
    }
    assert forall|sel: Map<ClassId, NodeId>| #[trigger]
        solves(p, sel) && price(p, sel, n) <= bound implies attains(r, n, price(p, sel, n)) by {
        assert(attains(q, n, price(p, sel, n)));
        let mid = choose|mid: Map<ClassId, NodeId>| #[trigger]
            solves(q, mid) && price(q, mid, n) <= price(p, sel, n);
        assert(attains(r, n, price(q, mid, n)));
        let end = choose|end: Map<ClassId, NodeId>| #[trigger]
            solves(r, end) && price(r, end, n) <= price(q, mid, n);
        assert(solves(r, end));
    }
    assert forall|sel: Map<ClassId, NodeId>| #[trigger] solves(r, sel) implies holds_solution(
        p,
        n,
        sel,
        r.decided,
        price(r, sel, n),
    ) by {
        assert(holds_solution(q, n, sel, r.decided, price(r, sel, n)));
        let mid = choose|mid: Map<ClassId, NodeId>| #[trigger]
            solves(q, mid) && drawn_from(mid, sel, r.decided) && price(q, mid, n) <= price(
                r,
                sel,
                n,
            );
        assert(holds_solution(p, n, mid, q.decided, price(q, mid, n)));
        let part = choose|part: Map<ClassId, NodeId>| #[trigger]
            solves(p, part) && drawn_from(part, mid, q.decided) && price(p, part, n) <= price(
                q,
                mid,
                n,
            );
        assert(drawn_from(part, sel, r.decided)) by {
            assert forall|c: ClassId| #[trigger] part.contains_key(c) implies (sel.contains_key(c)
                && sel[c] == part[c]) || (r.decided.contains_key(c) && r.decided[c]
                == part[c]) by {
                if mid.contains_key(c) && mid[c] == part[c] {
                } else {
                    assert(q.decided.contains_key(c));
                    assert(r.decided.contains_key(c));
                }
            }
        }
        assert(solves(p, part));
    }
}

/// Choosing less, at no higher cost each, costs no more.
pub proof fn lemma_price_below(
    p: Problem,
    sel: Map<ClassId, NodeId>,
    q: Problem,
    other: Map<ClassId, NodeId>,
    n: nat,
)
    requires
        forall|c: ClassId| #[trigger] class_price(p, sel, c) <= class_price(q, other, c),
    ensures
        price(p, sel, n) <= price(q, other, n),
    decreases n,
{
    if n > 0 {
        lemma_price_below(p, sel, q, other, (n - 1) as nat);
        assert(class_price(p, sel, (n - 1) as ClassId) <= class_price(q, other, (n - 1) as ClassId));
    }
}

/// A solution costs nothing negative for any class.
pub proof fn lemma_class_price(p: Problem, sel: Map<ClassId, NodeId>, c: ClassId, n: nat)
    requires
        sound(p, n),
        solves(p, sel),
    ensures
        class_price(p, sel, c) >= 0,
        class_price(p, sel, c) < i64::MAX,
{
    if sel.contains_key(c) {
        let rank = choose|rank: Map<ClassId, nat>| solves_with(p, sel, rank);
        assert(p.classes.contains_key(c));
        lemma_offered(p.classes[c], sel[c]);
        assert(is_weight(p.classes[c][place(p.classes[c], sel[c])].cost));
    }
}

} // verus!
