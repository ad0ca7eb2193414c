//! The e-graph the extractors choose from.
//!
//! Nodes and classes are numbered densely: node `n` is `nodes[n]` and class
//! `c` is `classes[c]`. Every class holds at least one node.
use crate::cost::Cost;
use vstd::prelude::*;

verus! {

pub type NodeId = usize;

pub type ClassId = usize;

/// One e-node.
#[derive(Debug, Clone)]
pub struct Node {
    pub op: String,
    /// The child nodes; a child stands for its whole class.
    pub children: Vec<NodeId>,
    /// The class the node belongs to.
    pub eclass: ClassId,
    /// The size of the node.
    pub cost: Cost,
    /// The depth of the node.
    pub delay: Cost,
    /// Whether the node belongs to the initial expression.
    pub initial: bool,
}

/// One e-class and its member nodes, in node order.
#[derive(Debug, Clone)]
pub struct Class {
    pub id: ClassId,
    pub nodes: Vec<NodeId>,
}

/// An e-graph with its nodes grouped by class.
#[derive(Debug, Clone)]
pub struct EGraph {
    pub nodes: Vec<Node>,
    pub root_eclasses: Vec<ClassId>,
    pub classes: Vec<Class>,
}

/// Why a list of nodes is not an e-graph.
#[derive(Debug, Clone, Copy, PartialEq, Eq)]
pub enum EGraphError {
    /// A child of `node` is not a node of the list.
    UnknownChild { node: NodeId, child: NodeId },
    /// No node belongs to `class`, though a class of a higher number has one.
    EmptyClass { class: ClassId },
}

/// Every child of a node is a node.
pub open spec fn children_known(nodes: Seq<Node>) -> bool {
    forall|n: int, j: int|
        0 <= n < nodes.len() && 0 <= j < nodes[n].children@.len() ==> (#[trigger] nodes[n].children@[j])
            < nodes.len()
}

/// Some node belongs to class `c`.
pub open spec fn inhabited(nodes: Seq<Node>, c: int) -> bool {
    exists|n: int| 0 <= n < nodes.len() && (#[trigger] nodes[n]).eclass == c
}

/// No class number below a used one is left out.
pub open spec fn classes_dense(nodes: Seq<Node>) -> bool {
    forall|n: int, c: int|
        0 <= n < nodes.len() && 0 <= c <= (#[trigger] nodes[n]).eclass ==> #[trigger] inhabited(nodes, c)
}

/// `members` lists the nodes of class `c`, in node order.
pub open spec fn lists_members(nodes: Seq<Node>, c: int, members: Seq<NodeId>) -> bool {
    &&& forall|i: int|
        0 <= i < members.len() ==> (#[trigger] members[i]) < nodes.len() && nodes[members[i] as int].eclass == c
    &&& forall|i: int, j: int| 0 <= i < j < members.len() ==> members[i] < members[j]
    &&& forall|n: int|
        0 <= n < nodes.len() && (#[trigger] nodes[n]).eclass == c ==> members.contains(n as usize)
}

impl EGraph {
    /// The nodes and classes refer to each other consistently.
    pub open spec fn wf(&self) -> bool {
        &&& children_known(self.nodes@)
        &&& forall|n: int|
            0 <= n < self.nodes@.len() ==> (#[trigger] self.nodes@[n]).eclass < self.classes@.len()
        &&& forall|c: int|
            0 <= c < self.classes@.len() ==> {
                &&& (#[trigger] self.classes@[c]).id == c
                &&& self.classes@[c].nodes@.len() > 0
                &&& lists_members(self.nodes@, c, self.classes@[c].nodes@)
            }
    }

    /// Class `c` is the class of a child of node `n`.
    pub open spec fn depends(&self, n: NodeId, c: ClassId) -> bool {
        exists|j: int|
            0 <= j < self.nodes@[n as int].children@.len() && self.child_class(n, j) == c
    }

    /// The class of the `j`th child of node `n`.
    pub open spec fn child_class(&self, n: NodeId, j: int) -> ClassId {
        self.nodes@[self.nodes@[n as int].children@[j] as int].eclass
    }

    /// The e-graph over `nodes`, or why there is none.
    pub fn new(nodes: Vec<Node>, root_eclasses: Vec<ClassId>) -> (r: Result<EGraph, EGraphError>)
        ensures
            r is Ok <==> children_known(nodes@) && classes_dense(nodes@),
            r matches Ok(g) ==> g.wf() && g.nodes == nodes && g.root_eclasses == root_eclasses,
            r matches Err(EGraphError::UnknownChild { node, child }) ==> node < nodes@.len()
                && nodes@[node as int].children@.contains(child) && child >= nodes@.len(),
            r matches Err(EGraphError::EmptyClass { class }) ==> !inhabited(nodes@, class as int)
                && exists|n: int| 0 <= n < nodes@.len() && class < (#[trigger] nodes@[n]).eclass,
    {
        let n_nodes: usize = nodes.len();
        let mut n: usize = 0;
        let mut n_classes: usize = 0;
        while n < n_nodes
            invariant
                n <= n_nodes == nodes@.len(),
                forall|m: int, j: int|
                    0 <= m < n && 0 <= j < nodes@[m].children@.len() ==> (
                    #[trigger] nodes@[m].children@[j]) < n_nodes,
                n_classes <= n_nodes,
                forall|m: int| 0 <= m < n ==> (#[trigger] nodes@[m]).eclass < n_classes,
                n_classes > 0 ==> exists|m: int|
                    0 <= m < n && (#[trigger] nodes@[m]).eclass + 1 == n_classes,
            decreases n_nodes - n,
        {
            let mut j: usize = 0;
            while j < nodes[n].children.len()
                invariant
                    n < n_nodes == nodes@.len(),
                    j <= nodes@[n as int].children@.len(),
                    forall|i: int|
                        0 <= i < j ==> (#[trigger] nodes@[n as int].children@[i]) < n_nodes,
                decreases nodes@[n as int].children@.len() - j,
            {
                let child: NodeId = nodes[n].children[j];
                if child >= n_nodes {
                    proof {
                        assert(!(nodes@[n as int].children@[j as int] < nodes@.len()));
                    }
                    return Err(EGraphError::UnknownChild { node: n, child });
                }
                j += 1;
            }
            let c: ClassId = nodes[n].eclass;
            if c >= n_nodes {
                // More class numbers than nodes: one of them is unused.
                return Err(EGraphError::EmptyClass { class: Self::unused_class(&nodes, n) });
            }
            if c >= n_classes {
                n_classes = c + 1;
            }
            n += 1;
        }
        let mut classes: Vec<Class> = Vec::new();
        let mut c: usize = 0;
        while c < n_classes
            invariant
                c <= n_classes <= n_nodes == nodes@.len(),
                classes@.len() == c,
                forall|k: int|
                    0 <= k < c ==> (#[trigger] classes@[k]).id == k && classes@[k].nodes@.len() == 0,
            decreases n_classes - c,
        {
            classes.push(Class { id: c, nodes: Vec::new() });
            c += 1;
        }
        let mut n: usize = 0;
        while n < n_nodes
            invariant
                n <= n_nodes == nodes@.len(),
                classes@.len() == n_classes,
                forall|m: int| 0 <= m < n_nodes ==> (#[trigger] nodes@[m]).eclass < n_classes,
                forall|k: int|
                    0 <= k < n_classes ==> (#[trigger] classes@[k]).id == k && lists_members(
                        nodes@.take(n as int),
                        k,
                        classes@[k].nodes@,
                    ),
            decreases n_nodes - n,
        {
            let c: ClassId = nodes[n].eclass;
            let ghost before = classes@;
            let mut members: Vec<NodeId> = Vec::new();
            std::mem::swap(&mut members, &mut classes[c].nodes);
            members.push(n);
            classes[c].nodes = members;
            proof {
                let small = nodes@.take(n as int);
                let big = nodes@.take(n + 1);
                assert forall|k: int| 0 <= k < n_classes implies (#[trigger] classes@[k]).id == k
                    && lists_members(big, k, classes@[k].nodes@) by {
                    let old_members = before[k].nodes@;
                    let new_members = classes@[k].nodes@;
                    assert(lists_members(small, k, old_members));
                    assert forall|m: int| 0 <= m < big.len() && (#[trigger] big[m]).eclass == k implies new_members.contains(
                    m as usize) by {
                        if m < n {
                            assert(small[m] == big[m]);
                            assert(old_members.contains(m as usize));
                            let i = choose|i: int|
                                0 <= i < old_members.len() && old_members[i] == m as usize;
                            assert(new_members[i] == m as usize);
                        } else {
                            assert(new_members[old_members.len() as int] == n);
                        }
                    }
                    assert forall|i: int| 0 <= i < new_members.len() implies (
                    #[trigger] new_members[i]) < big.len() && big[new_members[i] as int].eclass
                        == k by {
                        if i < old_members.len() {
                            assert(new_members[i] == old_members[i]);
                            assert(small[old_members[i] as int] == big[old_members[i] as int]);
                        }
                    }
                }
            }
            n += 1;
        }
        proof {
            assert(nodes@.take(n_nodes as int) =~= nodes@);
        }
        let mut c: usize = 0;
        while c < n_classes
            invariant
                c <= n_classes,
                classes@.len() == n_classes,
                n_nodes == nodes@.len(),
                children_known(nodes@),
                forall|m: int| 0 <= m < n_nodes ==> (#[trigger] nodes@[m]).eclass < n_classes,
                n_classes > 0 ==> exists|m: int|
                    0 <= m < n_nodes && (#[trigger] nodes@[m]).eclass + 1 == n_classes,
                forall|k: int|
                    0 <= k < n_classes ==> (#[trigger] classes@[k]).id == k && lists_members(
                        nodes@,
                        k,
                        classes@[k].nodes@,
                    ),
                forall|k: int|
                    0 <= k < c ==> (#[trigger] classes@[k]).nodes@.len() > 0 && inhabited(
                        nodes@,
                        k,
                    ),
            decreases n_classes - c,
        {
            if classes[c].nodes.len() == 0 {
                proof {
                    assert(lists_members(nodes@, c as int, classes@[c as int].nodes@));
                    let top = choose|m: int|
                        0 <= m < n_nodes && (#[trigger] nodes@[m]).eclass + 1 == n_classes;
                    assert(!inhabited(nodes@, c as int));
                    assert(c < nodes@[top].eclass || c == nodes@[top].eclass);
                    assert(c as int <= nodes@[top].eclass);
                }
                return Err(EGraphError::EmptyClass { class: c });
            }
            proof {
                let m = classes@[c as int].nodes@[0];
                assert(lists_members(nodes@, c as int, classes@[c as int].nodes@));
                assert(nodes@[m as int].eclass == c);
            }
            c += 1;
        }
        proof {
            assert forall|m: int, k: int|
                0 <= m < nodes@.len() && 0 <= k <= (
                #[trigger] nodes@[m]).eclass implies #[trigger] inhabited(nodes@, k) by {
                assert(k < n_classes);
                assert(classes@[k].nodes@.len() > 0);
            }
        }
        Ok(EGraph { nodes, root_eclasses, classes })
    }

    /// A class number below that of node `n` which no node has.
    fn unused_class(nodes: &Vec<Node>, n: NodeId) -> (r: ClassId)
        requires
            n < nodes@.len(),
            nodes@[n as int].eclass >= nodes@.len(),
        ensures
            r < nodes@[n as int].eclass,
            !inhabited(nodes@, r as int),
    {
        let n_nodes: usize = nodes.len();
        let mut used: Vec<bool> = Vec::new();
        let mut c: usize = 0;
        while c < n_nodes
            invariant
                c <= n_nodes,
                used@.len() == c,
                forall|k: int| 0 <= k < c ==> !#[trigger] used@[k],
            decreases n_nodes - c,
        {
            used.push(false);
            c += 1;
        }
        let ghost mut seen: Set<int> = Set::empty();
        let mut m: usize = 0;
        while m < n_nodes
            invariant
                m <= n_nodes == nodes@.len(),
                used@.len() == n_nodes,
                n < n_nodes,
                nodes@[n as int].eclass >= n_nodes,
                seen.finite(),
                seen.len() <= m,
                m > n ==> seen.len() < m,
                forall|k: int| 0 <= k < n_nodes ==> (#[trigger] used@[k] <==> seen.contains(k)),
                forall|k: int| #[trigger] seen.contains(k) ==> 0 <= k < n_nodes,
                forall|i: int|
                    0 <= i < m && (#[trigger] nodes@[i]).eclass < n_nodes ==> used@[nodes@[i].eclass as int],
            decreases n_nodes - m,
        {
            let k: ClassId = nodes[m].eclass;
            if k < n_nodes {
                used[k] = true;
                proof {
                    vstd::set::axiom_set_insert_len(seen, k as int);
                    seen = seen.insert(k as int);
                }
            }
            m += 1;
        }
        let mut c: usize = 0;
        while c < n_nodes
            invariant
                c <= n_nodes == nodes@.len() == used@.len(),
                n < n_nodes,
                nodes@[n as int].eclass >= n_nodes,
                seen.finite(),
                seen.len() < n_nodes,
                forall|k: int| 0 <= k < n_nodes ==> (#[trigger] used@[k] <==> seen.contains(k)),
                forall|i: int|
                    0 <= i < n_nodes && (#[trigger] nodes@[i]).eclass < n_nodes ==> used@[nodes@[i].eclass as int],
                forall|k: int| 0 <= k < c ==> #[trigger] used@[k],
            decreases n_nodes - c,
        {
            if !used[c] {
                return c;
            }
            c += 1;
        }
        proof {
            let all = vstd::set_lib::set_int_range(0, n_nodes as int);
            vstd::set_lib::lemma_int_range(0, n_nodes as int);
            assert(all.subset_of(seen)) by {
                assert forall|k: int| all.contains(k) implies seen.contains(k) by {
                    assert(used@[k]);
                }
            }
            vstd::set_lib::lemma_len_subset(all, seen);
            assert(false);
        }
        0
    }

    /// The class of node `n`.
    pub fn nid_to_cid(&self, n: NodeId) -> (r: ClassId)
        requires
            n < self.nodes@.len(),
        ensures
            r == self.nodes@[n as int].eclass,
    {
        self.nodes[n].eclass
    }

    /// The children of a node are of known classes.
    pub proof fn lemma_child_class(&self, n: NodeId, j: int)
        requires
            self.wf(),
            n < self.nodes@.len(),
            0 <= j < self.nodes@[n as int].children@.len(),
        ensures
            self.child_class(n, j) < self.classes@.len(),
            self.depends(n, self.child_class(n, j)),
    {
        assert(self.nodes@[n as int].children@[j] < self.nodes@.len());
        assert(self.nodes@[self.nodes@[n as int].children@[j] as int].eclass
            < self.classes@.len());
    }

    /// A class that a node depends on is a known one.
    pub proof fn lemma_depends(&self, n: NodeId, c: ClassId)
        requires
            self.wf(),
            n < self.nodes@.len(),
            self.depends(n, c),
        ensures
            c < self.classes@.len(),
    {
        let j = choose|j: int|
            0 <= j < self.nodes@[n as int].children@.len() && self.child_class(n, j) == c;
        self.lemma_child_class(n, j);
    }
}

} // verus!
