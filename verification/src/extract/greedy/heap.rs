//! A binary min-heap of candidates.
use crate::cost::Cost;
use vstd::multiset::Multiset;
use vstd::prelude::*;

verus! {

/// A candidate: its cost, when it was pushed, and which node it is.
pub type Candidate = (Cost, usize, usize);

/// Candidate `a` comes strictly before candidate `b`: by cost, then by order
/// of insertion, then by node.
pub open spec fn before(a: Candidate, b: Candidate) -> bool {
    a.0 < b.0 || (a.0 == b.0 && (a.1 < b.1 || (a.1 == b.1 && a.2 < b.2)))
}

/// No item comes before its parent.
pub open spec fn heap_ordered(s: Seq<Candidate>) -> bool {
    forall|i: int| 0 < i < s.len() ==> !before(#[trigger] s[i], s[(i - 1) / 2])
}

/// A priority queue that hands out the first candidate first.
pub struct MinHeap {
    items: Vec<Candidate>,
}

proof fn lemma_swap_multiset(s: Seq<Candidate>, i: int, j: int)
    requires
        0 <= i < j < s.len(),
    ensures
        s.update(i, s[j]).update(j, s[i]).to_multiset() == s.to_multiset(),
{
    broadcast use vstd::multiset::group_multiset_axioms;

    let t = s.update(i, s[j]).update(j, s[i]);
    vstd::seq_lib::to_multiset_remove(s, j);
    vstd::seq_lib::to_multiset_remove(s.remove(j), i);
    vstd::seq_lib::to_multiset_remove(t, j);
    vstd::seq_lib::to_multiset_remove(t.remove(j), i);
    assert(s.remove(j).remove(i) =~= t.remove(j).remove(i));
    s.to_multiset_ensures();
    t.to_multiset_ensures();
    s.remove(j).to_multiset_ensures();
    t.remove(j).to_multiset_ensures();
    assert(s.remove(j)[i] == s[i]);
    assert(t.remove(j)[i] == s[j]);
    assert(s.contains(s[j]) && t.contains(t[j]));
    assert(s.remove(j).contains(s[i])) by {
        assert(s.remove(j)[i] == s[i]);
    }
    assert(t.remove(j).contains(s[j])) by {
        assert(t.remove(j)[i] == s[j]);
    }
    let rest = s.remove(j).remove(i).to_multiset();
    assert(s.to_multiset() =~= rest.insert(s[i]).insert(s[j]));
    assert(t.to_multiset() =~= rest.insert(s[j]).insert(s[i]));
    assert(s.to_multiset() =~= t.to_multiset());
}

/// The root of a heap comes before everything else in it.
proof fn lemma_root_first(s: Seq<Candidate>, i: int)
    requires
        heap_ordered(s),
        0 <= i < s.len(),
    ensures
        !before(s[i], s[0]),
    decreases i,
{
    if i > 0 {
        lemma_root_first(s, (i - 1) / 2);
        assert(!before(s[i], s[(i - 1) / 2]));
    }
}

/// [`before`].
fn is_before(a: Candidate, b: Candidate) -> (r: bool)
    ensures
        r == before(a, b),
{
    a.0 < b.0 || (a.0 == b.0 && (a.1 < b.1 || (a.1 == b.1 && a.2 < b.2)))
}

impl View for MinHeap {
    type V = Multiset<Candidate>;

    closed spec fn view(&self) -> Multiset<Candidate> {
        self.items@.to_multiset()
    }
}

impl MinHeap {
    /// The items are in heap order.
    pub closed spec fn wf(&self) -> bool {
        heap_ordered(self.items@)
    }

    pub fn new() -> (r: MinHeap)
        ensures
            r.wf(),
            r@ == Multiset::<Candidate>::empty(),
    {
        let items: Vec<Candidate> = Vec::new();
        proof {
            items@.to_multiset_ensures();
            assert(items@.to_multiset() =~= Multiset::empty());
        }
        MinHeap { items }
    }

    fn swap(&mut self, i: usize, j: usize)
        requires
            i < j < old(self).items@.len(),
        ensures
            final(self).items@ == old(self).items@.update(i as int, old(self).items@[j as int]).update(
                j as int,
                old(self).items@[i as int],
            ),
            final(self)@ == old(self)@,
    {
        let a: Candidate = self.items[i];
        let b: Candidate = self.items[j];
        proof {
            lemma_swap_multiset(self.items@, i as int, j as int);
        }
        self.items.set(i, b);
        self.items.set(j, a);
    }

    pub fn push(&mut self, item: Candidate)
        requires
            old(self).wf(),
        ensures
            final(self).wf(),
            final(self)@ == old(self)@.insert(item),
    {
        let ghost start = self.items@;
        self.items.push(item);
        proof {
            vstd::seq_lib::to_multiset_build(start, item);
        }
        let mut i: usize = self.items.len() - 1;
        while i > 0
            invariant
                i < self.items@.len(),
                self@ == old(self)@.insert(item),
                forall|k: int|
                    0 < k < self.items@.len() && k != i ==> !before(
                        #[trigger] self.items@[k],
                        self.items@[(k - 1) / 2],
                    ),
                forall|k: int|
                    0 < k < self.items@.len() && i > 0 && (k - 1) / 2 == i ==> !before(
                        #[trigger] self.items@[k],
                        self.items@[(i - 1) / 2],
                    ),
            ensures
                self@ == old(self)@.insert(item),
                heap_ordered(self.items@),
            decreases i,
        {
            let parent: usize = (i - 1) / 2;
            if !is_before(self.items[i], self.items[parent]) {
                break;
            }
            let ghost pre = self.items@;
            self.swap(parent, i);
            proof {
                let post = self.items@;
                assert forall|k: int| 0 < k < post.len() && k != parent implies !before(
                    #[trigger] post[k],
                    post[(k - 1) / 2],
                ) by {
                    if k == i {
                    } else if (k - 1) / 2 == i {
                        assert(!before(pre[k], pre[parent as int]));
                    } else if (k - 1) / 2 == parent {
                        assert(!before(pre[k], pre[parent as int]));
                    } else {
                        assert(!before(pre[k], pre[(k - 1) / 2]));
                    }
                }
                assert forall|k: int|
                    0 < k < post.len() && parent > 0 && (k - 1) / 2 == parent implies !before(
                    #[trigger] post[k],
                    post[(parent - 1) / 2],
                ) by {
                    assert(!before(pre[parent as int], pre[(parent - 1) / 2]));
                    if k != i {
                        assert(!before(pre[k], pre[parent as int]));
                    }
                }
            }
            i = parent;
        }
    }

    /// Takes out the first candidate.
    pub fn pop(&mut self) -> (r: Option<Candidate>)
        requires
            old(self).wf(),
        ensures
            final(self).wf(),
            r is None <==> old(self)@.len() == 0,
            r is None ==> final(self)@ == old(self)@,
            r matches Some(item) ==> {
                &&& old(self)@.contains(item)
                &&& final(self)@ == old(self)@.remove(item)
                &&& forall|other: Candidate| #[trigger]
                    old(self)@.contains(other) ==> !before(other, item)
            },
    {
        broadcast use vstd::multiset::group_multiset_axioms;

        let n: usize = self.items.len();
        proof {
            self.items@.to_multiset_ensures();
        }
        if n == 0 {
            return None;
        }
        let ghost start = self.items@;
        let first: Candidate = self.items[0];
        proof {
            assert forall|other: Candidate| #[trigger] old(self)@.contains(other) implies !before(
                other,
                first,
            ) by {
                assert(start.contains(other));
                let k = choose|k: int| 0 <= k < start.len() && start[k] == other;
                lemma_root_first(start, k);
            }
            assert(start.contains(start[0]));
        }
        if n > 1 {
            self.swap(0, n - 1);
        }
        let ghost swapped = self.items@;
        self.items.pop();
        proof {
            assert(self.items@ =~= swapped.remove(n - 1));
            vstd::seq_lib::to_multiset_remove(swapped, n - 1);
            assert(swapped[n - 1] == first);
        }
        let len: usize = n - 1;
        let mut i: usize = 0;
        proof {
            assert forall|k: int| 0 < k < len && (k - 1) / 2 != 0 implies !before(
                #[trigger] self.items@[k],
                self.items@[(k - 1) / 2],
            ) by {
                assert(self.items@[k] == start[k]);
                assert(self.items@[(k - 1) / 2] == start[(k - 1) / 2]);
            }
        }
        while i < len
            invariant
                i <= len == self.items@.len(),
                self@ == old(self)@.remove(first),
                forall|k: int|
                    0 < k < len && (k - 1) / 2 != i ==> !before(
                        #[trigger] self.items@[k],
                        self.items@[(k - 1) / 2],
                    ),
                forall|k: int|
                    0 < k < len && 0 < i < len && (k - 1) / 2 == i ==> !before(
                        #[trigger] self.items@[k],
                        self.items@[(i - 1) / 2],
                    ),
            ensures
                self@ == old(self)@.remove(first),
                heap_ordered(self.items@),
            decreases len - i,
        {
            if i >= len / 2 {
                proof {
                    assert forall|k: int| 0 < k < len implies !before(
                        #[trigger] self.items@[k],
                        self.items@[(k - 1) / 2],
                    ) by {}
                }
                break;
            }
            let left: usize = 2 * i + 1;
            let mut least: usize = left;
            if left + 1 < len && is_before(self.items[left + 1], self.items[left]) {
                least = left + 1;
            }
            if !is_before(self.items[least], self.items[i]) {
                proof {
                    assert forall|k: int| 0 < k < len implies !before(
                        #[trigger] self.items@[k],
                        self.items@[(k - 1) / 2],
                    ) by {
                        if (k - 1) / 2 == i {
                            assert(k == left || k == left + 1);
                        }
                    }
                }
                break;
            }
            let ghost pre = self.items@;
            self.swap(i, least);
            proof {
                let post = self.items@;
                assert forall|k: int| 0 < k < len && (k - 1) / 2 != least implies !before(
                    #[trigger] post[k],
                    post[(k - 1) / 2],
                ) by {
                    if (k - 1) / 2 == i {
                        assert(k == left || k == left + 1);
                    } else if k == i {
                        assert(!before(pre[least as int], pre[(i - 1) / 2]));
                    } else {
                        assert(!before(pre[k], pre[(k - 1) / 2]));
                    }
                }
                assert forall|k: int| 0 < k < len && (k - 1) / 2 == least implies !before(
                    #[trigger] post[k],
                    post[(least - 1) / 2],
                ) by {
                    assert(!before(pre[k], pre[(k - 1) / 2]));
                }
            }
            i = least;
        }
        Some(first)
    }
}

} // verus!
