//! A queue of cells, lowest level first.
//!
//! A binary heap over `(level, cell)` pairs. Pairs are ordered by level, and
//! by cell number where levels are equal, so what comes out next never depends
//! on the order in which the pairs went in.

use vstd::multiset::Multiset;
use vstd::prelude::*;

verus! {

pub struct MinHeap {
    items: Vec<(i64, u32)>,
}

/// `a` comes out no later than `b`.
pub open spec fn comes_first(a: (i64, u32), b: (i64, u32)) -> bool {
    a.0 < b.0 || (a.0 == b.0 && a.1 <= b.1)
}

fn before(a: (i64, u32), b: (i64, u32)) -> (r: bool)
    ensures
        r == comes_first(a, b),
{
    a.0 < b.0 || (a.0 == b.0 && a.1 <= b.1)
}

spec fn parent(j: int) -> int {
    (j - 1) / 2
}

/// Every pair comes out no earlier than the one above it.
spec fn is_heap(s: Seq<(i64, u32)>) -> bool {
    forall|j: int| 0 < j < s.len() ==> comes_first(s[parent(j)], #[trigger] s[j])
}

/// A heap but for the pair at `i`, which may belong further up.
spec fn is_heap_above(s: Seq<(i64, u32)>, i: int) -> bool {
    &&& forall|j: int|
        0 < j < s.len() && j != i ==> comes_first(s[parent(j)], #[trigger] s[j])
    &&& forall|j: int|
        0 < j < s.len() && 0 < i && parent(j) == i ==> comes_first(s[parent(i)], #[trigger] s[j])
}

/// A heap but for the pair at `i`, which may belong further down.
spec fn is_heap_below(s: Seq<(i64, u32)>, i: int) -> bool {
    &&& forall|j: int|
        0 < j < s.len() && parent(j) != i ==> comes_first(s[parent(j)], #[trigger] s[j])
    &&& forall|j: int|
        0 < j < s.len() && 0 < i && parent(j) == i ==> comes_first(s[parent(i)], #[trigger] s[j])
}

proof fn lemma_root_is_first(s: Seq<(i64, u32)>, j: int)
    requires
        is_heap(s),
        0 <= j < s.len(),
    ensures
        comes_first(s[0], s[j]),
    decreases j,
{
    if j > 0 {
        lemma_root_is_first(s, parent(j));
    }
}

spec fn swapped(s: Seq<(i64, u32)>, i: int, j: int) -> Seq<(i64, u32)> {
    s.update(i, s[j]).update(j, s[i])
}

proof fn lemma_swap_keeps_contents(s: Seq<(i64, u32)>, i: int, j: int)
    requires
        0 <= i < s.len(),
        0 <= j < s.len(),
        i != j,
    ensures
        swapped(s, i, j).to_multiset() == s.to_multiset(),
{
    broadcast use vstd::seq_lib::group_to_multiset_ensures;

    assert(s.contains(s[i]));
    assert(s.contains(s[j]));
    assert(swapped(s, i, j).to_multiset() =~= s.to_multiset());
}

impl MinHeap {
    /// The pairs in the queue.
    pub closed spec fn contents(&self) -> Multiset<(i64, u32)> {
        self.items@.to_multiset()
    }

    pub closed spec fn wf(&self) -> bool {
        is_heap(self.items@)
    }

    pub fn new() -> (r: Self)
        ensures
            r.wf(),
            r.contents() == Multiset::<(i64, u32)>::empty(),
    {
        let r = MinHeap { items: Vec::new() };
        assert(r.items@.to_multiset() =~= Multiset::<(i64, u32)>::empty()) by {
            broadcast use vstd::seq_lib::group_to_multiset_ensures;

            assert forall|v: (i64, u32)| r.items@.to_multiset().count(v) == 0 by {
                assert(!r.items@.contains(v));
            }
        }
        r
    }

    pub fn push(&mut self, item: (i64, u32))
        requires
            old(self).wf(),
        ensures
            final(self).wf(),
            final(self).contents() == old(self).contents().insert(item),
    {
        let mut i: usize = self.items.len();
        self.items.push(item);
        proof {
            broadcast use vstd::seq_lib::group_to_multiset_ensures;

            assert(self.items@ == old(self).items@.push(item));
        }
        while i > 0
            invariant
                i < self.items@.len(),
                is_heap_above(self.items@, i as int),
                self.items@.to_multiset() == old(self).items@.to_multiset().insert(item),
            ensures
                is_heap(self.items@),
                self.items@.to_multiset() == old(self).items@.to_multiset().insert(item),
            decreases i,
        {
            let up: usize = (i - 1) / 2;
            let a = self.items[up];
            let b = self.items[i];
            if before(a, b) {
                break;
            }
            let ghost s = self.items@;
            proof {
                lemma_swap_keeps_contents(s, up as int, i as int);
            }
            self.items.set(up, b);
            self.items.set(i, a);
            assert(self.items@ =~= swapped(s, up as int, i as int));
            i = up;
        }
    }

    pub fn pop(&mut self) -> (r: Option<(i64, u32)>)
        requires
            old(self).wf(),
        ensures
            final(self).wf(),
            match r {
                None => {
                    &&& final(self).contents() == old(self).contents()
                    &&& forall|e: (i64, u32)| #[trigger] old(self).contents().count(e) == 0
                },
                Some(first) => {
                    &&& old(self).contents().count(first) > 0
                    &&& forall|e: (i64, u32)| #[trigger]
                        old(self).contents().count(e) > 0 ==> comes_first(first, e)
                    &&& final(self).contents() == old(self).contents().remove(first)
                },
            },
    {
        let n: usize = self.items.len();
        if n == 0 {
            proof {
                broadcast use vstd::seq_lib::group_to_multiset_ensures;

                assert forall|e: (i64, u32)| #[trigger] old(self).contents().count(e) == 0 by {
                    assert(!old(self).items@.contains(e));
                }
            }
            return None;
        }
        let first = self.items[0];
        let last = self.items[n - 1];
        let ghost s = self.items@;
        self.items.set(0, last);
        self.items.pop();
        proof {
            broadcast use vstd::seq_lib::group_to_multiset_ensures;

            assert(s.contains(s[0]));
            assert(s.contains(s[n - 1]));
            assert(self.items@ =~= s.update(0, last).remove(n - 1));
            assert(self.items@.to_multiset() =~= s.to_multiset().remove(first));
            assert forall|e: (i64, u32)| #[trigger] s.to_multiset().count(e)
                > 0 implies comes_first(first, e) by {
                assert(s.contains(e));
                let j = choose|j: int| 0 <= j < s.len() && s[j] == e;
                lemma_root_is_first(s, j);
            }
            assert(is_heap_below(self.items@, 0));
        }
        let m: usize = self.items.len();
        let mut i: usize = 0;
        while i < m / 2
            invariant
                i < m || m == 0,
                m == self.items@.len(),
                is_heap_below(self.items@, i as int),
                self.items@.to_multiset() == s.to_multiset().remove(first),
            ensures
                is_heap(self.items@),
                self.items@.to_multiset() == s.to_multiset().remove(first),
            decreases m - i,
        {
            let mut child: usize = 2 * i + 1;
            if child + 1 < m && before(self.items[child + 1], self.items[child]) {
                child = child + 1;
            }
            let a = self.items[i];
            let b = self.items[child];
            assert(parent(2 * i + 1) == i && parent(2 * i + 2) == i);
            assert(comes_first(b, self.items@[2 * i + 1]));
            assert(2 * i + 2 < m ==> comes_first(b, self.items@[2 * i + 2]));
            assert forall|j: int| 0 < j < m && parent(j) == i implies j == 2 * i + 1 || j == 2 * i
                + 2 by {}
            if before(a, b) {
                break;
            }
            let ghost t = self.items@;
            proof {
                lemma_swap_keeps_contents(t, i as int, child as int);
            }
            self.items.set(i, b);
            self.items.set(child, a);
            assert(self.items@ =~= swapped(t, i as int, child as int));
            i = child;
        }
        Some(first)
    }
}

} // verus!
