use vstd::prelude::*;
use vstd::multiset::Multiset;
use vstd::seq_lib::{to_multiset_build, to_multiset_contains, to_multiset_len, to_multiset_remove};

verus! {

/// A totally ordered element type: `rank` places each value on the integers,
/// and distinct values never share a rank.
pub trait Priority: Sized {
    spec fn rank(&self) -> int;

    /// Whether `self` comes no later than `other`.
    fn at_most(&self, other: &Self) -> (r: bool)
        ensures
            r == (self.rank() <= other.rank()),
    ;

    /// Two values of the same rank are the same value.
    proof fn rank_injective(a: Self, b: Self)
        ensures
            a.rank() == b.rank() ==> a == b,
    ;
}

impl Priority for i32 {
    open spec fn rank(&self) -> int {
        *self as int
    }

    fn at_most(&self, other: &Self) -> (r: bool) {
        *self <= *other
    }

    proof fn rank_injective(a: Self, b: Self) {
    }
}

impl Priority for i64 {
    open spec fn rank(&self) -> int {
        *self as int
    }

    fn at_most(&self, other: &Self) -> (r: bool) {
        *self <= *other
    }

    proof fn rank_injective(a: Self, b: Self) {
    }
}

impl Priority for u32 {
    open spec fn rank(&self) -> int {
        *self as int
    }

    fn at_most(&self, other: &Self) -> (r: bool) {
        *self <= *other
    }

    proof fn rank_injective(a: Self, b: Self) {
    }
}

impl Priority for u64 {
    open spec fn rank(&self) -> int {
        *self as int
    }

    fn at_most(&self, other: &Self) -> (r: bool) {
        *self <= *other
    }

    proof fn rank_injective(a: Self, b: Self) {
    }
}

impl Priority for usize {
    open spec fn rank(&self) -> int {
        *self as int
    }

    fn at_most(&self, other: &Self) -> (r: bool) {
        *self <= *other
    }

    proof fn rank_injective(a: Self, b: Self) {
    }
}

/// `m` is in `s` and no element of `s` ranks below it.
pub open spec fn is_min_of<T: Priority>(m: T, s: Multiset<T>) -> bool {
    &&& s.contains(m)
    &&& forall|x: T| s.contains(x) ==> m.rank() <= x.rank()
}

/// A min-heap: a multiset of elements from which the least can be read and
/// taken.
pub trait Heap<T: Priority> {
    /// The elements currently held, with their multiplicities.
    spec fn elems(&self) -> Multiset<T>;

    /// Adds an element to this heap.
    fn add(&mut self, x: T)
        requires
            old(self).elems().len() < usize::MAX,
        ensures
            final(self).elems() == old(self).elems().insert(x),
    ;

    /// The least element of this heap, if it holds any.
    fn peek_min(&self) -> (r: Option<&T>)
        ensures
            r.is_none() <==> self.elems().len() == 0,
            r matches Some(m) ==> is_min_of(*m, self.elems()),
    ;

    /// Removes and returns the least element of this heap, if it holds any.
    fn remove_min(&mut self) -> (r: Option<T>)
        ensures
            old(self).elems().len() == 0 ==> r.is_none() && final(self).elems() == old(self).elems(),
            old(self).elems().len() > 0 ==> (r matches Some(m) && is_min_of(m, old(self).elems())
                && final(self).elems() == old(self).elems().remove(m)),
    ;

    /// The number of elements held.
    fn size(&self) -> (r: usize)
        ensures
            r as int == self.elems().len(),
    ;

    /// Whether the heap holds no element.
    fn is_empty(&self) -> (r: bool)
        ensures
            r == (self.elems().len() == 0),
    ;
}

/// The ranks along `s` never decrease.
pub open spec fn sorted_by_rank<T: Priority>(s: Seq<T>) -> bool {
    forall|i: int, j: int| 0 <= i <= j < s.len() ==> (#[trigger] s[i]).rank() <= (#[trigger] s[j]).rank()
}

/// A heap being emptied in order: each `next` takes the least element left.
pub struct HeapIntoIter<H> {
    heap: H,
}

impl<H> HeapIntoIter<H> {
    /// Starts emptying `heap`.
    pub fn new(heap: H) -> (r: Self)
        ensures
            r.remaining() == heap,
    {
        HeapIntoIter { heap }
    }

    /// The heap that is left.
    pub closed spec fn remaining(&self) -> H {
        self.heap
    }

    /// Takes the least element left, if any.
    pub fn next<T: Priority>(&mut self) -> (r: Option<T>)
        where
            H: Heap<T>,
        ensures
            old(self).remaining().elems().len() == 0 ==> r.is_none() && final(self).remaining().elems()
                == old(self).remaining().elems(),
            old(self).remaining().elems().len() > 0 ==> (r matches Some(m) && is_min_of(m, old(self).remaining().elems())
                && final(self).remaining().elems() == old(self).remaining().elems().remove(m)),
    {
        self.heap.remove_min()
    }
}

/// Empties `heap` by repeated `remove_min`: its elements, least first.
pub fn drain_sorted<T: Priority, H: Heap<T>>(heap: H) -> (r: Vec<T>)
    ensures
        sorted_by_rank(r@),
        r@.to_multiset() == heap.elems(),
{
    let ghost all = heap.elems();
    let mut it = HeapIntoIter::new(heap);
    let mut r: Vec<T> = Vec::new();
    proof {
        to_multiset_len(r@);
        assert(r@.to_multiset() =~= Multiset::<T>::empty());
    }
    loop
        invariant
            all == heap.elems(),
            sorted_by_rank(r@),
            r@.to_multiset().add(it.remaining().elems()) == all,
            r@.len() > 0 ==> forall|x: T| it.remaining().elems().contains(x) ==> r@.last().rank() <= x.rank(),
        decreases it.remaining().elems().len(),
    {
        let ghost before = it.remaining().elems();
        match it.next() {
            None => {
                proof {
                    vstd::multiset::lemma_multiset_empty_len(it.remaining().elems());
                    assert(it.remaining().elems() =~= Multiset::<T>::empty());
                    assert(r@.to_multiset() =~= all);
                }
                return r;
            },
            Some(m) => {
                let ghost r0 = r@;
                r.push(m);
                proof {
                    to_multiset_build(r0, m);
                    assert(r@.to_multiset().add(it.remaining().elems()) =~= all);
                    assert forall|i: int, j: int| 0 <= i <= j < r@.len() implies (#[trigger] r@[i]).rank()
                        <= (#[trigger] r@[j]).rank() by {
                        if j == r@.len() - 1 && i < j {
                            assert(r0[i].rank() <= r0.last().rank());
                        }
                    }
                    assert forall|x: T| it.remaining().elems().contains(x) implies r@.last().rank() <= x.rank() by {
                        assert(before.contains(x));
                    }
                }
            },
        }
    }
}

/// Two sequences sorted by rank that hold the same elements are equal: how a
/// heap is built does not change what draining it yields.
pub proof fn lemma_sorted_unique<T: Priority>(a: Seq<T>, b: Seq<T>)
    requires
        sorted_by_rank(a),
        sorted_by_rank(b),
        a.to_multiset() == b.to_multiset(),
    ensures
        a == b,
    decreases a.len(),
{
    to_multiset_len(a);
    to_multiset_len(b);
    if a.len() > 0 {
        to_multiset_contains(a, a[0]);
        to_multiset_contains(b, b[0]);
        assert(a.contains(a[0]));
        assert(b.contains(b[0]));
        to_multiset_contains(a, b[0]);
        to_multiset_contains(b, a[0]);
        let i = choose|i: int| 0 <= i < a.len() && a[i] == b[0];
        let j = choose|j: int| 0 <= j < b.len() && b[j] == a[0];
        assert(a[0].rank() <= a[i].rank());
        assert(b[0].rank() <= b[j].rank());
        T::rank_injective(a[0], b[0]);
        to_multiset_remove(a, 0);
        to_multiset_remove(b, 0);
        assert(a.remove(0) =~= a.drop_first());
        assert(b.remove(0) =~= b.drop_first());
        let a1 = a.drop_first();
        let b1 = b.drop_first();
        assert(sorted_by_rank(a1)) by {
            assert forall|i: int, j: int| 0 <= i <= j < a1.len() implies (#[trigger] a1[i]).rank() <= (#[trigger] a1[j]).rank() by {
                assert(a[i + 1].rank() <= a[j + 1].rank());
            }
        }
        assert(sorted_by_rank(b1)) by {
            assert forall|i: int, j: int| 0 <= i <= j < b1.len() implies (#[trigger] b1[i]).rank() <= (#[trigger] b1[j]).rank() by {
                assert(b[i + 1].rank() <= b[j + 1].rank());
            }
        }
        lemma_sorted_unique(a1, b1);
        assert(a =~= b) by {
            assert forall|k: int| 0 <= k < a.len() implies a[k] == b[k] by {
                if k > 0 {
                    assert(a[k] == a1[k - 1]);
                    assert(b[k] == b1[k - 1]);
                }
            }
        }
    } else {
        assert(a =~= b);
    }
}

} // verus!
