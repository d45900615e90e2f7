use vstd::prelude::*;
use vstd::multiset::Multiset;
use vstd::seq_lib::{to_multiset_remove, to_multiset_update, to_multiset_contains};
use crate::heap::{Heap, Priority, is_min_of};

verus! {

/// Position of the parent of slot `k` in an array laid out as a complete
/// binary tree.
pub open spec fn parent_of(k: int) -> int {
    (k - 1) / 2
}

/// Every slot but the root ranks no lower than its parent.
pub open spec fn heap_ordered<T: Priority>(s: Seq<T>) -> bool {
    forall|k: int| 0 < k < s.len() ==> s[parent_of(k)].rank() <= #[trigger] s[k].rank()
}

/// Slot `j` lies on the path from slot `i` up to the root.
pub open spec fn on_path(i: int, j: int) -> bool
    decreases i,
{
    j == i || (i > 0 && on_path(parent_of(i), j))
}

/// Slot `j` lies in the subtree whose root is slot `i`.
pub open spec fn in_subtree(i: int, j: int) -> bool
    decreases j,
{
    j == i || (j > i && j > 0 && in_subtree(i, parent_of(j)))
}

/// The subtree of a child lies inside the subtree of its parent.
proof fn lemma_subtree_nested(i: int, m: int, j: int)
    requires
        0 <= i,
        m > 0,
        parent_of(m) == i,
        in_subtree(m, j),
    ensures
        in_subtree(i, j),
    decreases j,
{
    assert(m > i);
    if j != m {
        lemma_subtree_nested(i, m, parent_of(j));
    } else {
        assert(in_subtree(i, i));
    }
}

/// Heap order while slot `i` is moving up: it may rank below its parent, and
/// its parent ranks no higher than its children.
spec fn rising<T: Priority>(s: Seq<T>, i: int) -> bool {
    &&& forall|k: int| 0 < k < s.len() && k != i ==> s[parent_of(k)].rank() <= #[trigger] s[k].rank()
    &&& i > 0 ==> forall|c: int| 0 < c < s.len() && parent_of(c) == i ==> s[parent_of(i)].rank() <= #[trigger] s[c].rank()
}

/// Heap order while slot `i` is moving down: its children may rank below it,
/// and its parent ranks no higher than its children.
spec fn sinking<T: Priority>(s: Seq<T>, i: int) -> bool {
    &&& forall|k: int| 0 < k < s.len() && parent_of(k) != i ==> s[parent_of(k)].rank() <= #[trigger] s[k].rank()
    &&& i > 0 ==> forall|c: int| 0 < c < s.len() && parent_of(c) == i ==> s[parent_of(i)].rank() <= #[trigger] s[c].rank()
}

/// In a heap-ordered array the first slot ranks no higher than slot `k`.
proof fn lemma_root_least<T: Priority>(s: Seq<T>, k: int)
    requires
        heap_ordered(s),
        0 <= k < s.len(),
    ensures
        s[0].rank() <= s[k].rank(),
    decreases k,
{
    if k > 0 {
        lemma_root_least(s, parent_of(k));
    }
}

/// Appending to a heap-ordered array leaves the new slot free to rise.
proof fn lemma_push_rising<T: Priority>(s: Seq<T>, x: T)
    requires
        heap_ordered(s),
    ensures
        rising(s.push(x), s.len() as int),
        s.push(x).to_multiset() == s.to_multiset().insert(x),
{
    let t = s.push(x);
    assert forall|k: int| 0 < k < t.len() && k != s.len() implies t[parent_of(k)].rank() <= #[trigger] t[k].rank() by {
        assert(t[k] == s[k]);
        assert(t[parent_of(k)] == s[parent_of(k)]);
    }
    vstd::seq_lib::to_multiset_build(s, x);
}

/// Moving the last slot of a heap-ordered array to the root, in place of the
/// least element, leaves the root free to sink.
proof fn lemma_take_root_sinking<T: Priority>(s: Seq<T>)
    requires
        heap_ordered(s),
        s.len() > 0,
    ensures
        sinking(s.update(0, s.last()).drop_last(), 0),
        s.update(0, s.last()).drop_last().to_multiset() == s.to_multiset().remove(s[0]),
        is_min_of(s[0], s.to_multiset()),
{
    let u = s.update(0, s.last());
    let d = u.drop_last();
    assert forall|k: int| 0 < k < d.len() && parent_of(k) != 0 implies d[parent_of(k)].rank() <= #[trigger] d[k].rank() by {
        assert(d[k] == s[k]);
        assert(d[parent_of(k)] == s[parent_of(k)]);
    }
    to_multiset_update(s, 0, s.last());
    to_multiset_remove(u, u.len() - 1);
    assert(u.remove(u.len() - 1) =~= d);
    assert(s.contains(s.last()));
    to_multiset_contains(s, s.last());
    assert(d.to_multiset() =~= s.to_multiset().remove(s[0]));
    to_multiset_contains(s, s[0]);
    assert(s.contains(s[0]));
    assert forall|x: T| s.to_multiset().contains(x) implies s[0].rank() <= x.rank() by {
        to_multiset_contains(s, x);
        let k = choose|k: int| 0 <= k < s.len() && s[k] == x;
        lemma_root_least(s, k);
    }
}

/// Exchanges the elements at `i` and `j`.
fn swap_at<T>(data: &mut Vec<T>, i: usize, j: usize)
    requires
        i < j < old(data).len(),
    ensures
        final(data)@ == old(data)@.update(i as int, old(data)@[j as int]).update(j as int, old(data)@[i as int]),
        final(data)@.to_multiset() == old(data)@.to_multiset(),
{
    let ghost s = data@;
    let mut hand = data.pop().unwrap();
    let last = data.len();
    if j == last {
        data.set_and_swap(i, &mut hand);
        data.push(hand);
        proof {
            assert(data@ =~= s.update(i as int, s[j as int]).update(j as int, s[i as int]));
        }
    } else {
        data.set_and_swap(i, &mut hand);
        data.set_and_swap(j, &mut hand);
        data.set_and_swap(i, &mut hand);
        data.push(hand);
        proof {
            assert(data@ =~= s.update(i as int, s[j as int]).update(j as int, s[i as int]));
        }
    }
    proof {
        let t = s.update(i as int, s[j as int]);
        to_multiset_update(s, i as int, s[j as int]);
        to_multiset_update(t, j as int, s[i as int]);
        to_multiset_contains(s, s[j as int]);
        to_multiset_contains(s, s[i as int]);
        assert(s.contains(s[j as int]));
        assert(s.contains(s[i as int]));
        assert(t[j as int] == s[j as int]);
        assert(data@.to_multiset() =~= s.to_multiset());
    }
}

/// A min-heap kept in a vector laid out as a complete binary tree: the
/// children of slot `i` are at `2i+1` and `2i+2`.
pub struct BinaryHeap<T: Priority> {
    data: Vec<T>,
}

impl<T: Priority> BinaryHeap<T> {
    #[verifier::type_invariant]
    spec fn ordered(self) -> bool {
        heap_ordered(self.data@)
    }

    /// An empty heap.
    pub fn new() -> (r: BinaryHeap<T>)
        ensures
            r.elems() == Multiset::<T>::empty(),
    {
        let r = BinaryHeap::<T> { data: Vec::new() };
        proof {
            assert(r.data@ =~= Seq::<T>::empty());
            assert(r.data@.to_multiset() =~= Multiset::<T>::empty()) by {
                vstd::seq_lib::to_multiset_len(r.data@);
            }
        }
        r
    }

    /// The left child of slot `idx` in an array of `len` slots, if it exists.
    fn left(len: usize, idx: usize) -> (r: Option<usize>)
        ensures
            r == (if 2 * idx + 1 < len { Some((2 * idx + 1) as usize) } else { None::<usize> }),
    {
        if idx >= usize::MAX / 2 {
            None
        } else {
            let proposed = 2 * idx + 1;
            if proposed < len {
                Some(proposed)
            } else {
                None
            }
        }
    }

    /// The right child of slot `idx` in an array of `len` slots, if it exists.
    fn right(len: usize, idx: usize) -> (r: Option<usize>)
        ensures
            r == (if 2 * idx + 2 < len { Some((2 * idx + 2) as usize) } else { None::<usize> }),
    {
        if idx >= usize::MAX / 2 {
            None
        } else {
            let proposed = 2 * idx + 2;
            if proposed < len {
                Some(proposed)
            } else {
                None
            }
        }
    }

    /// The parent of slot `idx`; the root has none.
    fn parent(idx: usize) -> (r: Option<usize>)
        ensures
            r == (if idx == 0 { None::<usize> } else { Some(parent_of(idx as int) as usize) }),
    {
        if idx == 0 {
            None
        } else {
            Some((idx - 1) / 2)
        }
    }

    /// Moves the element at `idx` towards the root until its parent ranks no
    /// higher.
    #[verifier::rlimit(50)]
    fn trickle_up(data: &mut Vec<T>, idx: usize)
        requires
            idx < old(data).len(),
            rising(old(data)@, idx as int),
        ensures
            heap_ordered(final(data)@),
            final(data)@.to_multiset() == old(data)@.to_multiset(),
            final(data)@.len() == old(data)@.len(),
            forall|j: int| 0 <= j < old(data)@.len() && !on_path(idx as int, j) ==> final(data)@[j] == old(data)@[j],
        decreases idx,
    {
        match Self::parent(idx) {
            Some(parent_idx) => {
                if !data[parent_idx].at_most(&data[idx]) {
                    let ghost s = data@;
                    swap_at(data, parent_idx, idx);
                    proof {
                        let t = data@;
                        let p = parent_idx as int;
                        let i = idx as int;
                        assert forall|k: int| 0 < k < t.len() && k != p implies t[parent_of(k)].rank()
                            <= #[trigger] t[k].rank() by {
                            if k == i {
                            } else if parent_of(k) == i {
                            } else if parent_of(k) == p {
                                assert(s[parent_of(k)].rank() <= s[k].rank());
                            } else {
                            }
                        }
                        if p > 0 {
                            assert(s[parent_of(p)].rank() <= s[p].rank());
                        }
                    }
                    let ghost t = data@;
                    Self::trickle_up(data, parent_idx);
                    proof {
                        assert forall|j: int| 0 <= j < s.len() && !on_path(idx as int, j) implies data@[j] == s[j] by {
                            assert(!on_path(parent_idx as int, j));
                            assert(data@[j] == t[j]);
                        }
                    }
                }
            },
            None => {},
        }
    }

    /// Moves the element at `idx` away from the root, each time swapping it
    /// with its lesser child, until no child ranks below it.
    #[verifier::rlimit(50)]
    fn heapify(data: &mut Vec<T>, idx: usize)
        requires
            sinking(old(data)@, idx as int),
        ensures
            heap_ordered(final(data)@),
            final(data)@.to_multiset() == old(data)@.to_multiset(),
            final(data)@.len() == old(data)@.len(),
            forall|j: int| 0 <= j < old(data)@.len() && !in_subtree(idx as int, j) ==> final(data)@[j] == old(data)@[j],
        decreases old(data)@.len() - idx,
    {
        let len = data.len();
        let left = Self::left(len, idx);
        let right = Self::right(len, idx);
        let ghost s = data@;
        let ghost i = idx as int;
        match left {
            Some(left_idx) => {
                match right {
                    Some(right_idx) => {
                        if !data[idx].at_most(&data[left_idx]) || !data[idx].at_most(&data[right_idx]) {
                            let smaller_idx = if !data[right_idx].at_most(&data[left_idx]) {
                                left_idx
                            } else {
                                right_idx
                            };
                            swap_at(data, idx, smaller_idx);
                            proof {
                                let t = data@;
                                let m = smaller_idx as int;
                                assert forall|k: int| 0 < k < t.len() && parent_of(k) != m implies t[parent_of(k)].rank()
                                    <= #[trigger] t[k].rank() by {
                                    if k == m {
                                    } else if parent_of(k) == i {
                                    } else if k == i {
                                    } else {
                                    }
                                }
                            }
                            let ghost t = data@;
                            Self::heapify(data, smaller_idx);
                            proof {
                                assert forall|j: int| 0 <= j < s.len() && !in_subtree(i, j) implies data@[j] == s[j] by {
                                    if in_subtree(smaller_idx as int, j) {
                                        lemma_subtree_nested(i, smaller_idx as int, j);
                                    }
                                    assert(data@[j] == t[j]);
                                }
                            }
                        } else {
                            proof {
                                assert forall|k: int| 0 < k < s.len() implies s[parent_of(k)].rank()
                                    <= #[trigger] s[k].rank() by {
                                    if parent_of(k) == i {
                                        assert(k == 2 * i + 1 || k == 2 * i + 2);
                                    }
                                }
                            }
                        }
                    },
                    None => {
                        if !data[idx].at_most(&data[left_idx]) {
                            swap_at(data, idx, left_idx);
                            proof {
                                let t = data@;
                                let m = left_idx as int;
                                assert forall|k: int| 0 < k < t.len() && parent_of(k) != m implies t[parent_of(k)].rank()
                                    <= #[trigger] t[k].rank() by {
                                    if k == m {
                                    } else if parent_of(k) == i {
                                        assert(k == 2 * i + 1 || k == 2 * i + 2);
                                    } else if k == i {
                                    } else {
                                    }
                                }
                            }
                            let ghost t = data@;
                            Self::heapify(data, left_idx);
                            proof {
                                assert forall|j: int| 0 <= j < s.len() && !in_subtree(i, j) implies data@[j] == s[j] by {
                                    if in_subtree(left_idx as int, j) {
                                        lemma_subtree_nested(i, left_idx as int, j);
                                    }
                                    assert(data@[j] == t[j]);
                                }
                            }
                        } else {
                            proof {
                                assert forall|k: int| 0 < k < s.len() implies s[parent_of(k)].rank()
                                    <= #[trigger] s[k].rank() by {
                                    if parent_of(k) == i {
                                        assert(k == 2 * i + 1 || k == 2 * i + 2);
                                    }
                                }
                            }
                        }
                    },
                }
            },
            None => {
                proof {
                    assert forall|k: int| 0 < k < s.len() implies s[parent_of(k)].rank() <= #[trigger] s[k].rank() by {
                        if parent_of(k) == i {
                            assert(k >= 2 * i + 1);
                        }
                    }
                }
            },
        }
    }
}

impl<T: Priority> Heap<T> for BinaryHeap<T> {
    closed spec fn elems(&self) -> Multiset<T> {
        self.data@.to_multiset()
    }

    fn add(&mut self, x: T) {
        proof {
            use_type_invariant(&*self);
        }
        let mut cur = BinaryHeap::<T>::new();
        std::mem::swap(&mut cur, self);
        proof {
            use_type_invariant(&cur);
        }
        let BinaryHeap { data } = cur;
        let mut data = data;
        let idx = data.len();
        proof {
            lemma_push_rising(data@, x);
        }
        data.push(x);
        Self::trickle_up(&mut data, idx);
        *self = BinaryHeap { data };
    }

    fn size(&self) -> (r: usize) {
        proof {
            vstd::seq_lib::to_multiset_len(self.data@);
        }
        self.data.len()
    }

    fn peek_min(&self) -> (r: Option<&T>) {
        proof {
            use_type_invariant(self);
            vstd::seq_lib::to_multiset_len(self.data@);
        }
        if self.data.len() == 0 {
            None
        } else {
            proof {
                let s = self.data@;
                to_multiset_contains(s, s[0]);
                assert(s.contains(s[0]));
                assert forall|x: T| s.to_multiset().contains(x) implies s[0].rank() <= x.rank() by {
                    to_multiset_contains(s, x);
                    let k = choose|k: int| 0 <= k < s.len() && s[k] == x;
                    lemma_root_least(s, k);
                }
            }
            Some(&self.data[0])
        }
    }

    fn remove_min(&mut self) -> (r: Option<T>) {
        proof {
            use_type_invariant(&*self);
            vstd::seq_lib::to_multiset_len(self.data@);
        }
        if self.data.len() == 0 {
            return None;
        }
        let mut cur = BinaryHeap::<T>::new();
        std::mem::swap(&mut cur, self);
        proof {
            use_type_invariant(&cur);
        }
        let BinaryHeap { data } = cur;
        let mut data = data;
        proof {
            lemma_take_root_sinking(data@);
        }
        let ret = data.swap_remove(0);
        Self::heapify(&mut data, 0);
        *self = BinaryHeap { data };
        Some(ret)
    }

    fn is_empty(&self) -> (r: bool) {
        proof {
            vstd::seq_lib::to_multiset_len(self.data@);
        }
        self.data.len() == 0
    }
}

} // verus!
