use vstd::prelude::*;

pub mod binary_heap;
pub mod binomial_heap;
pub mod heap;
pub mod sl_list;

pub use binary_heap::BinaryHeap;
pub use binomial_heap::BinomialHeap;
pub use heap::{drain_sorted, Heap, HeapIntoIter, Priority};
pub use sl_list::{IntoIter, List};

verus! {

} // verus!
