//! The heap capability and the three heaps that provide it.

pub mod binary_heap_vec;
pub mod binomial_heap;
pub mod laws;
pub mod leftist_heap;

use vstd::prelude::*;
use vstd::multiset::Multiset;
use crate::order::{is_minimum, total_order};

verus! {

/// A min-heap: a multiset of elements from which the least can be read and
/// removed.
/// Its view is the multiset of the elements held, each as often as it was
/// pushed and not yet popped.
pub trait Heap<T: Ord>: Sized + View<V = Multiset<T>> {
    /// The internal invariant of the heap.
    spec fn well_formed(&self) -> bool;

    /// The element that `peek` shows and `pop` removes. It is meaningful
    /// only on a heap that is not empty.
    spec fn front(&self) -> T;

    /// The front of a heap that is not empty is a minimum of its elements.
    proof fn lemma_front_is_minimum(&self)
        requires
            total_order::<T>(),
            self.well_formed(),
            self@.len() > 0,
        ensures
            is_minimum(self.front(), self@),
    ;

    /// Shows the least element, or `None` on an empty heap.
    fn peek(&self) -> (r: Option<&T>)
        requires
            total_order::<T>(),
            self.well_formed(),
        ensures
            self@.len() == 0 ==> r is None,
            self@.len() > 0 ==> r == Some(&self.front()),
            r matches Some(x) ==> is_minimum(*x, self@),
    ;

    /// Removes and returns the least element, or returns `None` and leaves
    /// the heap as it is when it is empty.
    fn pop(&mut self) -> (r: Option<T>)
        requires
            total_order::<T>(),
            old(self).well_formed(),
        ensures
            final(self).well_formed(),
            old(self)@.len() == 0 ==> r is None && *final(self) == *old(self),
            old(self)@.len() > 0 ==> r == Some(old(self).front()),
            r matches Some(x) ==> is_minimum(x, old(self)@) && final(self)@
                == old(self)@.remove(x) && final(self)@.len() == old(self)@.len() - 1,
    ;

    /// Adds one element.
    fn push(&mut self, element: T)
        requires
            total_order::<T>(),
            old(self).well_formed(),
            old(self)@.len() < usize::MAX,
        ensures
            final(self).well_formed(),
            final(self)@ == old(self)@.insert(element),
            final(self)@.len() == old(self)@.len() + 1,
    ;

    /// The number of elements held.
    fn size(&self) -> (n: usize)
        requires
            self.well_formed(),
        ensures
            n == self@.len(),
    ;

    /// Removes every element. On an empty heap nothing changes.
    fn clear(&mut self)
        requires
            total_order::<T>(),
            old(self).well_formed(),
        ensures
            final(self).well_formed(),
            final(self)@ == Multiset::<T>::empty(),
            final(self)@.len() == 0,
            old(self)@.len() == 0 ==> final(self)@ == old(self)@,
    {
        while self.pop().is_some()
            invariant
                total_order::<T>(),
                self.well_formed(),
            decreases self@.len(),
        {
        }
    }
}

/// The integers from `lo` up to, but not including, `hi`, each once.
pub open spec fn consecutive(lo: int, hi: int) -> Multiset<i32>
    decreases hi - lo,
{
    if hi <= lo {
        Multiset::empty()
    } else {
        consecutive(lo, hi - 1).insert((hi - 1) as i32)
    }
}

/// Pushes the integers from 1 up to and including `n`, in ascending order:
/// `n` elements, or none where `n` is less than 1.
pub fn insert_n_elements<H: Heap<i32>>(heap: &mut H, n: i32)
    requires
        old(heap).well_formed(),
        old(heap)@.len() + n <= usize::MAX,
    ensures
        final(heap).well_formed(),
        final(heap)@ == old(heap)@.add(consecutive(1, n + 1)),
        final(heap)@.len() == old(heap)@.len() + if n >= 1 { n } else { 0 },
{
    let mut i: i32 = 0;
    while i < n
        invariant
            0 <= i,
            i <= n || i == 0,
            total_order::<i32>(),
            heap.well_formed(),
            heap@ == old(heap)@.add(consecutive(1, i + 1)),
            heap@.len() == old(heap)@.len() + i,
            old(heap)@.len() + n <= usize::MAX,
        decreases n - i,
    {
        i += 1;
        heap.push(i);
    }
}

/// Pushes the elements of `vec`, from the first to the last.
pub fn insert_n_vector_elements<H: Heap<i32>>(heap: &mut H, vec: &Vec<i32>)
    requires
        old(heap).well_formed(),
        old(heap)@.len() + vec@.len() <= usize::MAX,
    ensures
        final(heap).well_formed(),
        final(heap)@ == old(heap)@.add(vec@.to_multiset()),
        final(heap)@.len() == old(heap)@.len() + vec@.len(),
{
    broadcast use vstd::seq_lib::group_to_multiset_ensures;

    let mut k: usize = 0;
    while k < vec.len()
        invariant
            k <= vec@.len(),
            total_order::<i32>(),
            heap.well_formed(),
            heap@ == old(heap)@.add(vec@.take(k as int).to_multiset()),
            heap@.len() == old(heap)@.len() + k,
            old(heap)@.len() + vec@.len() <= usize::MAX,
        decreases vec@.len() - k,
    {
        heap.push(vec[k]);
        proof {
            assert(vec@.take(k + 1) =~= vec@.take(k as int).push(vec@[k as int]));
            vstd::seq_lib::to_multiset_build(vec@.take(k as int), vec@[k as int]);
        }
        k += 1;
    }
    proof {
        assert(vec@.take(k as int) =~= vec@);
    }
}

} // verus!
