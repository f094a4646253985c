//! A binary min-heap laid out in a vector.

use vstd::prelude::*;
use vstd::multiset::Multiset;
use crate::ds::heap::Heap;
use crate::order::{
    is_minimum, le, lemma_le_reflexive, lemma_le_transitive, less, less_eq, lt,
    total_order,
};

verus! {

/// `<[T]>::swap` of std: exchanges the elements at `i` and `j`, which must
/// both be in bounds, and leaves every other element where it was.
pub assume_specification<A>[ <[A]>::swap ](slice: &mut [A], i: usize, j: usize)
    requires
        i < old(slice)@.len(),
        j < old(slice)@.len(),
    ensures
        final(slice)@ == old(slice)@.update(i as int, old(slice)@[j as int]).update(
            j as int,
            old(slice)@[i as int],
        ),
;

/// The index of the parent of the element at index `i > 0`.
pub open spec fn parent(i: int) -> int {
    (i - 1) / 2
}

/// Every element but the first is no smaller than its parent.
pub open spec fn heap_ordered<T: Ord>(s: Seq<T>) -> bool {
    forall|i: int| 0 < i < s.len() ==> le(s[parent(i)], #[trigger] s[i])
}

/// `s` is heap-ordered but perhaps between the element at `k` and its
/// parent, and the children of `k` are no smaller than the parent of `k`:
/// moving the element at `k` towards the root can restore the order.
pub open spec fn ordered_above<T: Ord>(s: Seq<T>, k: int) -> bool {
    &&& forall|i: int| 0 < i < s.len() && i != k ==> le(s[parent(i)], #[trigger] s[i])
    &&& forall|i: int|
        0 < i < s.len() && parent(i) == k && k > 0 ==> le(s[parent(k)], #[trigger] s[i])
}

/// `s` is heap-ordered but perhaps between the element at `k` and its
/// children, and the children of `k` are no smaller than the parent of `k`:
/// moving the element at `k` towards the leaves can restore the order.
pub open spec fn ordered_below<T: Ord>(s: Seq<T>, k: int) -> bool {
    &&& forall|i: int| 0 < i < s.len() && parent(i) != k ==> le(s[parent(i)], #[trigger] s[i])
    &&& forall|i: int|
        0 < i < s.len() && parent(i) == k && k > 0 ==> le(s[parent(k)], #[trigger] s[i])
}

/// `s` with the elements at `a` and `b` exchanged.
pub open spec fn exchanged<T>(s: Seq<T>, a: int, b: int) -> Seq<T> {
    s.update(a, s[b]).update(b, s[a])
}

/// What sifting up from `k` makes of `s`: while the element is not at the
/// root and is smaller than its parent, the two are exchanged.
pub open spec fn sifted_up<T: Ord>(s: Seq<T>, k: int) -> Seq<T>
    decreases k,
{
    if 0 < k < s.len() && lt(s[k], s[parent(k)]) {
        sifted_up(exchanged(s, k, parent(k)), parent(k))
    } else {
        s
    }
}

/// The index of the smaller child of the element at `k`, which has one: the
/// right child where there is one and it is smaller than the left, the left
/// child otherwise.
pub open spec fn smaller_child<T: Ord>(s: Seq<T>, k: int) -> int {
    if 2 * k + 2 < s.len() && lt(s[2 * k + 2], s[2 * k + 1]) {
        2 * k + 2
    } else {
        2 * k + 1
    }
}

/// What sifting down from `k` makes of `s`: while the element has a child
/// and its smaller child is smaller than it, the two are exchanged.
pub open spec fn sifted_down<T: Ord>(s: Seq<T>, k: int) -> Seq<T>
    decreases s.len() - k,
{
    if 0 <= k && 2 * k + 1 < s.len() && !le(s[k], s[smaller_child(s, k)]) {
        sifted_down(exchanged(s, k, smaller_child(s, k)), smaller_child(s, k))
    } else {
        s
    }
}

/// The layout of a heap after a pop: the last element takes the place of
/// the first and is sifted down.
pub open spec fn popped<T: Ord>(s: Seq<T>) -> Seq<T> {
    if s.len() <= 1 {
        Seq::empty()
    } else {
        sifted_down(exchanged(s, 0, s.len() - 1).drop_last(), 0)
    }
}

/// Exchanging two elements keeps the multiset of elements.
pub proof fn lemma_exchanged_contents<T>(s: Seq<T>, a: int, b: int)
    requires
        0 <= a < s.len(),
        0 <= b < s.len(),
    ensures
        exchanged(s, a, b).to_multiset() == s.to_multiset(),
{
    broadcast use vstd::seq_lib::group_to_multiset_ensures;
}

/// In a heap-ordered sequence the first element is no larger than any other.
pub proof fn lemma_root_is_least<T: Ord>(s: Seq<T>, i: int)
    requires
        total_order::<T>(),
        heap_ordered(s),
        0 <= i < s.len(),
    ensures
        le(s[0], s[i]),
    decreases i,
{
    if i == 0 {
        lemma_le_reflexive(s[0]);
    } else {
        lemma_root_is_least(s, parent(i));
        lemma_le_transitive(s[0], s[parent(i)], s[i]);
    }
}

/// The first element of a heap-ordered sequence is a minimum of its
/// elements.
pub proof fn lemma_root_is_minimum<T: Ord>(s: Seq<T>)
    requires
        total_order::<T>(),
        heap_ordered(s),
        s.len() > 0,
    ensures
        is_minimum(s[0], s.to_multiset()),
{
    broadcast use vstd::seq_lib::group_to_multiset_ensures;

    assert forall|y: T| s.to_multiset().contains(y) implies le(s[0], y) by {
        let i = choose|i: int| 0 <= i < s.len() && s[i] == y;
        lemma_root_is_least(s, i);
    }
}

/// A binary min-heap stored as a complete binary tree in a vector: the
/// children of the element at index `i` are at `2 * i + 1` and `2 * i + 2`.
pub struct BinaryHeapVec<T: Ord> {
    data: Vec<T>,
}

impl<T: Ord> View for BinaryHeapVec<T> {
    type V = Multiset<T>;

    closed spec fn view(&self) -> Multiset<T> {
        self.data@.to_multiset()
    }
}

impl<T: Ord> BinaryHeapVec<T> {
    /// The elements in the order in which the vector holds them.
    pub closed spec fn layout(&self) -> Seq<T> {
        self.data@
    }

    /// The heap holds the elements of its layout, and the layout of a
    /// well-formed heap is heap-ordered.
    pub proof fn lemma_layout(&self)
        ensures
            self@ == self.layout().to_multiset(),
            self@.len() == self.layout().len(),
            self.well_formed() <==> heap_ordered(self.layout()),
            self.layout().len() > 0 ==> self.front() == self.layout()[0],
    {
        broadcast use vstd::seq_lib::group_to_multiset_ensures;
    }

    /// An empty heap.
    pub fn new() -> (heap: Self)
        ensures
            heap.well_formed(),
            heap@ == Multiset::<T>::empty(),
            heap.layout() == Seq::<T>::empty(),
    {
        broadcast use vstd::seq_lib::group_to_multiset_ensures;

        BinaryHeapVec { data: Vec::new() }
    }

    /// Moves the element at `index` towards the root, past every ancestor
    /// that is larger than it. Each step exchanges the element with its
    /// parent, which leaves the vector as moving the parents down and
    /// writing the element into the last place would, and copies nothing.
    fn sift_up(&mut self, index: usize)
        requires
            total_order::<T>(),
            index < old(self).data@.len(),
            ordered_above(old(self).data@, index as int),
        ensures
            final(self).data@ == sifted_up(old(self).data@, index as int),
            heap_ordered(final(self).data@),
            final(self).data@.len() == old(self).data@.len(),
            final(self).data@.to_multiset() == old(self).data@.to_multiset(),
    {
        let mut child_index = index;
        while child_index > 0
            invariant
                total_order::<T>(),
                child_index < self.data@.len(),
                ordered_above(self.data@, child_index as int),
                self.data@.len() == old(self).data@.len(),
                self.data@.to_multiset() == old(self).data@.to_multiset(),
                sifted_up(self.data@, child_index as int) == sifted_up(
                    old(self).data@,
                    index as int,
                ),
            ensures
                heap_ordered(self.data@),
                self.data@ == sifted_up(old(self).data@, index as int),
            decreases child_index,
        {
            let parent_index = (child_index - 1) / 2;
            if !less(&self.data[child_index], &self.data[parent_index]) {
                break;
            }
            let ghost before = self.data@;
            self.data.swap(child_index, parent_index);
            proof {
                let c = child_index as int;
                let p = parent_index as int;
                let after = self.data@;
                lemma_exchanged_contents(before, c, p);
                assert forall|i: int| 0 < i < after.len() && i != p implies le(
                    after[parent(i)],
                    #[trigger] after[i],
                ) by {
                    if i != c && parent(i) == p {
                        lemma_le_transitive(before[c], before[p], before[i]);
                    }
                }
                assert forall|i: int| 0 < i < after.len() && parent(i) == p && p > 0 implies le(
                    after[parent(p)],
                    #[trigger] after[i],
                ) by {
                    if i != c {
                        lemma_le_transitive(before[parent(p)], before[p], before[i]);
                    }
                }
            }
            child_index = parent_index;
        }
    }

    /// Moves the element at `index` towards the leaves, below every smaller
    /// child; of two equivalent children the left one moves up. Each step
    /// exchanges the element with that child.
    fn sift_down(&mut self, index: usize)
        requires
            total_order::<T>(),
            index < old(self).data@.len(),
            ordered_below(old(self).data@, index as int),
        ensures
            final(self).data@ == sifted_down(old(self).data@, index as int),
            heap_ordered(final(self).data@),
            final(self).data@.len() == old(self).data@.len(),
            final(self).data@.to_multiset() == old(self).data@.to_multiset(),
    {
        let mut parent_index = index;
        let count = self.data.len();
        while parent_index < count / 2
            invariant
                total_order::<T>(),
                count == self.data@.len(),
                parent_index < count,
                ordered_below(self.data@, parent_index as int),
                self.data@.len() == old(self).data@.len(),
                self.data@.to_multiset() == old(self).data@.to_multiset(),
                sifted_down(self.data@, parent_index as int) == sifted_down(
                    old(self).data@,
                    index as int,
                ),
            ensures
                heap_ordered(self.data@),
                self.data@ == sifted_down(old(self).data@, index as int),
            decreases count - parent_index,
        {
            let mut child_index = 2 * parent_index + 1;
            if child_index < count - 1 && less(
                &self.data[child_index + 1],
                &self.data[child_index],
            ) {
                child_index += 1;
            }
            let ghost before = self.data@;
            let ghost p = parent_index as int;
            let ghost c = child_index as int;
            proof {
                // The chosen child is no larger than its sibling.
                assert forall|i: int| 0 < i < before.len() && parent(i) == p implies le(
                    before[c],
                    #[trigger] before[i],
                ) by {
                    if i == c {
                        lemma_le_reflexive(before[c]);
                    }
                }
            }
            if less_eq(&self.data[parent_index], &self.data[child_index]) {
                proof {
                    assert forall|i: int| 0 < i < before.len() implies le(
                        before[parent(i)],
                        #[trigger] before[i],
                    ) by {
                        if parent(i) == p {
                            lemma_le_transitive(before[p], before[c], before[i]);
                        }
                    }
                }
                break;
            }
            self.data.swap(parent_index, child_index);
            proof {
                let after = self.data@;
                lemma_exchanged_contents(before, p, c);
                assert forall|i: int| 0 < i < after.len() && parent(i) != c implies le(
                    after[parent(i)],
                    #[trigger] after[i],
                ) by {}
                assert forall|i: int| 0 < i < after.len() && parent(i) == c && c > 0 implies le(
                    after[parent(c)],
                    #[trigger] after[i],
                ) by {}
            }
            parent_index = child_index;
        }
    }
}

impl<T: Ord> Default for BinaryHeapVec<T> {
    /// An empty heap.
    fn default() -> (heap: Self)
        ensures
            heap.well_formed(),
            heap@ == Multiset::<T>::empty(),
    {
        Self::new()
    }
}

impl<T: Ord> Heap<T> for BinaryHeapVec<T> {
    closed spec fn well_formed(&self) -> bool {
        heap_ordered(self.data@)
    }

    closed spec fn front(&self) -> T {
        self.data@[0]
    }

    proof fn lemma_front_is_minimum(&self) {
        broadcast use vstd::seq_lib::group_to_multiset_ensures;

        lemma_root_is_minimum(self.data@);
    }

    fn push(&mut self, value: T)
        ensures
            final(self).layout() == sifted_up(
                old(self).layout().push(value),
                old(self).layout().len() as int,
            ),
    {
        broadcast use vstd::seq_lib::group_to_multiset_ensures;

        self.data.push(value);
        let last = self.data.len() - 1;
        self.sift_up(last);
    }

    fn pop(&mut self) -> (r: Option<T>)
        ensures
            final(self).layout() == popped(old(self).layout()),
    {
        broadcast use vstd::seq_lib::group_to_multiset_ensures;

        if self.data.is_empty() {
            return None;
        }
        proof {
            lemma_root_is_minimum(self.data@);
        }
        if self.data.len() == 1 {
            let popped_value = self.data.pop();
            return popped_value;
        }
        let count = self.data.len();
        self.data.swap(0, count - 1);
        let popped_value = self.data.pop();
        proof {
            let before = old(self).data@;
            let swapped = exchanged(before, 0, count - 1);
            assert(self.data@ =~= swapped.remove(count - 1));
            assert forall|i: int| 0 < i < self.data@.len() && parent(i) != 0 implies le(
                self.data@[parent(i)],
                #[trigger] self.data@[i],
            ) by {}
        }
        self.sift_down(0);
        popped_value
    }

    fn peek(&self) -> (r: Option<&T>) {
        broadcast use vstd::seq_lib::group_to_multiset_ensures;

        if self.data.is_empty() {
            return None;
        }
        proof {
            lemma_root_is_minimum(self.data@);
        }
        Some(&self.data[0])
    }

    fn size(&self) -> (n: usize) {
        broadcast use vstd::seq_lib::group_to_multiset_ensures;

        self.data.len()
    }

    fn clear(&mut self)
        ensures
            final(self).layout() == Seq::<T>::empty(),
    {
        broadcast use vstd::seq_lib::group_to_multiset_ensures;

        self.data.clear();
    }
}

} // verus!
