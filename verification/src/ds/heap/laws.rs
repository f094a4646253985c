//! What holds of every heap, whichever of the three it is: the laws that
//! follow from the contracts of `Heap`.

use vstd::prelude::*;
use vstd::multiset::Multiset;
use crate::ds::heap::Heap;
use crate::order::{is_minimum, le, sorted, total_order};

verus! {

/// What a call has done to a heap: pushed an element, popped one, or found
/// nothing to pop.
pub enum Event<T> {
    Pushed(T),
    Popped(T),
    PoppedNothing,
}

/// The contracts of `push` and `pop` allow `event` to lead from a heap that
/// holds `before` to one that holds `after`.
pub open spec fn follows<T: Ord>(before: Multiset<T>, event: Event<T>, after: Multiset<T>) -> bool {
    match event {
        Event::Pushed(x) => after == before.insert(x),
        Event::Popped(x) => is_minimum(x, before) && after == before.remove(x),
        Event::PoppedNothing => before.len() == 0 && after == before,
    }
}

/// `states` are the contents that a heap goes through while `events`
/// happen to it, one after the other.
pub open spec fn is_run<T: Ord>(states: Seq<Multiset<T>>, events: Seq<Event<T>>) -> bool {
    &&& states.len() == events.len() + 1
    &&& forall|i: int|
        0 <= i < events.len() ==> follows(states[i], #[trigger] events[i], states[i + 1])
}

/// The number of pushes among the events.
pub open spec fn pushes<T>(events: Seq<Event<T>>) -> nat
    decreases events.len(),
{
    if events.len() == 0 {
        0
    } else {
        pushes(events.drop_last()) + if events.last() is Pushed {
            1nat
        } else {
            0nat
        }
    }
}

/// The number of pops among the events that returned an element.
pub open spec fn pops<T>(events: Seq<Event<T>>) -> nat
    decreases events.len(),
{
    if events.len() == 0 {
        0
    } else {
        pops(events.drop_last()) + if events.last() is Popped {
            1nat
        } else {
            0nat
        }
    }
}

/// After any sequence of pushes and pops a heap holds as many elements as
/// it held before, and as were pushed, less those that were popped.
pub proof fn lemma_size_of_run<T: Ord>(states: Seq<Multiset<T>>, events: Seq<Event<T>>)
    requires
        is_run(states, events),
    ensures
        states.last().len() + pops(events) == states[0].len() + pushes(events),
    decreases events.len(),
{
    if events.len() > 0 {
        assert forall|i: int| 0 <= i < events.drop_last().len() implies follows(
            states.drop_last()[i],
            #[trigger] events.drop_last()[i],
            states.drop_last()[i + 1],
        ) by {}
        lemma_size_of_run(states.drop_last(), events.drop_last());
    }
}

/// `trace` is a sequence in which the elements of `m` can be popped: each
/// of its elements in turn is a minimum of what the ones before it have
/// left, and nothing is left after the last.
pub open spec fn pop_trace<T: Ord>(m: Multiset<T>, trace: Seq<T>) -> bool
    decreases trace.len(),
{
    if trace.len() == 0 {
        m.len() == 0
    } else {
        is_minimum(trace[0], m) && pop_trace(m.remove(trace[0]), trace.drop_first())
    }
}

/// Popping a heap until it is empty gives its elements, each as often as
/// the heap held it, in non-decreasing order: the heap is empty after as
/// many pops as it had elements, and not before.
pub proof fn lemma_pop_trace_sorted<T: Ord>(m: Multiset<T>, trace: Seq<T>)
    requires
        total_order::<T>(),
        pop_trace(m, trace),
    ensures
        sorted(trace),
        trace.to_multiset() == m,
        trace.len() == m.len(),
    decreases trace.len(),
{
    broadcast use vstd::seq_lib::group_to_multiset_ensures;

    if trace.len() > 0 {
        let rest = trace.drop_first();
        lemma_pop_trace_sorted(m.remove(trace[0]), rest);
        assert(trace =~= rest.insert(0, trace[0]));
        assert(trace.to_multiset() =~= m);
        assert forall|i: int, j: int| 0 <= i <= j < trace.len() implies le(trace[i], trace[j]) by {}
    }
}

/// Of two elements popped one after the other, the first is no larger than
/// the second.
pub proof fn lemma_successive_pops_ordered<T: Ord>(m: Multiset<T>, first: T, second: T)
    requires
        is_minimum(first, m),
        is_minimum(second, m.remove(first)),
    ensures
        le(first, second),
{
}

/// What `peek` shows is what a `pop` that follows it returns: on an empty
/// heap both give `None`, on any other both give its front.
pub proof fn lemma_peek_shows_next_pop<T: Ord, H: Heap<T>>(
    heap: H,
    peeked: Option<&T>,
    popped: Option<T>,
)
    requires
        heap@.len() == 0 ==> peeked is None,
        heap@.len() > 0 ==> peeked == Some(&heap.front()),
        heap@.len() == 0 ==> popped is None,
        heap@.len() > 0 ==> popped == Some(heap.front()),
    ensures
        peeked is None <==> popped is None,
        peeked matches Some(x) ==> popped == Some(*x),
{
}

} // verus!
