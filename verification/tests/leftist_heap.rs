use algods::ds::heap::leftist_heap::LeftistHeap;
use algods::ds::heap::{insert_n_elements, insert_n_vector_elements, Heap};

#[test]
fn leftist_heap_test_basic_heap() {
    let mut heap = LeftistHeap::<i32>::new();

    heap.push(1);
    heap.push(2);
    heap.push(3);
    heap.push(4);

    assert_eq!(heap.pop(), Some(1));
    assert_eq!(heap.pop(), Some(2));
    assert_eq!(heap.pop(), Some(3));
    assert_eq!(heap.pop(), Some(4));
    assert_eq!(heap.pop(), None);

    heap.push(4);
    heap.push(1);
    heap.push(3);
    heap.push(2);

    assert_eq!(heap.pop(), Some(1));
    assert_eq!(heap.pop(), Some(2));
    assert_eq!(heap.pop(), Some(3));
    assert_eq!(heap.pop(), Some(4));
    assert_eq!(heap.pop(), None);
}

#[test]
fn leftist_heap_test_heap() {
    let mut heap: LeftistHeap<i32> = LeftistHeap::new();

    // Test inserting elements
    for i in 1..=100 {
        heap.push(i);
    }

    // Test the smallest element in the heap
    assert_eq!(heap.peek(), Some(&1));

    // Test inserting smaller elements after creating the heap
    for i in -100..=0 {
        heap.push(i);
    }

    // Test the smallest element in the heap
    assert_eq!(heap.peek(), Some(&-100));

    // Test popping all elements from the heap
    for i in -100..=100 {
        assert_eq!(heap.pop(), Some(i));
    }

    // Test heap is empty
    assert_eq!(heap.peek(), None);
    assert_eq!(heap.pop(), None);
}

#[test]
fn leftist_heap_pops_ascending_with_duplicates() {
    let input = vec![5, 3, 9, 3, -2, 7, 5, 5, 0, -2, 12, 1, 8, 3];
    let mut expected = input.clone();
    expected.sort();
    let mut heap = LeftistHeap::<i32>::new();
    for x in &input {
        heap.push(*x);
    }
    let mut popped = Vec::new();
    while let Some(x) = heap.pop() {
        popped.push(x);
    }
    assert_eq!(popped, expected);
    assert_eq!(heap.pop(), None);
}

#[test]
fn leftist_heap_size_counts_pushes_less_pops() {
    let mut heap = LeftistHeap::<i32>::new();
    assert_eq!(heap.size(), 0);
    assert_eq!(heap.pop(), None);
    assert_eq!(heap.size(), 0);
    for (k, x) in [7, 1, 4, 4, 9, 2, 8, 6, 3, 5, 0].iter().enumerate() {
        heap.push(*x);
        assert_eq!(heap.size(), k + 1);
    }
    assert_eq!(heap.pop(), Some(0));
    assert_eq!(heap.pop(), Some(1));
    assert_eq!(heap.size(), 9);
    heap.push(-1);
    assert_eq!(heap.size(), 10);
    for left in (0..10).rev() {
        assert!(heap.pop().is_some());
        assert_eq!(heap.size(), left);
    }
    assert_eq!(heap.pop(), None);
    assert_eq!(heap.size(), 0);
}

#[test]
fn leftist_heap_peek_shows_what_pop_returns() {
    let mut heap = LeftistHeap::<i32>::new();
    for x in [13, 2, 21, 2, 8, 1, 34, 5, 3, 1, 55] {
        heap.push(x);
    }
    loop {
        let shown = heap.peek().copied();
        let before = heap.size();
        assert_eq!(heap.peek().copied(), shown);
        assert_eq!(heap.size(), before);
        let taken = heap.pop();
        assert_eq!(shown, taken);
        if taken.is_none() {
            break;
        }
    }
}

#[test]
fn leftist_heap_clear_empties() {
    let mut heap = LeftistHeap::<i32>::new();
    heap.clear();
    assert_eq!(heap.size(), 0);
    assert_eq!(heap.peek(), None);
    assert_eq!(heap.pop(), None);
    for x in [3, 1, 2] {
        heap.push(x);
    }
    heap.clear();
    assert_eq!(heap.size(), 0);
    assert_eq!(heap.peek(), None);
    assert_eq!(heap.pop(), None);
    heap.clear();
    assert_eq!(heap.size(), 0);
    heap.push(6);
    heap.push(4);
    assert_eq!(heap.pop(), Some(4));
    assert_eq!(heap.pop(), Some(6));
    assert_eq!(heap.pop(), None);
}

#[test]
fn leftist_heap_scenario_four_three_one_two() {
    let mut heap = LeftistHeap::<i32>::new();
    for x in [4, 3, 1, 2] {
        heap.push(x);
    }
    assert_eq!(heap.pop(), Some(1));
    assert_eq!(heap.pop(), Some(2));
    assert_eq!(heap.pop(), Some(3));
    assert_eq!(heap.pop(), Some(4));
    assert_eq!(heap.pop(), None);
}

#[test]
fn leftist_heap_eleven_elements_least_pushed_first() {
    // The least element is pushed first, so that it ends up in the largest
    // tree of a forest that holds eleven elements.
    let mut heap = LeftistHeap::<i32>::new();
    for x in [0, 10, 9, 8, 7, 6, 5, 4, 3, 2, 1] {
        heap.push(x);
    }
    assert_eq!(heap.size(), 11);
    for x in 0..=10 {
        assert_eq!(heap.size(), (11 - x) as usize);
        assert_eq!(heap.pop(), Some(x));
    }
    assert_eq!(heap.pop(), None);
}

#[test]
fn leftist_heap_holds_strings() {
    let mut heap = LeftistHeap::<String>::new();
    for word in ["pear", "apple", "fig", "apple", "quince"] {
        heap.push(word.to_string());
    }
    assert_eq!(heap.peek().map(|s| s.as_str()), Some("apple"));
    let mut popped = Vec::new();
    while let Some(word) = heap.pop() {
        popped.push(word);
    }
    assert_eq!(popped, vec!["apple", "apple", "fig", "pear", "quince"]);
}

#[test]
fn leftist_heap_insert_n_elements_pushes_one_to_n() {
    let mut heap = LeftistHeap::<i32>::new();
    insert_n_elements(&mut heap, 5);
    assert_eq!(heap.size(), 5);
    assert_eq!(heap.pop(), Some(1));
    assert_eq!(heap.pop(), Some(2));
    assert_eq!(heap.pop(), Some(3));
    assert_eq!(heap.pop(), Some(4));
    assert_eq!(heap.pop(), Some(5));
    assert_eq!(heap.pop(), None);
    insert_n_elements(&mut heap, 0);
    assert_eq!(heap.size(), 0);
    insert_n_elements(&mut heap, -3);
    assert_eq!(heap.size(), 0);
    insert_n_elements(&mut heap, 1);
    assert_eq!(heap.size(), 1);
    assert_eq!(heap.peek(), Some(&1));
    insert_n_elements(&mut heap, 3);
    assert_eq!(heap.size(), 4);
    assert_eq!(heap.pop(), Some(1));
    assert_eq!(heap.pop(), Some(1));
    assert_eq!(heap.pop(), Some(2));
    assert_eq!(heap.pop(), Some(3));
    assert_eq!(heap.pop(), None);
    insert_n_elements(&mut heap, 100);
    assert_eq!(heap.size(), 100);
    for x in 1..=100 {
        assert_eq!(heap.pop(), Some(x));
    }
    assert_eq!(heap.pop(), None);
}

#[test]
fn leftist_heap_insert_n_vector_elements_adds_all() {
    let mut heap = LeftistHeap::<i32>::new();
    heap.push(6);
    insert_n_vector_elements(&mut heap, &vec![9, -4, 6, 0]);
    assert_eq!(heap.size(), 5);
    let mut popped = Vec::new();
    while let Some(x) = heap.pop() {
        popped.push(x);
    }
    assert_eq!(popped, vec![-4, 0, 6, 6, 9]);
    insert_n_vector_elements(&mut heap, &Vec::new());
    assert_eq!(heap.size(), 0);
}

#[test]
fn leftist_heap_merge_of_nothing_is_nothing() {
    let merged = LeftistHeap::<i32>::merge_nodes(None, None);
    assert!(merged.is_none());
}
