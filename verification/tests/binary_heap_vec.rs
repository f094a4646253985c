use algods::ds::heap::binary_heap_vec::BinaryHeapVec;
use algods::ds::heap::{insert_n_elements, insert_n_vector_elements, Heap};

#[test]
fn binary_heap_vec_test_basic_heap() {
    let mut heap = BinaryHeapVec::<i32>::new();

    heap.push(1);
    heap.push(2);
    heap.push(3);
    heap.push(4);

    assert_eq!(heap.pop(), Some(1));
    assert_eq!(heap.pop(), Some(2));
    assert_eq!(heap.pop(), Some(3));
    assert_eq!(heap.pop(), Some(4));
    assert_eq!(heap.pop(), None);

    heap.push(4);
    heap.push(1);
    heap.push(3);
    heap.push(2);

    assert_eq!(heap.pop(), Some(1));
    assert_eq!(heap.pop(), Some(2));
    assert_eq!(heap.pop(), Some(3));
    assert_eq!(heap.pop(), Some(4));
    assert_eq!(heap.pop(), None);
}

#[test]
fn binary_heap_vec_test_heap() {
    let mut heap: BinaryHeapVec<i32> = BinaryHeapVec::new();

    // Test inserting elements
    for i in 1..=100 {
        heap.push(i);
    }

    // Test the smallest element in the heap
    assert_eq!(heap.peek(), Some(&1));

    // Test inserting smaller elements after creating the heap
    for i in -100..=0 {
        heap.push(i);
    }

    // Test the smallest element in the heap
    assert_eq!(heap.peek(), Some(&-100));

    // Test popping all elements from the heap
    for i in -100..=100 {
        assert_eq!(heap.pop(), Some(i));
    }

    // Test heap is empty
    assert_eq!(heap.peek(), None);
    assert_eq!(heap.pop(), None);
}

#[test]
fn binary_heap_vec_pops_ascending_with_duplicates() {
    let input = vec![5, 3, 9, 3, -2, 7, 5, 5, 0, -2, 12, 1, 8, 3];
    let mut expected = input.clone();
    expected.sort();
    let mut heap = BinaryHeapVec::<i32>::new();
    for x in &input {
        heap.push(*x);
    }
    let mut popped = Vec::new();
    while let Some(x) = heap.pop() {
        popped.push(x);
    }
    assert_eq!(popped, expected);
    assert_eq!(heap.pop(), None);
}

#[test]
fn binary_heap_vec_size_counts_pushes_less_pops() {
    let mut heap = BinaryHeapVec::<i32>::new();
    assert_eq!(heap.size(), 0);
    assert_eq!(heap.pop(), None);
    assert_eq!(heap.size(), 0);
    for (k, x) in [7, 1, 4, 4, 9, 2, 8, 6, 3, 5, 0].iter().enumerate() {
        heap.push(*x);
        assert_eq!(heap.size(), k + 1);
    }
    assert_eq!(heap.pop(), Some(0));
    assert_eq!(heap.pop(), Some(1));
    assert_eq!(heap.size(), 9);
    heap.push(-1);
    assert_eq!(heap.size(), 10);
    for left in (0..10).rev() {
        assert!(heap.pop().is_some());
        assert_eq!(heap.size(), left);
    }
    assert_eq!(heap.pop(), None);
    assert_eq!(heap.size(), 0);
}

#[test]
fn binary_heap_vec_peek_shows_what_pop_returns() {
    let mut heap = BinaryHeapVec::<i32>::new();
    for x in [13, 2, 21, 2, 8, 1, 34, 5, 3, 1, 55] {
        heap.push(x);
    }
    loop {
        let shown = heap.peek().copied();
        let before = heap.size();
        assert_eq!(heap.peek().copied(), shown);
        assert_eq!(heap.size(), before);
        let taken = heap.pop();
        assert_eq!(shown, taken);
        if taken.is_none() {
            break;
        }
    }
}

#[test]
fn binary_heap_vec_clear_empties() {
    let mut heap = BinaryHeapVec::<i32>::new();
    heap.clear();
    assert_eq!(heap.size(), 0);
    assert_eq!(heap.peek(), None);
    assert_eq!(heap.pop(), None);
    for x in [3, 1, 2] {
        heap.push(x);
    }
    heap.clear();
    assert_eq!(heap.size(), 0);
    assert_eq!(heap.peek(), None);
    assert_eq!(heap.pop(), None);
    heap.clear();
    assert_eq!(heap.size(), 0);
    heap.push(6);
    heap.push(4);
    assert_eq!(heap.pop(), Some(4));
    assert_eq!(heap.pop(), Some(6));
    assert_eq!(heap.pop(), None);
}

#[test]
fn binary_heap_vec_scenario_four_three_one_two() {
    let mut heap = BinaryHeapVec::<i32>::new();
    for x in [4, 3, 1, 2] {
        heap.push(x);
    }
    assert_eq!(heap.pop(), Some(1));
    assert_eq!(heap.pop(), Some(2));
    assert_eq!(heap.pop(), Some(3));
    assert_eq!(heap.pop(), Some(4));
    assert_eq!(heap.pop(), None);
}

#[test]
fn binary_heap_vec_eleven_elements_least_pushed_first() {
    // The least element is pushed first, so that it ends up in the largest
    // tree of a forest that holds eleven elements.
    let mut heap = BinaryHeapVec::<i32>::new();
    for x in [0, 10, 9, 8, 7, 6, 5, 4, 3, 2, 1] {
        heap.push(x);
    }
    assert_eq!(heap.size(), 11);
    for x in 0..=10 {
        assert_eq!(heap.size(), (11 - x) as usize);
        assert_eq!(heap.pop(), Some(x));
    }
    assert_eq!(heap.pop(), None);
}

#[test]
fn binary_heap_vec_holds_strings() {
    let mut heap = BinaryHeapVec::<String>::new();
    for word in ["pear", "apple", "fig", "apple", "quince"] {
        heap.push(word.to_string());
    }
    assert_eq!(heap.peek().map(|s| s.as_str()), Some("apple"));
    let mut popped = Vec::new();
    while let Some(word) = heap.pop() {
        popped.push(word);
    }
    assert_eq!(popped, vec!["apple", "apple", "fig", "pear", "quince"]);
}

#[test]
fn binary_heap_vec_insert_n_elements_pushes_one_to_n() {
    let mut heap = BinaryHeapVec::<i32>::new();
    insert_n_elements(&mut heap, 5);
    assert_eq!(heap.size(), 5);
    assert_eq!(heap.pop(), Some(1));
    assert_eq!(heap.pop(), Some(2));
    assert_eq!(heap.pop(), Some(3));
    assert_eq!(heap.pop(), Some(4));
    assert_eq!(heap.pop(), Some(5));
    assert_eq!(heap.pop(), None);
    insert_n_elements(&mut heap, 0);
    assert_eq!(heap.size(), 0);
    insert_n_elements(&mut heap, -3);
    assert_eq!(heap.size(), 0);
    insert_n_elements(&mut heap, 1);
    assert_eq!(heap.size(), 1);
    assert_eq!(heap.peek(), Some(&1));
    insert_n_elements(&mut heap, 3);
    assert_eq!(heap.size(), 4);
    assert_eq!(heap.pop(), Some(1));
    assert_eq!(heap.pop(), Some(1));
    assert_eq!(heap.pop(), Some(2));
    assert_eq!(heap.pop(), Some(3));
    assert_eq!(heap.pop(), None);
    insert_n_elements(&mut heap, 100);
    assert_eq!(heap.size(), 100);
    for x in 1..=100 {
        assert_eq!(heap.pop(), Some(x));
    }
    assert_eq!(heap.pop(), None);
}

#[test]
fn binary_heap_vec_insert_n_vector_elements_adds_all() {
    let mut heap = BinaryHeapVec::<i32>::new();
    heap.push(6);
    insert_n_vector_elements(&mut heap, &vec![9, -4, 6, 0]);
    assert_eq!(heap.size(), 5);
    let mut popped = Vec::new();
    while let Some(x) = heap.pop() {
        popped.push(x);
    }
    assert_eq!(popped, vec![-4, 0, 6, 6, 9]);
    insert_n_vector_elements(&mut heap, &Vec::new());
    assert_eq!(heap.size(), 0);
}

#[test]
fn binary_heap_vec_default_is_empty() {
    let mut heap: BinaryHeapVec<i32> = Default::default();
    assert_eq!(heap.size(), 0);
    assert_eq!(heap.peek(), None);
    heap.push(2);
    heap.push(1);
    assert_eq!(heap.pop(), Some(1));
}

#[test]
fn binary_heap_vec_sifts_down_both_ways() {
    // After the first pop the last leaf goes to the root and has to sink,
    // once past a left child and once past a right child.
    let mut heap = BinaryHeapVec::<i32>::new();
    for x in [1, 2, 3, 4, 5, 6, 7] {
        heap.push(x);
    }
    assert_eq!(heap.pop(), Some(1));
    assert_eq!(heap.peek(), Some(&2));
    let mut heap = BinaryHeapVec::<i32>::new();
    for x in [1, 3, 2, 7, 6, 5, 4] {
        heap.push(x);
    }
    assert_eq!(heap.pop(), Some(1));
    assert_eq!(heap.peek(), Some(&2));
    assert_eq!(heap.pop(), Some(2));
    assert_eq!(heap.pop(), Some(3));
    assert_eq!(heap.pop(), Some(4));
    assert_eq!(heap.pop(), Some(5));
    assert_eq!(heap.pop(), Some(6));
    assert_eq!(heap.pop(), Some(7));
    assert_eq!(heap.pop(), None);
}
