use data_structures::priority_queue::{EmptyQueue, PriorityQueue, Sort};

fn drain(queue: &mut PriorityQueue<isize>) -> Vec<isize> {
    let mut out = Vec::new();
    while let Ok(v) = queue.poll() {
        out.push(v);
    }
    out
}

fn precedes(sort: &Sort, a: isize, b: isize) -> bool {
    match sort {
        Sort::Min => a <= b,
        Sort::Max => a >= b,
    }
}

/// Checks heap order and that the position index lists exactly the
/// occupied slots of each value.
fn assert_valid(queue: &PriorityQueue<isize>, sort: &Sort) {
    for i in 1..queue.heap.len() {
        assert!(precedes(sort, queue.heap[(i - 1) / 2], queue.heap[i]));
    }
    for (i, v) in queue.heap.iter().enumerate() {
        assert!(queue.map.get(v).unwrap().contains(&i));
    }
    for (v, slots) in queue.map.iter() {
        assert!(!slots.is_empty());
        for &k in slots.iter() {
            assert_eq!(queue.heap[k], *v);
        }
    }
}

/// A small deterministic generator of test values.
fn next_value(state: &mut u64) -> isize {
    *state = state.wrapping_mul(6364136223846793005).wrapping_add(1442695040888963407);
    ((*state >> 33) % 41) as isize - 20
}

// Min Priority Queue
#[test]
fn add_descending() {
    let mut queue = PriorityQueue::<isize>::new(Sort::Min);

    queue.add(11);
    queue.add(5);
    queue.add(2);
    queue.add(1);

    assert_eq!(queue.poll(), Ok(1));
    assert_eq!(queue.poll(), Ok(2));
    assert_eq!(queue.poll(), Ok(5));
    assert_eq!(queue.poll(), Ok(11));
}

#[test]
fn add_ascending() {
    let mut queue = PriorityQueue::<isize>::new(Sort::Min);

    queue.add(1);
    queue.add(2);
    queue.add(5);
    queue.add(11);

    assert_eq!(queue.poll(), Ok(1));
    assert_eq!(queue.poll(), Ok(2));
    assert_eq!(queue.poll(), Ok(5));
    assert_eq!(queue.poll(), Ok(11));
}

#[test]
fn add_random() {
    let mut queue = PriorityQueue::<isize>::new(Sort::Min);

    queue.add(11);
    queue.add(1);
    queue.add(5);
    queue.add(2);
    queue.add(3);
    queue.add(99);
    queue.add(1);
    queue.add(-5);
    queue.add(0);

    assert_eq!(queue.poll(), Ok(-5));
    assert_eq!(queue.poll(), Ok(0));
    assert_eq!(queue.poll(), Ok(1));
    assert_eq!(queue.poll(), Ok(1));
    assert_eq!(queue.poll(), Ok(2));
    assert_eq!(queue.poll(), Ok(3));
    assert_eq!(queue.poll(), Ok(5));
    assert_eq!(queue.poll(), Ok(11));
    assert_eq!(queue.poll(), Ok(99));
}

// Max Priority Queue
#[test]
fn max_add_descending() {
    let mut queue = PriorityQueue::<isize>::new(Sort::Max);

    queue.add(11);
    queue.add(5);
    queue.add(2);
    queue.add(1);

    assert_eq!(queue.poll(), Ok(11));
    assert_eq!(queue.poll(), Ok(5));
    assert_eq!(queue.poll(), Ok(2));
    assert_eq!(queue.poll(), Ok(1));
}

#[test]
fn max_add_ascending() {
    let mut queue = PriorityQueue::<isize>::new(Sort::Max);

    queue.add(1);
    queue.add(2);
    queue.add(5);
    queue.add(11);

    assert_eq!(queue.poll(), Ok(11));
    assert_eq!(queue.poll(), Ok(5));
    assert_eq!(queue.poll(), Ok(2));
    assert_eq!(queue.poll(), Ok(1));
}

#[test]
fn max_add_random() {
    let mut queue = PriorityQueue::<isize>::new(Sort::Max);

    queue.add(11);
    queue.add(1);
    queue.add(5);
    queue.add(2);
    queue.add(3);
    queue.add(99);
    queue.add(1);
    queue.add(-5);
    queue.add(0);

    assert_eq!(queue.poll(), Ok(99));
    assert_eq!(queue.poll(), Ok(11));
    assert_eq!(queue.poll(), Ok(5));
    assert_eq!(queue.poll(), Ok(3));
    assert_eq!(queue.poll(), Ok(2));
    assert_eq!(queue.poll(), Ok(1));
    assert_eq!(queue.poll(), Ok(1));
    assert_eq!(queue.poll(), Ok(0));
    assert_eq!(queue.poll(), Ok(-5));
}

// Removal
#[test]
fn remove() {
    let mut queue = PriorityQueue::<isize>::new(Sort::Min);

    queue.add(11);
    queue.add(5);
    queue.add(2);
    queue.add(-5);
    queue.add(1);
    queue.add(3);
    queue.add(3);
    queue.add(7);
    queue.add(1);

    queue.remove(3);

    assert_eq!(queue.poll(), Ok(-5));
    assert_eq!(queue.poll(), Ok(1));
    assert_eq!(queue.poll(), Ok(1));
    assert_eq!(queue.poll(), Ok(2));
    assert_eq!(queue.poll(), Ok(3));
    assert_eq!(queue.poll(), Ok(5));
    assert_eq!(queue.poll(), Ok(7));
    assert_eq!(queue.poll(), Ok(11));
}

// Contains
#[test]
fn contains() {
    let mut queue = PriorityQueue::<isize>::new(Sort::Min);

    queue.add(11);
    queue.add(5);
    queue.add(2);
    queue.add(-5);

    assert_eq!(queue.contains(-5), true);
    assert_eq!(queue.contains(1), false);
    queue.remove(-5);

    println!("{:?}", queue.heap);
    println!("{:?}", queue.map);

    assert_eq!(queue.contains(-5), false);
    queue.remove(11);
    assert_eq!(queue.contains(11), false);
}

#[test]
fn extraction_order_min() {
    let mut queue = PriorityQueue::<isize>::new(Sort::Min);
    for v in [11, 5, 2, 5, 1, 1, -5, 99] {
        queue.add(v);
        assert_valid(&queue, &Sort::Min);
    }
    assert_eq!(drain(&mut queue), vec![-5, 1, 1, 2, 5, 5, 11, 99]);
}

#[test]
fn extraction_order_max() {
    let mut queue = PriorityQueue::<isize>::new(Sort::Max);
    for v in [11, 5, 2, 5, 1, 1, -5, 99] {
        queue.add(v);
        assert_valid(&queue, &Sort::Max);
    }
    assert_eq!(drain(&mut queue), vec![99, 11, 5, 5, 2, 1, 1, -5]);
}

#[test]
fn size_accounting() {
    let mut queue = PriorityQueue::<isize>::new(Sort::Min);
    assert_eq!(queue.size(), 0);
    assert_eq!(queue.poll(), Err(EmptyQueue));
    assert_eq!(queue.size(), 0);
    queue.add(4);
    queue.add(8);
    queue.add(4);
    assert_eq!(queue.size(), 3);
    assert_eq!(queue.poll(), Ok(4));
    assert_eq!(queue.size(), 2);
    queue.remove(8);
    assert_eq!(queue.size(), 1);
    queue.remove(100);
    assert_eq!(queue.size(), 1);
    assert_eq!(queue.poll(), Ok(4));
    assert_eq!(queue.size(), 0);
    assert_eq!(queue.poll(), Err(EmptyQueue));
    assert_eq!(queue.size(), 0);
}

#[test]
fn duplicates_tracked_per_slot() {
    let mut queue = PriorityQueue::<isize>::new(Sort::Min);
    queue.add(7);
    queue.add(7);
    queue.add(7);
    queue.remove(7);
    queue.remove(7);
    assert!(queue.contains(7));
    assert_valid(&queue, &Sort::Min);
    queue.remove(7);
    assert!(!queue.contains(7));
    assert_eq!(queue.size(), 0);
    assert!(queue.map.is_empty());
}

#[test]
fn get_index_gives_lowest_slot() {
    let mut queue = PriorityQueue::<isize>::new(Sort::Min);
    for v in [1, 9, 9, 9, 2] {
        queue.add(v);
    }
    let first = queue.heap.iter().position(|&x| x == 9);
    assert_eq!(queue.get_index(9), first);
    assert_ne!(queue.get_index(9), None);
    assert_eq!(queue.get_index(1), Some(0));
    assert_eq!(queue.get_index(4), None);
}

#[test]
fn round_trip_sorts_any_order() {
    let mut state: u64 = 12345;
    for round in 0..50 {
        let n = round % 23;
        let values: Vec<isize> = (0..n).map(|_| next_value(&mut state)).collect();
        let mut sorted = values.clone();
        sorted.sort();

        let mut min_queue = PriorityQueue::<isize>::new(Sort::Min);
        let mut max_queue = PriorityQueue::<isize>::new(Sort::Max);
        for &v in &values {
            min_queue.add(v);
            max_queue.add(v);
        }
        assert_eq!(drain(&mut min_queue), sorted);
        sorted.reverse();
        assert_eq!(drain(&mut max_queue), sorted);
    }
}

#[test]
fn removal_in_the_middle_keeps_heap_order() {
    // 6 sits in slot 4 with children 12 and 11; the last value, 1, has to
    // rise above the parent of slot 4 after it takes that slot.
    let mut queue = PriorityQueue::<isize>::new(Sort::Min);
    for v in [0, 5, 2, 5, 6, 3, 3, 5, 5, 12, 11, 4, 4, 4, 4, 1] {
        queue.add(v);
    }
    assert_valid(&queue, &Sort::Min);
    queue.remove(6);
    assert_valid(&queue, &Sort::Min);
    assert_eq!(drain(&mut queue), vec![0, 1, 2, 3, 3, 4, 4, 4, 4, 5, 5, 5, 5, 11, 12]);
}

#[test]
fn removal_fuzz_keeps_heap_valid() {
    let mut state: u64 = 987654321;
    for round in 0..40 {
        let sort = if round % 2 == 0 { Sort::Min } else { Sort::Max };
        let mut queue = PriorityQueue::<isize>::new(sort);
        let mut model: Vec<isize> = Vec::new();
        for _ in 0..30 {
            let v = next_value(&mut state);
            queue.add(v);
            model.push(v);
        }
        for _ in 0..25 {
            let v = next_value(&mut state);
            queue.remove(v);
            if let Some(p) = model.iter().position(|&x| x == v) {
                model.remove(p);
            }
            assert_valid(&queue, &sort);
            assert_eq!(queue.size(), model.len());
        }
        model.sort();
        if let Sort::Max = sort {
            model.reverse();
        }
        assert_eq!(drain(&mut queue), model);
    }
}

#[test]
fn removing_absent_value_changes_nothing() {
    let mut queue = PriorityQueue::<isize>::new(Sort::Max);
    for v in [3, 1, 4] {
        queue.add(v);
    }
    let before = queue.heap.clone();
    queue.remove(2);
    assert_eq!(queue.heap, before);
    assert_eq!(queue.size(), 3);
}
