use puzzle_tools::wordlist::trie::concurrent_pq::{bank_size, ConcurrentPQ, SingleQ};

#[test]
fn test_pq() {
    let mut pq = ConcurrentPQ::new();
    println!("Starting...");
    pq.push(5);
    pq.push(2);
    pq.push(7);
    pq.push(3);
    pq.push(1);

    println!("Pushed {}", pq.len());
    assert_eq!(pq.len(), 5);

    let mut popped = vec![];
    while let Some(x) = pq.try_pop() {
        println!("{}", x);
        popped.push(x);
    }

    popped.sort(); // popping is slightly non-deterministic so we're not guaranteed an order
    assert_eq!(popped, vec![1, 2, 3, 5, 7]);
}

#[test]
fn a_queue_of_one_heap_pops_best_first() {
    let mut pq = ConcurrentPQ::with_queues(1);
    for x in [4i64, 9, -3, 9, 0, 7] {
        pq.push(x);
    }
    let mut popped = vec![];
    while let Some(x) = pq.try_pop() {
        popped.push(x);
    }
    assert_eq!(popped, vec![9, 9, 7, 4, 0, -3]);
    assert_eq!(pq.len(), 0);
    assert_eq!(pq.try_pop(), None);
}

#[test]
fn a_bank_of_heaps_returns_what_was_pushed() {
    let mut pq = ConcurrentPQ::with_queues(7);
    let mut pushed: Vec<i32> = (0..500).map(|i| (i * 7919) % 211).collect();
    for x in &pushed {
        pq.push(*x);
    }
    assert_eq!(pq.len(), 500);
    let mut popped = vec![];
    while let Some(x) = pq.try_pop() {
        popped.push(x);
    }
    pushed.sort();
    popped.sort();
    assert_eq!(popped, pushed);
}

#[test]
fn clear_empties_the_queue() {
    let mut pq = ConcurrentPQ::with_queues(3);
    for x in 0..20 {
        pq.push(x);
    }
    pq.clear();
    assert_eq!(pq.len(), 0);
    assert_eq!(pq.try_pop(), None);
    pq.push(4);
    assert_eq!(pq.try_pop(), Some(4));
}

#[test]
fn a_heap_pops_in_descending_order() {
    let mut heap = SingleQ::new();
    assert!(heap.is_empty());
    assert_eq!(heap.peek(), None);
    for x in [3i32, 1, 4, 1, 5, 9, 2, 6, 5, 3, 5] {
        heap.push(x);
    }
    assert_eq!(heap.len(), 11);
    assert_eq!(heap.peek(), Some(9));
    let mut popped = vec![];
    while let Some(x) = heap.pop() {
        popped.push(x);
    }
    assert_eq!(popped, vec![9, 6, 5, 5, 5, 4, 3, 3, 2, 1, 1]);
    heap.push(8);
    heap.clear();
    assert!(heap.is_empty());
}

#[test]
fn two_heaps_for_each_thread() {
    assert_eq!(bank_size(0), 1);
    assert_eq!(bank_size(1), 2);
    assert_eq!(bank_size(8), 16);
    assert_eq!(bank_size(usize::MAX / 2), usize::MAX - 1);
    assert_eq!(bank_size(usize::MAX), usize::MAX);
}
