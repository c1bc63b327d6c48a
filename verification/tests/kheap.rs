use linkcell::kheap::{sort_candidates, KHeap};

#[test]
fn second_push_of_an_index_keeps_the_smaller_key() {
    let mut h = KHeap::new(2);
    h.push(5, 1);
    h.push(3, 2);
    h.push(1, 1);
    h.push(9, 2);
    assert_eq!(h.len(), 2);
    assert_eq!(h.finish(), vec![(1, 1), (3, 2)]);
}

#[test]
fn full_heap_replaces_its_worst_candidate() {
    let mut h = KHeap::new(2);
    h.push(5, 1);
    h.push(7, 2);
    assert!(h.full());
    assert_eq!(h.worst(), 7);
    h.push(6, 3);
    assert_eq!(h.worst(), 6);
    h.push(9, 4);
    assert_eq!(h.finish(), vec![(5, 1), (6, 3)]);
}

#[test]
fn evicted_index_comes_back_with_a_smaller_key() {
    let mut h = KHeap::new(1);
    h.push(4, 7);
    h.push(2, 8);
    h.push(1, 7);
    assert_eq!(h.finish(), vec![(1, 7)]);
}

#[test]
fn zero_capacity_holds_nothing() {
    let mut h = KHeap::new(0);
    assert!(h.full());
    h.push(1, 1);
    assert_eq!(h.len(), 0);
    assert!(h.finish().is_empty());
}

#[test]
fn not_full_below_capacity() {
    let mut h = KHeap::new(3);
    h.push(1, 0);
    h.push(1, 0);
    assert!(!h.full());
    assert_eq!(h.len(), 1);
}

#[test]
fn finish_orders_by_key_then_index() {
    let mut h = KHeap::new(4);
    h.push(3, 9);
    h.push(3, 2);
    h.push(1, 5);
    h.push(2, 4);
    assert_eq!(h.finish(), vec![(1, 5), (2, 4), (3, 2), (3, 9)]);
}

#[test]
fn sort_keeps_every_candidate() {
    let v = vec![(4, 1), (0, 3), (4, 0), (2, 2), (0, 3)];
    assert_eq!(sort_candidates(v), vec![(0, 3), (0, 3), (2, 2), (4, 0), (4, 1)]);
    assert!(sort_candidates(Vec::new()).is_empty());
}

#[test]
fn an_equal_key_never_evicts() {
    let mut h = KHeap::new(2);
    h.push(5, 1);
    h.push(7, 2);
    h.push(7, 3);
    h.push(7, 0);
    assert_eq!(h.finish(), vec![(5, 1), (7, 2)]);
}

#[test]
fn the_first_of_equal_worst_keys_is_evicted() {
    let mut h = KHeap::new(3);
    h.push(7, 4);
    h.push(2, 1);
    h.push(7, 3);
    h.push(6, 9);
    assert_eq!(h.finish(), vec![(2, 1), (6, 9), (7, 3)]);
}
