use queue_recursion::heap::{left, parent, right, Heap};

fn drain(h: &mut Heap<usize>) -> Vec<(i64, usize)> {
    let mut out = Vec::new();
    while let Some(e) = h.pop() {
        out.push(e);
    }
    out
}

#[test]
fn index_arithmetic() {
    assert_eq!(parent(1), 0);
    assert_eq!(parent(2), 0);
    assert_eq!(parent(5), 2);
    assert_eq!(parent(6), 2);
    assert_eq!(left(0), 1);
    assert_eq!(right(0), 2);
    assert_eq!(left(3), 7);
    assert_eq!(right(3), 8);
}

#[test]
fn min_heap_serves_smallest_first() {
    let mut h: Heap<usize> = Heap::new(false, false);
    for (i, k) in [5i64, 3, 9, 1, 7, 3, 8, 2, 6, 4].iter().enumerate() {
        h.push((*k, i));
    }
    assert_eq!(h.len(), 10);
    let keys: Vec<i64> = drain(&mut h).iter().map(|e| e.0).collect();
    assert_eq!(keys, vec![1, 2, 3, 3, 4, 5, 6, 7, 8, 9]);
    assert_eq!(h.len(), 0);
    assert_eq!(h.pop(), None);
}

#[test]
fn max_heap_serves_largest_first() {
    let mut h: Heap<usize> = Heap::new(true, false);
    for (i, k) in [5i64, -3, 9, 1, 7, 12, 0].iter().enumerate() {
        h.push((*k, i));
    }
    let keys: Vec<i64> = drain(&mut h).iter().map(|e| e.0).collect();
    assert_eq!(keys, vec![12, 9, 7, 5, 1, 0, -3]);
}

#[test]
fn payload_travels_with_key() {
    let mut h: Heap<usize> = Heap::new(false, false);
    h.push((30, 3));
    h.push((10, 1));
    h.push((20, 2));
    assert_eq!(h.pop(), Some((10, 1)));
    assert_eq!(h.pop(), Some((20, 2)));
    assert_eq!(h.pop(), Some((30, 3)));
}

#[test]
fn now_slot_goes_first() {
    let mut h: Heap<usize> = Heap::new(false, false);
    h.push((1, 1));
    h.push_start((100, 2));
    assert_eq!(h.len(), 2);
    assert_eq!(h.pop(), Some((100, 2)));
    assert_eq!(h.pop(), Some((1, 1)));
}

#[test]
fn fifo_keeps_order_and_push_start_jumps_the_line() {
    let mut h: Heap<usize> = Heap::new(false, true);
    h.push((9, 1));
    h.push((1, 2));
    h.push((5, 3));
    h.push_start((0, 4));
    h.push_start((0, 5));
    assert_eq!(h.len(), 5);
    let ids: Vec<usize> = drain(&mut h).iter().map(|e| e.1).collect();
    assert_eq!(ids, vec![5, 4, 1, 2, 3]);
}

#[test]
fn single_entry_round_trip() {
    let mut h: Heap<usize> = Heap::new(true, false);
    h.push((4, 7));
    assert_eq!(h.len(), 1);
    assert_eq!(h.pop(), Some((4, 7)));
    assert_eq!(h.len(), 0);
}

#[test]
fn push_start_then_pop_leaves_later_pops_unchanged() {
    let keys = [4i64, 4, 2, 4, 2, 9, 4];
    let mut plain: Heap<usize> = Heap::new(false, false);
    let mut fronted: Heap<usize> = Heap::new(false, false);
    for (i, k) in keys.iter().enumerate() {
        plain.push((*k, i));
        fronted.push((*k, i));
    }
    fronted.push_start((100, 99));
    assert_eq!(fronted.len(), keys.len() + 1);
    assert_eq!(fronted.pop(), Some((100, 99)));
    assert_eq!(fronted.len(), keys.len());
    assert_eq!(drain(&mut fronted), drain(&mut plain));
}

#[test]
fn push_then_pop_gives_first_ranked() {
    let mut h: Heap<usize> = Heap::new(true, false);
    h.push((3, 0));
    h.push((8, 1));
    h.push((5, 2));
    assert_eq!(h.pop(), Some((8, 1)));
    let mut q: Heap<usize> = Heap::new(false, true);
    q.push((3, 0));
    q.push((8, 1));
    assert_eq!(q.pop(), Some((3, 0)));
    assert_eq!(q.pop(), Some((8, 1)));
    assert_eq!(q.pop(), None);
}

#[test]
fn entries_list_every_entry() {
    let mut h: Heap<usize> = Heap::new(false, false);
    h.push((5, 0));
    h.push((1, 1));
    h.push_start((0, 2));
    let e = h.entries();
    assert_eq!(e.len(), 3);
    assert_eq!(e[0], (1, 1));
    assert_eq!(e[1], (5, 0));
    assert_eq!(e[2], (0, 2));
    let mut q: Heap<usize> = Heap::new(false, true);
    q.push((5, 7));
    q.push_start((1, 8));
    assert_eq!(q.entries(), vec![(1, 8), (5, 7)]);
}

#[test]
fn equal_keys_come_out_in_slot_order() {
    let mut h: Heap<usize> = Heap::new(false, false);
    h.push((5, 0));
    h.push((5, 1));
    h.push((3, 2));
    assert_eq!(drain(&mut h), vec![(3, 2), (5, 0), (5, 1)]);
}
