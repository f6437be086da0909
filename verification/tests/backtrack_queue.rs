use mcts_extract::backtrack_queue::BacktrackQueue;

#[test]
fn pop_front_on_empty_queue_is_none() {
    let mut q: BacktrackQueue<u32> = BacktrackQueue::default();
    assert_eq!(q.pop_front(), None);
    assert_eq!(q.front(), None);
    assert!(q.iter().is_empty());
}

#[test]
fn pops_in_push_order() {
    let mut q = BacktrackQueue::default();
    q.push_back(1);
    q.push_back(2);
    q.push_back(3);
    assert_eq!(q.front(), Some(&1));
    assert_eq!(q.pop_front(), Some(1));
    assert_eq!(q.pop_front(), Some(2));
    assert_eq!(q.iter(), &[3]);
    assert_eq!(q.pop_front(), Some(3));
    assert_eq!(q.pop_front(), None);
}

#[test]
fn restore_brings_popped_elements_back() {
    let mut q = BacktrackQueue::default();
    q.push_back(10);
    q.push_back(20);
    assert_eq!(q.pop_front(), Some(10));
    let snap = q.snapshot();
    assert_eq!(snap.front, 1);
    assert_eq!(snap.back, 2);
    let first = q.pop_front();
    q.push_back(30);
    q.push_back(40);
    assert_eq!(q.pop_front(), Some(30));
    q.restore(&snap);
    assert_eq!(q.iter(), &[20]);
    assert_eq!(q.pop_front(), first);
    assert_eq!(q.pop_front(), None);
}

#[test]
fn snapshot_records_cursor_and_length() {
    let mut q = BacktrackQueue::default();
    let empty = q.snapshot();
    assert_eq!((empty.front, empty.back), (0, 0));
    q.push_back('a');
    q.push_back('b');
    q.push_back('c');
    q.pop_front();
    let snap = q.snapshot();
    assert_eq!((snap.front, snap.back), (1, 3));
}

#[test]
fn restore_cuts_off_later_pushes() {
    let mut q = BacktrackQueue::default();
    q.push_back(1);
    let snap = q.snapshot();
    q.push_back(2);
    q.push_back(3);
    q.restore(&snap);
    assert_eq!(q.iter(), &[1]);
    assert_eq!(q.snapshot().back, 1);
}

#[test]
fn round_trip_through_nested_snapshots() {
    let mut q = BacktrackQueue::default();
    for x in 0..5 {
        q.push_back(x);
    }
    q.pop_front();
    let outer = q.snapshot();
    let seen: Vec<i32> = q.iter().to_vec();
    q.pop_front();
    q.push_back(5);
    let inner = q.snapshot();
    q.pop_front();
    q.push_back(6);
    q.restore(&inner);
    assert_eq!(q.iter(), &[2, 3, 4, 5]);
    q.pop_front();
    q.push_back(7);
    q.restore(&outer);
    assert_eq!(q.iter().to_vec(), seen);
    assert_eq!(q.pop_front(), Some(1));
}

#[test]
fn restore_to_a_longer_snapshot_keeps_what_is_there() {
    let mut q = BacktrackQueue::default();
    q.push_back(1);
    let short = q.snapshot();
    q.push_back(2);
    q.pop_front();
    q.pop_front();
    let long = q.snapshot();
    q.restore(&short);
    q.restore(&long);
    // The cursor is past the end: nothing to pop, nothing to see.
    assert_eq!(q.front(), None);
    assert_eq!(q.pop_front(), None);
    assert!(q.iter().is_empty());
}
