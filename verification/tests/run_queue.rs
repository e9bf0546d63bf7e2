use jos_core::run_queue::RunQueue;

#[test]
fn new_queue_is_empty() {
    let q: RunQueue<8> = RunQueue::new();
    assert!(q.is_empty());
    assert!(!q.is_full());
    assert_eq!(q.len(), 0);
    assert_eq!(q.capacity(), 8);
}

#[test]
fn enqueue_then_dequeue_roundtrip() {
    let mut q: RunQueue<8> = RunQueue::new();
    assert!(q.enqueue(3));
    assert!(q.is_queued(3));
    assert_eq!(q.len(), 1);
    assert_eq!(q.dequeue(), Some(3));
    assert!(!q.is_queued(3));
    assert!(q.is_empty());
}

#[test]
fn enqueue_is_idempotent() {
    let mut q: RunQueue<8> = RunQueue::new();
    assert!(q.enqueue(2)); // newly added
    assert!(!q.enqueue(2)); // already queued: no-op
    assert!(!q.enqueue(2));
    assert_eq!(q.len(), 1);
    // it appears exactly once, so a single dequeue empties the queue.
    assert_eq!(q.dequeue(), Some(2));
    assert!(q.is_empty());
}

#[test]
fn dequeue_then_reenqueue_is_allowed() {
    let mut q: RunQueue<8> = RunQueue::new();
    q.enqueue(5);
    assert_eq!(q.dequeue(), Some(5));
    // after dequeue the index is no longer queued, so it can be added again
    // (a task that ran, then was woken once more).
    assert!(q.enqueue(5));
    assert_eq!(q.len(), 1);
}

#[test]
fn run_queue_fifo_ordering() {
    let mut q: RunQueue<8> = RunQueue::new();
    for id in [4_usize, 1, 7, 0, 2] {
        assert!(q.enqueue(id));
    }
    // re-enqueuing any already-queued id changes nothing.
    assert!(!q.enqueue(7));
    let mut got = [0_usize; 5];
    for slot in &mut got {
        *slot = q.dequeue().unwrap();
    }
    assert_eq!(got, [4, 1, 7, 0, 2]);
    assert!(q.dequeue().is_none());
}

#[test]
fn out_of_range_index_is_rejected() {
    let mut q: RunQueue<4> = RunQueue::new();
    assert!(!q.enqueue(4)); // == N
    assert!(!q.enqueue(99)); // > N
    assert!(!q.is_queued(4));
    assert!(q.is_empty());
}

#[test]
fn fills_to_capacity_with_distinct_indices() {
    let mut q: RunQueue<4> = RunQueue::new();
    for id in 0..4 {
        assert!(q.enqueue(id));
    }
    assert!(q.is_full());
    assert_eq!(q.len(), 4);
    // a fresh fill is impossible (every distinct index is already in), and
    // every still-pending id is a dup, so no enqueue can ever overflow.
    assert!(!q.enqueue(0));
    assert_eq!(q.queued_count(), 4);
}

#[test]
fn count_matches_len_through_a_mixed_sequence() {
    let mut q: RunQueue<6> = RunQueue::new();
    let ops = [1_usize, 1, 3, 5, 3, 0];
    for &id in &ops {
        q.enqueue(id);
        assert_eq!(q.queued_count(), q.len());
    }
    while let Some(_id) = q.dequeue() {
        assert_eq!(q.queued_count(), q.len());
    }
    assert_eq!(q.queued_count(), 0);
}

#[test]
fn a_woken_task_waits_for_its_turn() {
    let mut q: RunQueue<4> = RunQueue::default();
    for id in [2, 0, 2, 3, 0, 9] {
        q.enqueue(id);
    }
    assert_eq!(q.queued_count(), 3);
    assert_eq!(q.dequeue(), Some(2));
    // re-enqueued, it goes to the back.
    assert!(q.enqueue(2));
    assert_eq!([q.dequeue(), q.dequeue(), q.dequeue(), q.dequeue()], [Some(0), Some(3), Some(2), None]);
}
