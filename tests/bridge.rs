use srt_pacer::bridge::{offer_all, BoundedQueue, Dequeued, Enqueued, OverflowPolicy};

fn drain(q: &mut BoundedQueue<u32>) -> Vec<u32> {
    let mut out = Vec::new();
    while let Dequeued::Item(x) = q.dequeue() {
        out.push(x);
    }
    out
}

#[test]
fn items_come_out_in_order() {
    let mut q = BoundedQueue::new(8, OverflowPolicy::BlockProducer);
    for x in [5u32, 1, 9, 3] {
        assert!(matches!(q.enqueue(x), Enqueued::Accepted));
    }
    assert!(matches!(q.dequeue(), Dequeued::Item(5)));
    assert!(matches!(q.enqueue(7), Enqueued::Accepted));
    assert_eq!(drain(&mut q), vec![1, 9, 3, 7]);
}

#[test]
fn overflow_drops_newest_and_reports_once() {
    let cap = 4usize;
    let mut q = BoundedQueue::new(cap, OverflowPolicy::DropNewestAndReport);
    let mut drops = 0;
    for x in 0..=cap as u32 {
        if let Enqueued::Dropped = q.enqueue(x) {
            drops += 1;
        }
    }
    assert_eq!(drops, 1);
    assert_eq!(q.len(), cap);
    assert_eq!(drain(&mut q), vec![0, 1, 2, 3]);
}

#[test]
fn full_queue_hands_item_back_when_blocking() {
    let mut q = BoundedQueue::new(1, OverflowPolicy::BlockProducer);
    assert!(matches!(q.enqueue(1u32), Enqueued::Accepted));
    assert!(matches!(q.enqueue(2), Enqueued::Full(2)));
    assert!(matches!(q.dequeue(), Dequeued::Item(1)));
    assert!(matches!(q.enqueue(2), Enqueued::Accepted));
}

#[test]
fn close_drains_then_finishes() {
    let mut q = BoundedQueue::new(3, OverflowPolicy::BlockProducer);
    assert!(matches!(q.dequeue(), Dequeued::<u32>::Empty));
    q.enqueue(4u32);
    q.close();
    assert!(q.is_closed());
    assert!(matches!(q.enqueue(5), Enqueued::Closed(5)));
    assert!(matches!(q.dequeue(), Dequeued::Item(4)));
    assert!(matches!(q.dequeue(), Dequeued::Finished));
}

#[test]
fn zero_capacity_drops_everything() {
    let mut q = BoundedQueue::new(0, OverflowPolicy::DropNewestAndReport);
    assert!(matches!(q.enqueue(1u32), Enqueued::Dropped));
    assert_eq!(q.len(), 0);
}

#[test]
fn offer_all_counts_drops() {
    let mut q = BoundedQueue::new(3, OverflowPolicy::DropNewestAndReport);
    q.enqueue(100u32);
    assert_eq!(offer_all(&mut q, vec![1, 2, 3, 4]), 2);
    assert_eq!(q.capacity(), 3);
    assert_eq!(q.policy(), OverflowPolicy::DropNewestAndReport);
    assert_eq!(drain(&mut q), vec![100, 1, 2]);
    assert_eq!(offer_all(&mut q, vec![]), 0);
}
