//! A bounded FIFO between a producer and a consumer.
//!
//! The queue makes the decisions; waiting is the caller's. Where the producer
//! would block, `enqueue` hands the item back so that the caller can wait for
//! room and try again; where the consumer would wait, `dequeue` says so.
use std::collections::VecDeque;
use vstd::prelude::*;

verus! {

/// What `enqueue` does when the queue is full.
#[derive(Clone, Copy, Debug, PartialEq, Eq, Structural)]
pub enum OverflowPolicy {
    /// The producer waits until there is room.
    BlockProducer,
    /// The new item is discarded and the drop is reported.
    DropNewestAndReport,
}

/// The outcome of `enqueue`.
#[derive(Debug)]
pub enum Enqueued<T> {
    /// The item is now last in the queue.
    Accepted,
    /// The queue is full and the producer is to wait: the item is handed back.
    Full(T),
    /// The queue was full and the item was discarded.
    Dropped,
    /// The queue is closed: the item is handed back.
    Closed(T),
}

/// The outcome of `dequeue`.
#[derive(Debug)]
pub enum Dequeued<T> {
    /// The oldest item.
    Item(T),
    /// Nothing is queued yet: the consumer is to wait.
    Empty,
    /// The queue is closed and drained: the sequence has ended.
    Finished,
}

/// One enqueue, on a queue holding `items`.
pub open spec fn enqueue_step<T>(
    items: Seq<T>,
    capacity: nat,
    policy: OverflowPolicy,
    closed: bool,
    item: T,
) -> (Seq<T>, Enqueued<T>) {
    if closed {
        (items, Enqueued::Closed(item))
    } else if items.len() < capacity {
        (items.push(item), Enqueued::Accepted)
    } else {
        match policy {
            OverflowPolicy::BlockProducer => (items, Enqueued::Full(item)),
            OverflowPolicy::DropNewestAndReport => (items, Enqueued::Dropped),
        }
    }
}

/// One dequeue, on a queue holding `items`.
pub open spec fn dequeue_step<T>(items: Seq<T>, closed: bool) -> (Seq<T>, Dequeued<T>) {
    if items.len() > 0 {
        (items.drop_first(), Dequeued::Item(items[0]))
    } else if closed {
        (items, Dequeued::Finished)
    } else {
        (items, Dequeued::Empty)
    }
}

/// Running `ops` on a queue holding `items` (`Some(x)` enqueues `x`, `None`
/// dequeues): the items left, the items accepted in order, the items dequeued
/// in order, and the number of drops reported.
pub open spec fn run_ops<T>(
    items: Seq<T>,
    capacity: nat,
    policy: OverflowPolicy,
    closed: bool,
    ops: Seq<Option<T>>,
) -> (Seq<T>, Seq<T>, Seq<T>, nat)
    decreases ops.len(),
{
    if ops.len() == 0 {
        (items, Seq::empty(), Seq::empty(), 0)
    } else {
        match ops[0] {
            Some(x) => {
                let (next, outcome) = enqueue_step(items, capacity, policy, closed, x);
                let rest = run_ops(next, capacity, policy, closed, ops.drop_first());
                match outcome {
                    Enqueued::Accepted => (rest.0, seq![x] + rest.1, rest.2, rest.3),
                    Enqueued::Dropped => (rest.0, rest.1, rest.2, rest.3 + 1),
                    _ => rest,
                }
            },
            None => {
                let (next, outcome) = dequeue_step(items, closed);
                let rest = run_ops(next, capacity, policy, closed, ops.drop_first());
                match outcome {
                    Dequeued::Item(y) => (rest.0, rest.1, seq![y] + rest.2, rest.3),
                    _ => rest,
                }
            },
        }
    }
}

/// A fixed-capacity FIFO queue with an overflow policy.
pub struct BoundedQueue<T> {
    items: VecDeque<T>,
    capacity: usize,
    policy: OverflowPolicy,
    closed: bool,
}

impl<T> View for BoundedQueue<T> {
    type V = Seq<T>;

    closed spec fn view(&self) -> Seq<T> {
        self.items@
    }
}

impl<T> BoundedQueue<T> {
    /// The capacity fixed at construction.
    pub closed spec fn spec_capacity(&self) -> nat {
        self.capacity as nat
    }

    /// The overflow policy fixed at construction.
    pub closed spec fn spec_policy(&self) -> OverflowPolicy {
        self.policy
    }

    /// Whether the producer side has been closed.
    pub closed spec fn spec_closed(&self) -> bool {
        self.closed
    }

    /// An empty, open queue.
    pub fn new(capacity: usize, policy: OverflowPolicy) -> (r: Self)
        ensures
            r@ == Seq::<T>::empty(),
            r.spec_capacity() == capacity,
            r.spec_policy() == policy,
            !r.spec_closed(),
    {
        BoundedQueue { items: VecDeque::new(), capacity, policy, closed: false }
    }

    pub fn capacity(&self) -> (r: usize)
        ensures
            r == self.spec_capacity(),
    {
        self.capacity
    }

    pub fn policy(&self) -> (r: OverflowPolicy)
        ensures
            r == self.spec_policy(),
    {
        self.policy
    }

    pub fn is_closed(&self) -> (r: bool)
        ensures
            r == self.spec_closed(),
    {
        self.closed
    }

    /// Number of items queued.
    pub fn len(&self) -> (r: usize)
        ensures
            r == self@.len(),
    {
        self.items.len()
    }

    /// Closes the producer side: no more items are accepted, and once the
    /// queued ones are taken out `dequeue` reports the end.
    pub fn close(&mut self)
        ensures
            final(self)@ == old(self)@,
            final(self).spec_capacity() == old(self).spec_capacity(),
            final(self).spec_policy() == old(self).spec_policy(),
            final(self).spec_closed(),
    {
        self.closed = true;
    }

    /// Puts `item` at the back when there is room; otherwise acts by the
    /// overflow policy (see [`enqueue_step`]).
    pub fn enqueue(&mut self, item: T) -> (r: Enqueued<T>)
        ensures
            (final(self)@, r) == enqueue_step(
                old(self)@,
                old(self).spec_capacity(),
                old(self).spec_policy(),
                old(self).spec_closed(),
                item,
            ),
            final(self).spec_capacity() == old(self).spec_capacity(),
            final(self).spec_policy() == old(self).spec_policy(),
            final(self).spec_closed() == old(self).spec_closed(),
    {
        if self.closed {
            Enqueued::Closed(item)
        } else if self.items.len() < self.capacity {
            self.items.push_back(item);
            Enqueued::Accepted
        } else {
            match self.policy {
                OverflowPolicy::BlockProducer => Enqueued::Full(item),
                OverflowPolicy::DropNewestAndReport => Enqueued::Dropped,
            }
        }
    }

    /// Takes out the oldest item; otherwise says whether to wait or the end
    /// has come (see [`dequeue_step`]).
    pub fn dequeue(&mut self) -> (r: Dequeued<T>)
        ensures
            (final(self)@, r) == dequeue_step(old(self)@, old(self).spec_closed()),
            final(self).spec_capacity() == old(self).spec_capacity(),
            final(self).spec_policy() == old(self).spec_policy(),
            final(self).spec_closed() == old(self).spec_closed(),
    {
        match self.items.pop_front() {
            Some(x) => {
                assert(self.items@ =~= old(self)@.drop_first());
                Dequeued::Item(x)
            },
            None => {
                if self.closed {
                    Dequeued::Finished
                } else {
                    Dequeued::Empty
                }
            },
        }
    }
}

/// FIFO order: whatever the operations, what was queued plus what was accepted
/// equals what was dequeued plus what is left. From an empty queue, the items
/// come out in the order they were accepted.
pub proof fn lemma_fifo<T>(
    items: Seq<T>,
    capacity: nat,
    policy: OverflowPolicy,
    closed: bool,
    ops: Seq<Option<T>>,
)
    ensures
        ({
            let (left, accepted, dequeued, _drops) = run_ops(items, capacity, policy, closed, ops);
            &&& items + accepted == dequeued + left
            &&& items.len() == 0 ==> dequeued == accepted.subrange(0, dequeued.len() as int)
        }),
    decreases ops.len(),
{
    let (left, accepted, dequeued, _drops) = run_ops(items, capacity, policy, closed, ops);
    if ops.len() > 0 {
        let rest_ops = ops.drop_first();
        match ops[0] {
            Some(x) => {
                let (next, outcome) = enqueue_step(items, capacity, policy, closed, x);
                lemma_fifo(next, capacity, policy, closed, rest_ops);
                let rest = run_ops(next, capacity, policy, closed, rest_ops);
                if outcome is Accepted {
                    assert(items + (seq![x] + rest.1) =~= items.push(x) + rest.1);
                }
            },
            None => {
                let (next, outcome) = dequeue_step(items, closed);
                lemma_fifo(next, capacity, policy, closed, rest_ops);
                let rest = run_ops(next, capacity, policy, closed, rest_ops);
                if items.len() > 0 {
                    assert(items =~= seq![items[0]] + next);
                    assert(items + rest.1 =~= seq![items[0]] + (next + rest.1));
                    assert(seq![items[0]] + (rest.2 + rest.0) =~= (seq![items[0]] + rest.2)
                        + rest.0);
                }
            },
        }
    }
    if items.len() == 0 {
        assert(items + accepted =~= accepted);
        assert(dequeued =~= (dequeued + left).subrange(0, dequeued.len() as int));
    }
}

/// Overflow signalling: enqueueing the items `xs` into an open queue of
/// capacity `capacity` under `DropNewestAndReport`, holding `items` and with no
/// dequeue between, keeps the first ones that fit, in order, and reports one
/// drop for each of the others.
pub proof fn lemma_drop_newest<T>(items: Seq<T>, capacity: nat, xs: Seq<T>)
    requires
        items.len() <= capacity,
    ensures
        ({
            let room = (capacity - items.len()) as nat;
            let kept = if xs.len() <= room { xs.len() } else { room };
            let r = run_ops(
                items,
                capacity,
                OverflowPolicy::DropNewestAndReport,
                false,
                enqueue_ops(xs),
            );
            &&& r.0 == items + xs.subrange(0, kept as int)
            &&& r.3 == xs.len() - kept
        }),
    decreases xs.len(),
{
    let ops = enqueue_ops(xs);
    let room = (capacity - items.len()) as nat;
    if xs.len() == 0 {
        assert(items + xs.subrange(0, 0) =~= items);
    } else {
        let rest_xs = xs.drop_first();
        assert(ops.drop_first() =~= enqueue_ops(rest_xs));
        assert(ops[0] == Some(xs[0]));
        if items.len() < capacity {
            lemma_drop_newest(items.push(xs[0]), capacity, rest_xs);
            let kept = if xs.len() <= room { xs.len() } else { room };
            assert(items.push(xs[0]) + rest_xs.subrange(0, kept - 1) =~= items + xs.subrange(
                0,
                kept as int,
            ));
        } else {
            lemma_drop_newest(items, capacity, rest_xs);
            assert(xs.subrange(0, 0) =~= rest_xs.subrange(0, 0));
        }
    }
}

/// `Some(x)` for each `x` of `xs`: the enqueue operations of `xs`, in order.
pub open spec fn enqueue_ops<T>(xs: Seq<T>) -> Seq<Option<T>> {
    xs.map_values(|x: T| Some(x))
}

/// Offers `items` one after another to an open queue that drops the newest
/// item when full, and returns how many were dropped.
pub fn offer_all<T>(q: &mut BoundedQueue<T>, items: Vec<T>) -> (dropped: usize)
    requires
        old(q).spec_policy() == OverflowPolicy::DropNewestAndReport,
        !old(q).spec_closed(),
    ensures
        ({
            let r = run_ops(
                old(q)@,
                old(q).spec_capacity(),
                OverflowPolicy::DropNewestAndReport,
                false,
                enqueue_ops(items@),
            );
            &&& final(q)@ == r.0
            &&& dropped == r.3
        }),
        final(q).spec_capacity() == old(q).spec_capacity(),
        final(q).spec_policy() == old(q).spec_policy(),
        !final(q).spec_closed(),
{
    let ghost cap = q.spec_capacity();
    let ghost pol = OverflowPolicy::DropNewestAndReport;
    let ghost whole = run_ops(q@, cap, pol, false, enqueue_ops(items@));
    let total = items.len();
    let ghost n = items@.len();
    let mut items = items;
    let mut dropped: usize = 0;
    while items.len() > 0
        invariant
            q.spec_capacity() == cap,
            q.spec_policy() == pol,
            !q.spec_closed(),
            dropped + items@.len() <= n == total,
            whole.0 == run_ops(q@, cap, pol, false, enqueue_ops(items@)).0,
            whole.3 == dropped + run_ops(q@, cap, pol, false, enqueue_ops(items@)).3,
        decreases items@.len(),
    {
        let ghost ops = enqueue_ops(items@);
        let x = items.remove(0);
        assert(ops[0] == Some(x));
        assert(ops.drop_first() =~= enqueue_ops(items@));
        match q.enqueue(x) {
            Enqueued::Dropped => {
                dropped = dropped + 1;
            },
            _ => {},
        }
    }
    assert(enqueue_ops(items@) =~= Seq::<Option<T>>::empty());
    dropped
}

} // verus!
