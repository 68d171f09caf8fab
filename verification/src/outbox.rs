//! The event outbox: one ordered queue of undelivered events per destination.

use std::collections::VecDeque;
use vstd::prelude::*;
use crate::keyed::{
    all_distinct, has_key, keys_distinct, keys_of, lemma_keys_of, lemma_lookup_index, lookup, Keyed,
};
use crate::types::Principal;

verus! {

/// A domain event waiting to be delivered to one destination.
#[derive(Debug, PartialEq, Eq)]
pub struct OutboundEvent<E> {
    pub destination: Principal,
    pub sequence: u64,
    pub payload: E,
}

/// The queue of one destination, oldest event first.
pub struct DestinationQueue<E> {
    destination: Principal,
    next_sequence: u64,
    events: VecDeque<OutboundEvent<E>>,
}

/// The queue of one destination, as it is persisted.
#[derive(Debug, PartialEq, Eq)]
pub struct QueueSnapshot<E> {
    pub destination: Principal,
    pub next_sequence: u64,
    pub events: Vec<OutboundEvent<E>>,
}

impl<E> Keyed for QueueSnapshot<E> {
    open spec fn key(&self) -> Principal {
        self.destination
    }

    fn key_of(&self) -> (k: Principal) {
        self.destination
    }
}

/// One FIFO queue of undelivered events per destination.
pub struct EventOutbox<E> {
    queues: Vec<DestinationQueue<E>>,
}

/// The events of `pending` carry consecutive sequence numbers that end just
/// below `next`, and all name `destination`.
pub open spec fn consecutive<E>(
    pending: Seq<OutboundEvent<E>>,
    destination: Principal,
    next: nat,
) -> bool {
    &&& pending.len() <= next
    &&& forall|k: int|
        0 <= k < pending.len() ==> {
            &&& (#[trigger] pending[k]).destination == destination
            &&& pending[k].sequence == next - pending.len() + k
        }
}

/// How many events at the head of `pending` an acknowledgement up to
/// `up_to_sequence` covers.
pub open spec fn acked_prefix<E>(pending: Seq<OutboundEvent<E>>, up_to_sequence: u64) -> int {
    if pending.len() == 0 || pending[0].sequence > up_to_sequence {
        0
    } else if up_to_sequence - pending[0].sequence + 1 >= pending.len() {
        pending.len() as int
    } else {
        up_to_sequence - pending[0].sequence + 1
    }
}

/// The smaller of two lengths.
pub open spec fn min_len(a: int, b: int) -> int {
    if a <= b {
        a
    } else {
        b
    }
}

impl<E> DestinationQueue<E> {
    spec fn wf(&self) -> bool {
        consecutive(self.events@, self.destination, self.next_sequence as nat)
    }
}

impl<E> EventOutbox<E> {
    /// Whether a queue exists for `destination`.
    pub closed spec fn has(&self, destination: Principal) -> bool {
        exists|i: int| 0 <= i < self.queues@.len() && (#[trigger] self.queues@[i]).destination
            == destination
    }

    spec fn slot(&self, destination: Principal) -> int {
        choose|i: int| 0 <= i < self.queues@.len() && (#[trigger] self.queues@[i]).destination
            == destination
    }

    /// The destinations that have a queue, in the order of their first event.
    pub closed spec fn destinations(&self) -> Seq<Principal> {
        Seq::new(self.queues@.len(), |i: int| self.queues@[i].destination)
    }

    /// The undelivered events of `destination`, oldest first.
    pub closed spec fn pending(&self, destination: Principal) -> Seq<OutboundEvent<E>> {
        if self.has(destination) {
            self.queues@[self.slot(destination)].events@
        } else {
            Seq::empty()
        }
    }

    /// The sequence number that the next event for `destination` will get.
    pub closed spec fn next_sequence(&self, destination: Principal) -> nat {
        if self.has(destination) {
            self.queues@[self.slot(destination)].next_sequence as nat
        } else {
            0
        }
    }

    /// Destinations are distinct and every queue holds consecutive sequence
    /// numbers.
    pub closed spec fn wf(&self) -> bool {
        &&& forall|i: int, j: int|
            0 <= i < j < self.queues@.len() ==> (#[trigger] self.queues@[i]).destination != (
            #[trigger] self.queues@[j]).destination
        &&& forall|i: int| 0 <= i < self.queues@.len() ==> (#[trigger] self.queues@[i]).wf()
    }

    /// Every queue of a well-formed outbox is consecutive, so its sequence
    /// numbers strictly increase from the head.
    pub proof fn lemma_pending_consecutive(&self, destination: Principal)
        requires
            self.wf(),
        ensures
            consecutive(self.pending(destination), destination, self.next_sequence(destination)),
            self.next_sequence(destination) <= u64::MAX,
            forall|i: int, j: int|
                0 <= i < j < self.pending(destination).len() ==> (
                #[trigger] self.pending(destination)[i]).sequence < (
                #[trigger] self.pending(destination)[j]).sequence,
    {
        if self.has(destination) {
            assert(self.queues@[self.slot(destination)].wf());
        }
    }

    /// The destinations listed are exactly those that have a queue, each once.
    pub proof fn lemma_destinations(&self)
        requires
            self.wf(),
        ensures
            self.destinations().no_duplicates(),
            forall|d: Principal| self.destinations().contains(d) <==> self.has(d),
    {
        let ds = self.destinations();
        assert forall|d: Principal| ds.contains(d) <==> self.has(d) by {
            if ds.contains(d) {
                let i = choose|i: int| 0 <= i < ds.len() && ds[i] == d;
                assert(self.queues@[i].destination == d);
            }
            if self.has(d) {
                assert(ds[self.slot(d)] == d);
            }
        }
    }

    proof fn lemma_slot(&self, i: int)
        requires
            self.wf(),
            0 <= i < self.queues@.len(),
        ensures
            self.has(self.queues@[i].destination),
            self.slot(self.queues@[i].destination) == i,
            self.pending(self.queues@[i].destination) == self.queues@[i].events@,
            self.next_sequence(self.queues@[i].destination) == self.queues@[i].next_sequence,
    {
    }

    /// An outbox without any destination.
    pub fn new() -> (outbox: Self)
        ensures
            outbox.wf(),
            outbox.destinations() == Seq::<Principal>::empty(),
            forall|d: Principal| !outbox.has(d),
            forall|d: Principal| #[trigger] outbox.pending(d) == Seq::<OutboundEvent<E>>::empty(),
            forall|d: Principal| #[trigger] outbox.next_sequence(d) == 0,
    {
        let outbox = EventOutbox { queues: Vec::new() };
        assert(outbox.destinations() =~= Seq::<Principal>::empty());
        outbox
    }

    fn find(&self, destination: Principal) -> (found: Option<usize>)
        requires
            self.wf(),
        ensures
            match found {
                Some(i) => i < self.queues@.len() && self.queues@[i as int].destination
                    == destination && self.has(destination) && self.slot(destination) == i,
                None => !self.has(destination),
            },
    {
        let mut i: usize = 0;
        while i < self.queues.len()
            invariant
                i <= self.queues@.len(),
                self.wf(),
                forall|j: int| 0 <= j < i ==> (#[trigger] self.queues@[j]).destination
                    != destination,
            decreases self.queues@.len() - i,
        {
            if self.queues[i].destination == destination {
                proof {
                    self.lemma_slot(i as int);
                }
                return Some(i);
            }
            i = i + 1;
        }
        None
    }

    proof fn lemma_same_destinations(a: &Self, b: &Self)
        requires
            a.wf(),
            b.wf(),
            a.queues@.len() == b.queues@.len(),
            forall|j: int|
                0 <= j < a.queues@.len() ==> (#[trigger] a.queues@[j]).destination
                    == b.queues@[j].destination,
        ensures
            a.destinations() == b.destinations(),
            forall|d: Principal| a.has(d) == b.has(d),
            forall|d: Principal| a.has(d) ==> a.slot(d) == b.slot(d),
    {
        assert(a.destinations() =~= b.destinations());
        assert forall|d: Principal| a.has(d) == b.has(d) && (a.has(d) ==> a.slot(d)
            == b.slot(d)) by {
            if a.has(d) {
                let i = a.slot(d);
                assert(b.queues@[i].destination == d);
                b.lemma_slot(i);
            }
            if b.has(d) {
                let i = b.slot(d);
                assert(a.queues@[i].destination == d);
                a.lemma_slot(i);
            }
        }
    }

    proof fn lemma_appended(a: &Self, b: &Self)
        requires
            a.wf(),
            b.wf(),
            b.queues@.len() == a.queues@.len() + 1,
            forall|j: int| 0 <= j < a.queues@.len() ==> #[trigger] a.queues@[j] == b.queues@[j],
        ensures
            b.destinations()
                == a.destinations().push(b.queues@[a.queues@.len() as int].destination),
            !a.has(b.queues@[a.queues@.len() as int].destination),
            forall|d: Principal|
                d != b.queues@[a.queues@.len() as int].destination ==> a.has(d) == b.has(d)
                    && a.pending(d) == b.pending(d) && a.next_sequence(d) == b.next_sequence(d),
    {
        let n = a.queues@.len() as int;
        let fresh = b.queues@[n].destination;
        assert(b.destinations() =~= a.destinations().push(fresh));
        if a.has(fresh) {
            let i = a.slot(fresh);
            assert(b.queues@[i].destination == fresh);
        }
        assert forall|d: Principal| d != fresh implies a.has(d) == b.has(d) && a.pending(d)
            == b.pending(d) && a.next_sequence(d) == b.next_sequence(d) by {
            if a.has(d) {
                let i = a.slot(d);
                assert(b.queues@[i].destination == d);
                b.lemma_slot(i);
            }
            if b.has(d) {
                let i = b.slot(d);
                assert(i != n);
                assert(a.queues@[i].destination == d);
                a.lemma_slot(i);
            }
        }
    }

    /// Appends `payload` to the queue of `destination` under the next
    /// sequence number of that destination, which is returned. No input is
    /// turned away; the one limit is the range of the sequence counter.
    pub fn push(&mut self, destination: Principal, payload: E) -> (sequence: u64)
        requires
            old(self).wf(),
            old(self).next_sequence(destination) < u64::MAX,
        ensures
            final(self).wf(),
            sequence == old(self).next_sequence(destination),
            final(self).has(destination),
            final(self).pending(destination) == old(self).pending(destination).push(
                (OutboundEvent { destination, sequence, payload }),
            ),
            final(self).next_sequence(destination) == old(self).next_sequence(destination) + 1,
            final(self).destinations() == if old(self).has(destination) {
                old(self).destinations()
            } else {
                old(self).destinations().push(destination)
            },
            forall|d: Principal|
                d != destination ==> final(self).has(d) == old(self).has(d)
                    && final(self).pending(d) == old(self).pending(d)
                    && final(self).next_sequence(d) == old(self).next_sequence(d),
    {
        match self.find(destination) {
            Some(i) => {
                let sequence = self.queues[i].next_sequence;
                self.queues[i].events.push_back(OutboundEvent { destination, sequence, payload });
                self.queues[i].next_sequence = sequence + 1;
                proof {
                    old(self).lemma_slot(i as int);
                    assert(self.queues@[i as int].wf());
                    assert(self.wf());
                    self.lemma_slot(i as int);
                    Self::lemma_same_destinations(old(self), self);
                }
                sequence
            },
            None => {
                let mut events = VecDeque::new();
                events.push_back(OutboundEvent { destination, sequence: 0, payload });
                self.queues.push(DestinationQueue { destination, next_sequence: 1, events });
                proof {
                    let n = old(self).queues@.len() as int;
                    assert(self.queues@[n].wf());
                    assert(self.wf());
                    self.lemma_slot(n);
                    Self::lemma_appended(old(self), self);
                }
                0
            },
        }
    }

    /// Up to `max_items` events from the head of the queue of `destination`,
    /// oldest first. Nothing is removed; a destination without pending
    /// events yields an empty batch.
    pub fn peek_batch(&self, destination: Principal, max_items: usize) -> (batch: Vec<
        &OutboundEvent<E>,
    >)
        requires
            self.wf(),
        ensures
            batch@.len() == min_len(max_items as int, self.pending(destination).len() as int),
            forall|k: int| 0 <= k < batch@.len() ==> *batch@[k] == self.pending(destination)[k],
            self.pending(destination).len() == 0 ==> batch@.len() == 0,
    {
        let mut batch: Vec<&OutboundEvent<E>> = Vec::new();
        match self.find(destination) {
            Some(i) => {
                let queue = &self.queues[i];
                let mut k: usize = 0;
                while k < max_items && k < queue.events.len()
                    invariant
                        k <= max_items,
                        k <= queue.events@.len(),
                        batch@.len() == k,
                        forall|j: int| 0 <= j < k ==> *batch@[j] == queue.events@[j],
                    decreases max_items - k,
                {
                    batch.push(&queue.events[k]);
                    k = k + 1;
                }
                batch
            },
            None => batch,
        }
    }

    /// Removes from the head of the queue of `destination` the events whose
    /// sequence number is at most `up_to_sequence`: they were delivered.
    pub fn ack(&mut self, destination: Principal, up_to_sequence: u64)
        requires
            old(self).wf(),
        ensures
            final(self).wf(),
            final(self).pending(destination) == old(self).pending(destination).skip(
                acked_prefix(old(self).pending(destination), up_to_sequence),
            ),
            final(self).destinations() == old(self).destinations(),
            forall|d: Principal| final(self).has(d) == old(self).has(d),
            forall|d: Principal| final(self).next_sequence(d) == old(self).next_sequence(d),
            forall|d: Principal|
                d != destination ==> final(self).pending(d) == old(self).pending(d),
    {
        match self.find(destination) {
            Some(i) => {
                let ghost before = self.queues@[i as int].events@;
                let ghost next = self.queues@[i as int].next_sequence as nat;
                let ghost mut removed: int = 0;
                loop
                    invariant
                        i < self.queues@.len(),
                        self.queues@.len() == old(self).queues@.len(),
                        forall|j: int|
                            0 <= j < self.queues@.len() && j != i ==> #[trigger] self.queues@[j]
                                == old(self).queues@[j],
                        self.queues@[i as int].destination == destination,
                        self.queues@[i as int].next_sequence == next,
                        consecutive(before, destination, next),
                        0 <= removed <= before.len(),
                        self.queues@[i as int].events@ == before.skip(removed),
                        forall|k: int| 0 <= k < removed ==> (#[trigger] before[k]).sequence
                            <= up_to_sequence,
                    ensures
                        removed == acked_prefix(before, up_to_sequence),
                    decreases before.len() - removed,
                {
                    if self.queues[i].events.len() == 0 {
                        proof {
                            if before.len() > 0 {
                                let first = before[0];
                                let last = before[before.len() - 1];
                                assert(last.sequence == first.sequence + before.len() - 1);
                            }
                        }
                        break;
                    }
                    if self.queues[i].events[0].sequence > up_to_sequence {
                        proof {
                            assert(before[removed] == before.skip(removed)[0]);
                            if removed > 0 {
                                let first = before[0];
                                let kept = before[removed];
                                let gone = before[removed - 1];
                                assert(kept.sequence == first.sequence + removed);
                                assert(gone.sequence == first.sequence + removed - 1);
                            }
                        }
                        break;
                    }
                    assert(before[removed] == before.skip(removed)[0]);
                    let _ = self.queues[i].events.pop_front();
                    proof {
                        assert(before.skip(removed).subrange(
                            1,
                            before.skip(removed).len() as int,
                        ) =~= before.skip(removed + 1));
                    }
                    proof {
                        removed = removed + 1;
                    }
                }
                proof {
                    old(self).lemma_slot(i as int);
                    assert(self.queues@[i as int].wf());
                    assert(self.wf());
                    self.lemma_slot(i as int);
                    Self::lemma_same_destinations(old(self), self);
                }
            },
            None => {
                assert(old(self).pending(destination).skip(0) =~= old(self).pending(destination));
            },
        }
    }

    /// Puts the unacknowledged events of `destination` back in line. They
    /// never left the head of the queue, so there is nothing to move: they
    /// are retried before any later event.
    pub fn requeue(&mut self, destination: Principal)
        ensures
            *final(self) == *old(self),
    {
    }

    /// The number of undelivered events of `destination`.
    pub fn depth(&self, destination: Principal) -> (depth: usize)
        requires
            self.wf(),
        ensures
            depth == self.pending(destination).len(),
    {
        match self.find(destination) {
            Some(i) => self.queues[i].events.len(),
            None => 0,
        }
    }

    /// A destination without a queue has no undelivered events.
    pub proof fn lemma_unknown_destination(&self, destination: Principal)
        requires
            !self.has(destination),
        ensures
            self.pending(destination) == Seq::<OutboundEvent<E>>::empty(),
            self.next_sequence(destination) == 0,
    {
    }

    /// The sequence number that the next event for `destination` will get.
    pub fn next_sequence_of(&self, destination: Principal) -> (next: u64)
        requires
            self.wf(),
        ensures
            next == self.next_sequence(destination),
    {
        match self.find(destination) {
            Some(i) => self.queues[i].next_sequence,
            None => 0,
        }
    }

    /// Whether the sequence counter of `destination` has a number left for
    /// one more event.
    pub fn can_push(&self, destination: Principal) -> (room: bool)
        requires
            self.wf(),
        ensures
            room == (self.next_sequence(destination) < u64::MAX),
    {
        match self.find(destination) {
            Some(i) => self.queues[i].next_sequence < u64::MAX,
            None => true,
        }
    }

    /// The number of destinations that have a queue.
    pub fn destination_count(&self) -> (n: usize)
        ensures
            n == self.destinations().len(),
    {
        self.queues.len()
    }

    /// The destination at position `i`, in the order of their first event.
    pub fn destination_at(&self, i: usize) -> (destination: Principal)
        requires
            i < self.destinations().len(),
        ensures
            destination == self.destinations()[i as int],
    {
        self.queues[i].destination
    }

    /// The sequence number of the oldest undelivered event of `destination`.
    pub fn head_sequence(&self, destination: Principal) -> (head: Option<u64>)
        requires
            self.wf(),
        ensures
            head == if self.pending(destination).len() > 0 {
                Some(self.pending(destination)[0].sequence)
            } else {
                None
            },
    {
        match self.find(destination) {
            Some(i) => {
                if self.queues[i].events.len() > 0 {
                    Some(self.queues[i].events[0].sequence)
                } else {
                    None
                }
            },
            None => None,
        }
    }

    /// Drops the undelivered events of `destination`. The sequence counter
    /// of the destination stays, so that no number is ever given twice.
    pub fn discard(&mut self, destination: Principal)
        requires
            old(self).wf(),
        ensures
            final(self).wf(),
            final(self).pending(destination) == Seq::<OutboundEvent<E>>::empty(),
            final(self).destinations() == old(self).destinations(),
            forall|d: Principal| final(self).has(d) == old(self).has(d),
            forall|d: Principal| final(self).next_sequence(d) == old(self).next_sequence(d),
            forall|d: Principal|
                d != destination ==> final(self).pending(d) == old(self).pending(d),
    {
        match self.find(destination) {
            Some(i) => {
                self.queues[i].events.clear();
                proof {
                    old(self).lemma_slot(i as int);
                    assert(self.queues@[i as int].wf());
                    assert(self.wf());
                    self.lemma_slot(i as int);
                    Self::lemma_same_destinations(old(self), self);
                }
            },
            None => {},
        }
    }

    /// The number of undelivered events of the destinations `ds`, added up.
    pub open spec fn depth_sum(&self, ds: Seq<Principal>) -> nat
        decreases ds.len(),
    {
        if ds.len() == 0 {
            0
        } else {
            self.depth_sum(ds.drop_last()) + self.pending(ds.last()).len()
        }
    }

    /// The number of undelivered events of all destinations.
    pub open spec fn spec_total_pending(&self) -> nat {
        self.depth_sum(self.destinations())
    }

    /// The number of undelivered events of all destinations, or the largest
    /// `u64` where there are more.
    pub fn total_pending(&self) -> (total: u64)
        requires
            self.wf(),
        ensures
            total == if self.spec_total_pending() <= u64::MAX {
                self.spec_total_pending()
            } else {
                u64::MAX as nat
            },
    {
        let mut total: u64 = 0;
        let mut i: usize = 0;
        let ghost ds = self.destinations();
        while i < self.queues.len()
            invariant
                i <= self.queues@.len(),
                self.wf(),
                ds == self.destinations(),
                ds.len() == self.queues@.len(),
                total == if self.depth_sum(ds.take(i as int)) <= u64::MAX {
                    self.depth_sum(ds.take(i as int))
                } else {
                    u64::MAX as nat
                },
            decreases self.queues@.len() - i,
        {
            proof {
                assert(ds.take(i as int + 1).drop_last() =~= ds.take(i as int));
                self.lemma_slot(i as int);
                assert(ds.take(i as int + 1).last() == self.queues@[i as int].destination);
            }
            let depth = self.queues[i].events.len() as u64;
            total = if depth > u64::MAX - total {
                u64::MAX
            } else {
                total + depth
            };
            i = i + 1;
        }
        assert(ds.take(i as int) =~= ds);
        total
    }

    /// Whether `parts` can make an outbox: no destination has two queues,
    /// and every queue holds consecutive sequence numbers.
    pub open spec fn parts_wf(parts: Seq<QueueSnapshot<E>>) -> bool {
        &&& keys_distinct(parts)
        &&& forall|i: int|
            0 <= i < parts.len() ==> consecutive(
                (#[trigger] parts[i]).events@,
                parts[i].destination,
                parts[i].next_sequence as nat,
            )
    }

    /// Whether the outbox is made of exactly these parts.
    pub open spec fn holds(&self, parts: Seq<QueueSnapshot<E>>) -> bool {
        &&& self.destinations() == keys_of(parts)
        &&& forall|i: int|
            0 <= i < parts.len() ==> self.pending((#[trigger] parts[i]).destination)
                == parts[i].events@ && self.next_sequence(parts[i].destination)
                == parts[i].next_sequence
    }

    /// An outbox that is made of `parts` holds for every destination what
    /// the part of that destination holds, and nothing for any other.
    pub proof fn lemma_holds(&self, parts: Seq<QueueSnapshot<E>>, destination: Principal)
        requires
            self.wf(),
            self.holds(parts),
            keys_distinct(parts),
        ensures
            self.pending(destination) == match lookup(parts, destination) {
                Some(q) => q.events@,
                None => Seq::empty(),
            },
            self.next_sequence(destination) == match lookup(parts, destination) {
                Some(q) => q.next_sequence as nat,
                None => 0,
            },
    {
        self.lemma_destinations();
        lemma_keys_of(parts);
        if has_key(parts, destination) {
            lemma_lookup_index(parts, destination);
        } else {
            assert(!self.has(destination));
        }
    }

    /// Takes the outbox apart for persisting.
    pub fn into_parts(self) -> (parts: Vec<QueueSnapshot<E>>)
        requires
            self.wf(),
        ensures
            self.holds(parts@),
            Self::parts_wf(parts@),
    {
        let mut queues = self.queues;
        let mut parts: Vec<QueueSnapshot<E>> = Vec::new();
        let ghost all = self.queues@;
        while queues.len() > 0
            invariant
                parts@.len() + queues@.len() == all.len(),
                all == self.queues@,
                self.wf(),
                forall|i: int| 0 <= i < queues@.len() ==> queues@[i] == all[parts@.len() + i],
                forall|i: int|
                    0 <= i < parts@.len() ==> (#[trigger] parts@[i]).destination
                        == all[i].destination && parts@[i].next_sequence == all[i].next_sequence
                        && parts@[i].events@ == all[i].events@,
            decreases queues@.len(),
        {
            let mut queue = queues.remove(0);
            let mut events: Vec<OutboundEvent<E>> = Vec::new();
            let ghost whole = queue.events@;
            let ghost taken = queue;
            loop
                invariant
                    events@ + queue.events@ == whole,
                    queue.destination == taken.destination,
                    queue.next_sequence == taken.next_sequence,
                ensures
                    events@ == whole,
                    queue.destination == taken.destination,
                    queue.next_sequence == taken.next_sequence,
                decreases queue.events@.len(),
            {
                match queue.events.pop_front() {
                    Some(e) => {
                        proof {
                            assert(events@.push(e) + queue.events@ =~= whole);
                        }
                        events.push(e);
                    },
                    None => {
                        proof {
                            assert(events@ + queue.events@ =~= events@);
                        }
                        break ;
                    },
                }
            }
            parts.push(
                QueueSnapshot {
                    destination: queue.destination,
                    next_sequence: queue.next_sequence,
                    events,
                },
            );
        }
        proof {
            assert(self.destinations() =~= keys_of(parts@));
            assert forall|i: int| 0 <= i < parts@.len() implies self.pending(
                (#[trigger] parts@[i]).destination,
            ) == parts@[i].events@ && self.next_sequence(parts@[i].destination)
                == parts@[i].next_sequence by {
                self.lemma_slot(i);
            }
            assert forall|i: int, j: int| 0 <= i < j < parts@.len() implies (
            #[trigger] parts@[i]).key() != (#[trigger] parts@[j]).key() by {
                assert(all[i].destination != all[j].destination);
            }
            assert forall|i: int| 0 <= i < parts@.len() implies consecutive(
                (#[trigger] parts@[i]).events@,
                parts@[i].destination,
                parts@[i].next_sequence as nat,
            ) by {
                assert(all[i].wf());
            }
        }
        parts
    }

    /// The outbox made of `parts`, or `None` where they cannot make one.
    pub fn from_parts(parts: Vec<QueueSnapshot<E>>) -> (outbox: Option<Self>)
        ensures
            outbox.is_some() == Self::parts_wf(parts@),
            outbox.is_some() ==> outbox.unwrap().wf() && outbox.unwrap().holds(parts@),
    {
        if !all_distinct(&parts) {
            return None;
        }
        let mut i: usize = 0;
        while i < parts.len()
            invariant
                i <= parts@.len(),
                forall|j: int|
                    0 <= j < i ==> consecutive(
                        (#[trigger] parts@[j]).events@,
                        parts@[j].destination,
                        parts@[j].next_sequence as nat,
                    ),
            decreases parts@.len() - i,
        {
            if !Self::is_consecutive(&parts[i]) {
                return None;
            }
            i = i + 1;
        }
        let mut rest = parts;
        let mut queues: Vec<DestinationQueue<E>> = Vec::new();
        while rest.len() > 0
            invariant
                queues@.len() + rest@.len() == parts@.len(),
                Self::parts_wf(parts@),
                forall|i: int| 0 <= i < rest@.len() ==> rest@[i] == parts@[queues@.len() + i],
                forall|i: int|
                    0 <= i < queues@.len() ==> (#[trigger] queues@[i]).destination
                        == parts@[i].destination && queues@[i].next_sequence
                        == parts@[i].next_sequence && queues@[i].events@ == parts@[i].events@,
            decreases rest@.len(),
        {
            let part = rest.remove(0);
            let mut source = part.events;
            let mut events: VecDeque<OutboundEvent<E>> = VecDeque::new();
            let ghost whole = source@;
            loop
                invariant
                    source@ + events@ == whole,
                ensures
                    events@ == whole,
                decreases source@.len(),
            {
                match source.pop() {
                    Some(e) => {
                        proof {
                            assert(source@ + (seq![e] + events@) =~= whole);
                        }
                        events.push_front(e);
                    },
                    None => {
                        proof {
                            assert(source@ + events@ =~= events@);
                        }
                        break ;
                    },
                }
            }
            queues.push(
                DestinationQueue {
                    destination: part.destination,
                    next_sequence: part.next_sequence,
                    events,
                },
            );
        }
        let outbox = EventOutbox { queues };
        proof {
            assert forall|i: int, j: int| 0 <= i < j < outbox.queues@.len() implies (
            #[trigger] outbox.queues@[i]).destination != (
            #[trigger] outbox.queues@[j]).destination by {
                assert(parts@[i].key() != parts@[j].key());
            }
            assert forall|i: int| 0 <= i < outbox.queues@.len() implies (
            #[trigger] outbox.queues@[i]).wf() by {
                assert(consecutive(
                    parts@[i].events@,
                    parts@[i].destination,
                    parts@[i].next_sequence as nat,
                ));
            }
            assert(outbox.destinations() =~= keys_of(parts@));
            assert forall|i: int| 0 <= i < parts@.len() implies outbox.pending(
                (#[trigger] parts@[i]).destination,
            ) == parts@[i].events@ && outbox.next_sequence(parts@[i].destination)
                == parts@[i].next_sequence by {
                outbox.lemma_slot(i);
            }
        }
        Some(outbox)
    }

    fn is_consecutive(part: &QueueSnapshot<E>) -> (ok: bool)
        ensures
            ok == consecutive(part.events@, part.destination, part.next_sequence as nat),
    {
        let n = part.events.len();
        if n as u64 > part.next_sequence {
            return false;
        }
        let first = part.next_sequence - n as u64;
        let mut k: usize = 0;
        while k < n
            invariant
                k <= n,
                n == part.events@.len(),
                n <= part.next_sequence,
                first == part.next_sequence - n,
                forall|j: int|
                    0 <= j < k ==> (#[trigger] part.events@[j]).destination == part.destination
                        && part.events@[j].sequence == first + j,
            decreases n - k,
        {
            let e = &part.events[k];
            if !(e.destination == part.destination) || e.sequence != first + k as u64 {
                proof {
                    let bad = part.events@[k as int];
                    assert(!(bad.destination == part.destination && bad.sequence
                        == part.next_sequence - part.events@.len() + k));
                }
                return false;
            }
            k = k + 1;
        }
        true
    }
}

} // verus!
