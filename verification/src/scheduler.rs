//! The batch scheduler: decides when the pending events of a destination are
//! ready to be delivered, and keeps at most one delivery per destination in
//! flight.

use vstd::prelude::*;
use crate::keyed::{
    all_distinct, find_key, has_key, index_of_key, keys_distinct, lemma_found_at,
    lemma_lookup_index, lemma_push, lemma_remove, lemma_update, listed_before, lookup, Keyed,
};
use crate::outbox::EventOutbox;
use crate::types::{Outcome, Principal, TimestampMillis};

verus! {

/// The largest number of events that one batch carries unless configured
/// otherwise.
pub const DEFAULT_MAX_BATCH_SIZE: usize = 1000;

/// A contiguous slice from the head of a destination's queue, selected for
/// delivery. It names its events by their sequence numbers, from
/// `first_sequence` to `last_sequence`.
#[derive(Clone, Copy, Debug, PartialEq, Eq)]
pub struct Batch {
    pub destination: Principal,
    pub first_sequence: u64,
    pub last_sequence: u64,
    pub created_at: TimestampMillis,
    pub in_flight: bool,
    pub attempts: u32,
}

impl Keyed for Batch {
    open spec fn key(&self) -> Principal {
        self.destination
    }

    fn key_of(&self) -> (k: Principal) {
        self.destination
    }
}

impl Batch {
    /// The number of events in the batch.
    pub open spec fn size(&self) -> int {
        self.last_sequence - self.first_sequence + 1
    }
}

/// One more failed attempt, counted up to the range of the counter.
pub open spec fn one_more(attempts: u32) -> u32 {
    if attempts < u32::MAX {
        (attempts + 1) as u32
    } else {
        attempts
    }
}

/// The number of events in a batch formed from a queue of `depth` events
/// under the limit `limit`.
pub open spec fn batch_size(depth: usize, limit: usize) -> int {
    if depth <= limit {
        depth as int
    } else {
        limit as int
    }
}

/// The batch formed from the head of a queue whose oldest event has number
/// `head` and which holds `depth` events.
pub open spec fn fresh_batch(
    destination: Principal,
    head: u64,
    depth: usize,
    limit: usize,
    now: TimestampMillis,
) -> Batch {
    Batch {
        destination,
        first_sequence: head,
        last_sequence: (head + batch_size(depth, limit) - 1) as u64,
        created_at: now,
        in_flight: true,
        attempts: 0,
    }
}

/// Whether the flush timer, which last fired at `last`, is due at `now`.
pub open spec fn flush_due(last: TimestampMillis, interval: u64, now: TimestampMillis) -> bool {
    now >= last && now - last >= interval
}

/// The parts of a scheduler, as they are persisted.
#[derive(Debug, PartialEq, Eq)]
pub struct SchedulerSnapshot {
    pub max_batch_size: usize,
    pub flush_interval: u64,
    pub last_flush: TimestampMillis,
    pub ready: Vec<Principal>,
    pub batches: Vec<Batch>,
}

/// Decides which destinations are ready for a delivery.
pub struct BatchScheduler {
    max_batch_size: usize,
    flush_interval: u64,
    last_flush: TimestampMillis,
    ready: Vec<Principal>,
    batches: Vec<Batch>,
}

impl BatchScheduler {
    /// The largest number of events in one batch.
    pub closed spec fn spec_max_batch_size(&self) -> usize {
        self.max_batch_size
    }

    /// The time between two flush ticks, in milliseconds.
    pub closed spec fn spec_flush_interval(&self) -> u64 {
        self.flush_interval
    }

    /// When the flush timer last fired.
    pub closed spec fn spec_last_flush(&self) -> TimestampMillis {
        self.last_flush
    }

    /// The destinations flagged ready, in the order in which they were
    /// flagged.
    pub closed spec fn ready(&self) -> Seq<Principal> {
        self.ready@
    }

    /// The batches that were handed out and are not yet acknowledged.
    pub closed spec fn batches(&self) -> Seq<Batch> {
        self.batches@
    }

    /// Whether `destination` is flagged ready.
    pub open spec fn spec_is_ready(&self, destination: Principal) -> bool {
        has_key(self.ready(), destination)
    }

    /// The batch of `destination` that is not yet acknowledged, if any.
    pub open spec fn batch_of(&self, destination: Principal) -> Option<Batch> {
        lookup(self.batches(), destination)
    }

    /// Whether a delivery to `destination` is in flight.
    pub open spec fn spec_is_in_flight(&self, destination: Principal) -> bool {
        match self.batch_of(destination) {
            Some(b) => b.in_flight,
            None => false,
        }
    }

    /// Whether two schedulers have the same configuration and timer.
    pub open spec fn same_settings(&self, other: &Self) -> bool {
        &&& self.spec_max_batch_size() == other.spec_max_batch_size()
        &&& self.spec_flush_interval() == other.spec_flush_interval()
        &&& self.spec_last_flush() == other.spec_last_flush()
    }

    /// A batch holds at least one event; a destination is flagged ready at
    /// most once and has at most one batch; and no destination is flagged
    /// ready while a delivery to it is in flight.
    pub open spec fn wf(&self) -> bool {
        &&& self.spec_max_batch_size() >= 1
        &&& keys_distinct(self.ready())
        &&& keys_distinct(self.batches())
        &&& forall|i: int|
            0 <= i < self.batches().len() ==> (#[trigger] self.batches()[i]).first_sequence
                <= self.batches()[i].last_sequence
        &&& forall|d: Principal| #[trigger] self.spec_is_ready(d) ==> !self.spec_is_in_flight(d)
    }

    /// A scheduler with nothing ready and nothing in flight, or `None` where
    /// `max_batch_size` is zero.
    pub fn new(max_batch_size: usize, flush_interval: u64, now: TimestampMillis) -> (scheduler:
        Option<Self>)
        ensures
            scheduler.is_some() == (max_batch_size >= 1),
            match scheduler {
                Some(s) => {
                    &&& s.wf()
                    &&& s.spec_max_batch_size() == max_batch_size
                    &&& s.spec_flush_interval() == flush_interval
                    &&& s.spec_last_flush() == now
                    &&& s.ready() == Seq::<Principal>::empty()
                    &&& s.batches() == Seq::<Batch>::empty()
                },
                None => true,
            },
    {
        if max_batch_size == 0 {
            None
        } else {
            Some(
                BatchScheduler {
                    max_batch_size,
                    flush_interval,
                    last_flush: now,
                    ready: Vec::new(),
                    batches: Vec::new(),
                },
            )
        }
    }

    /// The largest number of events in one batch.
    #[verifier::when_used_as_spec(spec_max_batch_size)]
    pub fn max_batch_size(&self) -> (n: usize)
        ensures
            n == self.spec_max_batch_size(),
    {
        self.max_batch_size
    }

    /// The time between two flush ticks, in milliseconds.
    #[verifier::when_used_as_spec(spec_flush_interval)]
    pub fn flush_interval(&self) -> (n: u64)
        ensures
            n == self.spec_flush_interval(),
    {
        self.flush_interval
    }

    /// When the flush timer last fired.
    #[verifier::when_used_as_spec(spec_last_flush)]
    pub fn last_flush(&self) -> (t: TimestampMillis)
        ensures
            t == self.spec_last_flush(),
    {
        self.last_flush
    }

    /// Whether `destination` is flagged ready.
    #[verifier::when_used_as_spec(spec_is_ready)]
    pub fn is_ready(&self, destination: Principal) -> (ready: bool)
        requires
            self.wf(),
        ensures
            ready == self.spec_is_ready(destination),
    {
        find_key(&self.ready, destination).is_some()
    }

    /// Whether a delivery to `destination` is in flight.
    #[verifier::when_used_as_spec(spec_is_in_flight)]
    pub fn is_in_flight(&self, destination: Principal) -> (in_flight: bool)
        requires
            self.wf(),
        ensures
            in_flight == self.spec_is_in_flight(destination),
    {
        match find_key(&self.batches, destination) {
            Some(i) => self.batches[i].in_flight,
            None => false,
        }
    }

    /// The batch of `destination` that is not yet acknowledged, if any.
    pub fn get_batch(&self, destination: Principal) -> (batch: Option<Batch>)
        requires
            self.wf(),
        ensures
            batch == self.batch_of(destination),
    {
        match find_key(&self.batches, destination) {
            Some(i) => Some(self.batches[i]),
            None => None,
        }
    }

    /// The number of batches that are not yet acknowledged.
    pub fn batch_count(&self) -> (n: usize)
        ensures
            n == self.batches().len(),
    {
        self.batches.len()
    }

    /// The batch at position `i` among those not yet acknowledged.
    pub fn batch_at(&self, i: usize) -> (batch: Batch)
        requires
            i < self.batches().len(),
        ensures
            batch == self.batches()[i as int],
    {
        self.batches[i]
    }

    /// The number of destinations flagged ready.
    pub fn ready_count(&self) -> (n: usize)
        ensures
            n == self.ready().len(),
    {
        self.ready.len()
    }

    /// The destination at position `i` among those flagged ready.
    pub fn ready_at(&self, i: usize) -> (destination: Principal)
        requires
            i < self.ready().len(),
        ensures
            destination == self.ready()[i as int],
    {
        self.ready[i]
    }

    /// Flags `destination` ready, unless it is flagged already or a delivery
    /// to it is in flight.
    pub fn flag(&mut self, destination: Principal)
        requires
            old(self).wf(),
        ensures
            final(self).wf(),
            final(self).same_settings(old(self)),
            final(self).batches() == old(self).batches(),
            final(self).ready() == if old(self).spec_is_ready(destination)
                || old(self).spec_is_in_flight(destination) {
                old(self).ready()
            } else {
                old(self).ready().push(destination)
            },
    {
        if self.is_ready(destination) || self.is_in_flight(destination) {
            return ;
        }
        proof {
            lemma_push(self.ready@, destination);
        }
        self.ready.push(destination);
        proof {
            assert forall|d: Principal| #[trigger]
                self.spec_is_ready(d) implies !self.spec_is_in_flight(d) by {
                if d != destination {
                    assert(old(self).spec_is_ready(d));
                }
            }
        }
    }

    /// Takes note that the queue of `destination` has grown to `depth`
    /// events: a queue that has reached the maximum batch size is ready
    /// without waiting for a tick.
    pub fn note_push(&mut self, destination: Principal, depth: usize)
        requires
            old(self).wf(),
        ensures
            final(self).wf(),
            final(self).same_settings(old(self)),
            final(self).batches() == old(self).batches(),
            final(self).ready() == if depth >= old(self).spec_max_batch_size()
                && !old(self).spec_is_ready(destination)
                && !old(self).spec_is_in_flight(destination) {
                old(self).ready().push(destination)
            } else {
                old(self).ready()
            },
    {
        if depth >= self.max_batch_size {
            self.flag(destination);
        }
    }

    /// What a tick does to the scheduler `before`: every destination with
    /// pending events and no delivery in flight is flagged ready, behind
    /// those that were flagged already.
    pub open spec fn flagged_by_tick<E>(&self, before: &Self, outbox: &EventOutbox<E>) -> bool {
        &&& self.batches() == before.batches()
        &&& forall|d: Principal|
            #[trigger] self.spec_is_ready(d) <==> before.spec_is_ready(d) || (outbox.pending(
                d,
            ).len() > 0 && !before.spec_is_in_flight(d))
        &&& self.ready().len() >= before.ready().len()
        &&& self.ready().take(before.ready().len() as int) == before.ready()
    }

    /// The periodic tick: looks at every destination of the outbox, not
    /// just one, and flags those that have pending events and no delivery
    /// in flight.
    pub fn tick<E>(&mut self, outbox: &EventOutbox<E>)
        requires
            old(self).wf(),
            outbox.wf(),
        ensures
            final(self).wf(),
            final(self).same_settings(old(self)),
            final(self).flagged_by_tick(old(self), outbox),
    {
        let n = outbox.destination_count();
        let mut i: usize = 0;
        proof {
            assert(self.ready().take(self.ready().len() as int) =~= self.ready());
        }
        while i < n
            invariant
                i <= n,
                n == outbox.destinations().len(),
                outbox.wf(),
                self.wf(),
                self.same_settings(old(self)),
                self.batches() == old(self).batches(),
                self.ready().len() >= old(self).ready().len(),
                self.ready().take(old(self).ready().len() as int) == old(self).ready(),
                forall|d: Principal|
                    #[trigger] self.spec_is_ready(d) <==> old(self).spec_is_ready(d) || (
                    outbox.pending(d).len() > 0 && !old(self).spec_is_in_flight(d)
                        && listed_before(outbox.destinations(), i as int, d)),
            decreases n - i,
        {
            let destination = outbox.destination_at(i);
            let ghost before = *self;
            let ghost ds = outbox.destinations();
            if outbox.depth(destination) > 0 {
                self.flag(destination);
                proof {
                    if !before.spec_is_ready(destination) && !before.spec_is_in_flight(
                        destination,
                    ) {
                        lemma_push(before.ready(), destination);
                        assert(self.ready().take(old(self).ready().len() as int)
                            =~= before.ready().take(old(self).ready().len() as int));
                    }
                }
            }
            proof {
                assert forall|d: Principal|
                    listed_before(ds, i as int + 1, d) <==> listed_before(ds, i as int, d) || d
                        == destination by {
                    if listed_before(ds, i as int + 1, d) {
                        let j = choose|j: int| 0 <= j < i + 1 && j < ds.len() && #[trigger] ds[j]
                            == d;
                        if j < i {
                            assert(listed_before(ds, i as int, d));
                        }
                    }
                    if d == destination {
                        assert(ds[i as int] == d);
                    }
                }
                assert forall|d: Principal|
                    #[trigger] self.spec_is_ready(d) <==> old(self).spec_is_ready(d) || (
                    outbox.pending(d).len() > 0 && !old(self).spec_is_in_flight(d)
                        && listed_before(ds, i as int + 1, d)) by {
                    assert(before.spec_is_ready(d) <==> old(self).spec_is_ready(d) || (
                    outbox.pending(d).len() > 0 && !old(self).spec_is_in_flight(d)
                        && listed_before(ds, i as int, d)));
                }
            }
            i = i + 1;
        }
        proof {
            let ds = outbox.destinations();
            outbox.lemma_destinations();
            assert forall|d: Principal|
                #[trigger] self.spec_is_ready(d) <==> old(self).spec_is_ready(d) || (
                outbox.pending(d).len() > 0 && !old(self).spec_is_in_flight(d)) by {
                if outbox.pending(d).len() > 0 {
                    if !outbox.has(d) {
                        outbox.lemma_unknown_destination(d);
                    }
                    assert(ds.contains(d));
                    let j = choose|j: int| 0 <= j < ds.len() && ds[j] == d;
                    assert(ds[j] == d);
                    assert(listed_before(ds, n as int, d));
                }
            }
        }
    }

    /// Advances the flush timer to `now`. Where the configured interval has
    /// passed since the timer last fired, it fires: the tick runs and the
    /// timer restarts from `now`.
    pub fn poll<E>(&mut self, outbox: &EventOutbox<E>, now: TimestampMillis) -> (fired: bool)
        requires
            old(self).wf(),
            outbox.wf(),
        ensures
            final(self).wf(),
            fired == flush_due(old(self).spec_last_flush(), old(self).spec_flush_interval(), now),
            final(self).spec_max_batch_size() == old(self).spec_max_batch_size(),
            final(self).spec_flush_interval() == old(self).spec_flush_interval(),
            fired ==> final(self).spec_last_flush() == now && final(self).flagged_by_tick(
                old(self),
                outbox,
            ),
            !fired ==> final(self).spec_last_flush() == old(self).spec_last_flush()
                && final(self).ready() == old(self).ready() && final(self).batches()
                == old(self).batches(),
    {
        if now >= self.last_flush && now - self.last_flush >= self.flush_interval {
            self.tick(outbox);
            let ghost ticked = *self;
            self.last_flush = now;
            proof {
                assert(self.ready() == ticked.ready());
                assert(self.batches() == ticked.batches());
                assert forall|d: Principal| #[trigger]
                    self.spec_is_ready(d) == ticked.spec_is_ready(d) by {}
                assert forall|d: Principal| #[trigger]
                    self.spec_is_in_flight(d) == ticked.spec_is_in_flight(d) by {}
            }
            true
        } else {
            false
        }
    }

    /// Whether a delivery to `destination` can start: the destination is
    /// flagged ready, and it has a batch that failed before or a queue of
    /// `depth` events from number `head` on, of which a batch can be formed.
    pub open spec fn can_start(&self, destination: Principal, head: u64, depth: usize) -> bool {
        &&& self.spec_is_ready(destination)
        &&& self.batch_of(destination).is_some() || (depth >= 1 && head + batch_size(
            depth,
            self.spec_max_batch_size(),
        ) - 1 <= u64::MAX)
    }

    /// Hands out the batch of `destination` and marks it in flight, where a
    /// delivery can start; otherwise nothing changes and `None` is
    /// returned. A batch that failed before is handed out again as it was;
    /// otherwise the batch is formed from the head of the queue, whose
    /// oldest event has number `head` and which holds `depth` events.
    pub fn start(
        &mut self,
        destination: Principal,
        head: u64,
        depth: usize,
        now: TimestampMillis,
    ) -> (batch: Option<Batch>)
        requires
            old(self).wf(),
        ensures
            final(self).wf(),
            final(self).same_settings(old(self)),
            batch.is_some() == old(self).can_start(destination, head, depth),
            match batch {
                Some(b) => {
                    &&& b == match old(self).batch_of(destination) {
                        Some(failed) => Batch { in_flight: true, ..failed },
                        None => fresh_batch(
                            destination,
                            head,
                            depth,
                            old(self).spec_max_batch_size(),
                            now,
                        ),
                    }
                    &&& final(self).ready() == old(self).ready().remove(
                        index_of_key(old(self).ready(), destination),
                    )
                    &&& final(self).batches() == match old(self).batch_of(destination) {
                        Some(failed) => old(self).batches().update(
                            index_of_key(old(self).batches(), destination),
                            b,
                        ),
                        None => old(self).batches().push(b),
                    }
                    &&& final(self).batch_of(destination) == Some(b)
                    &&& forall|d: Principal|
                        d != destination ==> final(self).batch_of(d) == old(self).batch_of(d)
                    &&& forall|d: Principal|
                        #[trigger] final(self).spec_is_ready(d) <==> old(self).spec_is_ready(d)
                            && d != destination
                },
                None => final(self).ready() == old(self).ready() && final(self).batches()
                    == old(self).batches(),
            },
    {
        let at = match find_key(&self.ready, destination) {
            Some(at) => at,
            None => {
                return None;
            },
        };
        let batch = match find_key(&self.batches, destination) {
            Some(i) => {
                let b = self.batches[i];
                let batch = Batch {
                    destination: b.destination,
                    first_sequence: b.first_sequence,
                    last_sequence: b.last_sequence,
                    created_at: b.created_at,
                    in_flight: true,
                    attempts: b.attempts,
                };
                proof {
                    lemma_update(self.batches@, i as int, batch);
                }
                self.batches.set(i, batch);
                batch
            },
            None => {
                if depth == 0 {
                    return None;
                }
                let count = if depth <= self.max_batch_size {
                    depth
                } else {
                    self.max_batch_size
                };
                if count as u64 - 1 > u64::MAX - head {
                    return None;
                }
                let batch = Batch {
                    destination,
                    first_sequence: head,
                    last_sequence: head + (count as u64 - 1),
                    created_at: now,
                    in_flight: true,
                    attempts: 0,
                };
                proof {
                    lemma_push(self.batches@, batch);
                }
                self.batches.push(batch);
                batch
            },
        };
        proof {
            lemma_remove(self.ready@, at as int);
        }
        let _ = self.ready.remove(at);
        proof {
            assert forall|d: Principal| #[trigger]
                self.spec_is_ready(d) implies !self.spec_is_in_flight(d) by {
                assert(old(self).spec_is_ready(d));
            }
        }
        Some(batch)
    }

    /// Takes note that the delivery to `destination` has ended. A delivered
    /// batch is forgotten, and the destination is looked at again at once:
    /// it is ready if the `depth_after` events that its queue still holds
    /// reach the maximum batch size. A batch that was not delivered stays,
    /// no longer in flight and with one more failed attempt, to be handed
    /// out again after the next tick. Without a delivery in flight nothing
    /// changes and `None` is returned.
    pub fn finish(&mut self, destination: Principal, delivered: bool,
        depth_after: usize) -> (outcome:
        Option<Outcome>)
        requires
            old(self).wf(),
        ensures
            final(self).wf(),
            final(self).same_settings(old(self)),
            forall|d: Principal| d != destination ==> final(self).batch_of(d)
                == old(self).batch_of(d),
            !old(self).spec_is_in_flight(destination) ==> {
                &&& outcome.is_none()
                &&& final(self).ready() == old(self).ready()
                &&& final(self).batches() == old(self).batches()
            },
            old(self).spec_is_in_flight(destination) && delivered ==> {
                &&& outcome == Some(Outcome::Success)
                &&& final(self).batches() == old(self).batches().remove(
                    index_of_key(old(self).batches(), destination),
                )
                &&& final(self).batch_of(destination).is_none()
                &&& final(self).ready() == if depth_after >= old(self).spec_max_batch_size() {
                    old(self).ready().push(destination)
                } else {
                    old(self).ready()
                }
            },
            old(self).spec_is_in_flight(destination) && !delivered ==> {
                &&& outcome == Some(
                    Outcome::Retry {
                        attempts: one_more(old(self).batch_of(destination).unwrap().attempts),
                    },
                )
                &&& final(self).batch_of(destination) == Some(
                    Batch {
                        in_flight: false,
                        attempts: one_more(old(self).batch_of(destination).unwrap().attempts),
                        ..old(self).batch_of(destination).unwrap()
                    },
                )
                &&& final(self).batches() == old(self).batches().update(
                    index_of_key(old(self).batches(), destination),
                    final(self).batch_of(destination).unwrap(),
                )
                &&& final(self).ready() == old(self).ready()
            },
    {
        match find_key(&self.batches, destination) {
            Some(i) => {
                let b = self.batches[i];
                if !b.in_flight {
                    return None;
                }
                if delivered {
                    proof {
                        lemma_remove(self.batches@, i as int);
                    }
                    let _ = self.batches.remove(i);
                    proof {
                        let after = self.batches@;
                        let before = old(self).batches@;
                        assert forall|a: int| 0 <= a < after.len() implies (
                        #[trigger] after[a]).first_sequence <= after[a].last_sequence by {
                            let sa = if a < i { a } else { a + 1 };
                            assert(after[a] == before[sa]);
                        }
                        assert forall|d: Principal| #[trigger]
                            self.spec_is_ready(d) implies !self.spec_is_in_flight(d) by {
                            assert(old(self).spec_is_ready(d));
                        }
                    }
                    if depth_after >= self.max_batch_size {
                        let ghost mid = *self;
                        proof {
                            if self.spec_is_ready(destination) {
                                assert(old(self).spec_is_ready(destination));
                            }
                        }
                        self.flag(destination);
                    }
                    Some(Outcome::Success)
                } else {
                    let attempts = if b.attempts < u32::MAX {
                        b.attempts + 1
                    } else {
                        b.attempts
                    };
                    let kept = Batch {
                        destination: b.destination,
                        first_sequence: b.first_sequence,
                        last_sequence: b.last_sequence,
                        created_at: b.created_at,
                        in_flight: false,
                        attempts,
                    };
                    proof {
                        lemma_update(self.batches@, i as int, kept);
                    }
                    self.batches.set(i, kept);
                    proof {
                        assert forall|d: Principal| #[trigger]
                            self.spec_is_ready(d) implies !self.spec_is_in_flight(d) by {
                            assert(old(self).spec_is_ready(d));
                        }
                    }
                    Some(Outcome::Retry { attempts })
                }
            },
            None => None,
        }
    }

    /// After a restart: no delivery is in flight any more. Every batch stays
    /// as it was formed and is handed out again after the next tick.
    pub fn clear_in_flight(&mut self)
        requires
            old(self).wf(),
        ensures
            final(self).wf(),
            final(self).same_settings(old(self)),
            final(self).ready() == old(self).ready(),
            final(self).batches().len() == old(self).batches().len(),
            forall|i: int|
                0 <= i < old(self).batches().len() ==> #[trigger] final(self).batches()[i]
                    == (Batch {
                    in_flight: false,
                    ..old(self).batches()[i]
                }),
            forall|d: Principal| !final(self).spec_is_in_flight(d),
    {
        let mut i: usize = 0;
        while i < self.batches.len()
            invariant
                i <= self.batches@.len(),
                self.batches@.len() == old(self).batches@.len(),
                self.same_settings(old(self)),
                self.ready@ == old(self).ready@,
                old(self).wf(),
                forall|j: int|
                    0 <= j < i ==> #[trigger] self.batches@[j] == (Batch {
                        in_flight: false,
                        ..old(self).batches@[j]
                    }),
                forall|j: int| i <= j < self.batches@.len() ==> #[trigger] self.batches@[j]
                    == old(self).batches@[j],
            decreases self.batches@.len() - i,
        {
            let b = self.batches[i];
            self.batches.set(
                i,
                Batch {
                    destination: b.destination,
                    first_sequence: b.first_sequence,
                    last_sequence: b.last_sequence,
                    created_at: b.created_at,
                    in_flight: false,
                    attempts: b.attempts,
                },
            );
            i = i + 1;
        }
        proof {
            let after = self.batches@;
            let before = old(self).batches@;
            assert forall|a: int, b: int| 0 <= a < b < after.len()
                implies (#[trigger] after[a]).key()
                != (#[trigger] after[b]).key() by {
                assert(before[a].key() != before[b].key());
            }
            assert forall|d: Principal| !self.spec_is_in_flight(d) by {
                if has_key(after, d) {
                    lemma_lookup_index(after, d);
                }
            }
        }
    }

    /// Forgets `destination`: it is no longer flagged ready and has no batch.
    pub fn forget(&mut self, destination: Principal)
        requires
            old(self).wf(),
        ensures
            final(self).wf(),
            final(self).same_settings(old(self)),
            !final(self).spec_is_ready(destination),
            final(self).batch_of(destination).is_none(),
            forall|d: Principal|
                d != destination ==> final(self).spec_is_ready(d) == old(self).spec_is_ready(d),
            forall|d: Principal| d != destination ==> final(self).batch_of(d)
                == old(self).batch_of(d),
            final(self).ready() == if old(self).spec_is_ready(destination) {
                old(self).ready().remove(index_of_key(old(self).ready(), destination))
            } else {
                old(self).ready()
            },
            final(self).batches() == if old(self).batch_of(destination).is_some() {
                old(self).batches().remove(index_of_key(old(self).batches(), destination))
            } else {
                old(self).batches()
            },
    {
        match find_key(&self.ready, destination) {
            Some(i) => {
                proof {
                    lemma_remove(self.ready@, i as int);
                }
                let _ = self.ready.remove(i);
            },
            None => {},
        }
        match find_key(&self.batches, destination) {
            Some(i) => {
                proof {
                    lemma_remove(self.batches@, i as int);
                }
                let _ = self.batches.remove(i);
                proof {
                    let after = self.batches@;
                    let before = old(self).batches@;
                    assert forall|a: int| 0 <= a < after.len() implies (
                    #[trigger] after[a]).first_sequence <= after[a].last_sequence by {
                        let sa = if a < i { a } else { a + 1 };
                        assert(after[a] == before[sa]);
                    }
                }
            },
            None => {},
        }
        proof {
            assert forall|d: Principal| #[trigger]
                self.spec_is_ready(d) implies !self.spec_is_in_flight(d) by {
                assert(old(self).spec_is_ready(d));
            }
        }
    }

    /// Whether `parts` can make a scheduler: what holds of a well-formed
    /// scheduler holds of them.
    pub open spec fn parts_wf(parts: SchedulerSnapshot) -> bool {
        &&& parts.max_batch_size >= 1
        &&& keys_distinct(parts.ready@)
        &&& keys_distinct(parts.batches@)
        &&& forall|i: int|
            0 <= i < parts.batches@.len() ==> (#[trigger] parts.batches@[i]).first_sequence
                <= parts.batches@[i].last_sequence
        &&& forall|i: int|
            0 <= i < parts.ready@.len() ==> match lookup(
                parts.batches@,
                #[trigger] parts.ready@[i],
            ) {
                Some(b) => !b.in_flight,
                None => true,
            }
    }

    /// Whether the scheduler is made of exactly these parts.
    pub open spec fn holds(&self, parts: SchedulerSnapshot) -> bool {
        &&& self.spec_max_batch_size() == parts.max_batch_size
        &&& self.spec_flush_interval() == parts.flush_interval
        &&& self.spec_last_flush() == parts.last_flush
        &&& self.ready() == parts.ready@
        &&& self.batches() == parts.batches@
    }

    /// The parts of the scheduler.
    pub fn to_parts(&self) -> (parts: SchedulerSnapshot)
        requires
            self.wf(),
        ensures
            self.holds(parts),
            Self::parts_wf(parts),
    {
        let mut ready: Vec<Principal> = Vec::new();
        let mut i: usize = 0;
        while i < self.ready.len()
            invariant
                i <= self.ready@.len(),
                ready@ == self.ready@.take(i as int),
            decreases self.ready@.len() - i,
        {
            ready.push(self.ready[i]);
            proof {
                assert(self.ready@.take(i as int).push(self.ready@[i as int])
                    =~= self.ready@.take(i as int + 1));
            }
            i = i + 1;
        }
        let mut batches: Vec<Batch> = Vec::new();
        let mut j: usize = 0;
        while j < self.batches.len()
            invariant
                j <= self.batches@.len(),
                batches@ == self.batches@.take(j as int),
            decreases self.batches@.len() - j,
        {
            batches.push(self.batches[j]);
            proof {
                assert(self.batches@.take(j as int).push(self.batches@[j as int])
                    =~= self.batches@.take(j as int + 1));
            }
            j = j + 1;
        }
        proof {
            assert(self.ready@.take(i as int) =~= self.ready@);
            assert(self.batches@.take(j as int) =~= self.batches@);
            assert forall|k: int| 0 <= k < self.ready@.len() implies match lookup(
                self.batches@,
                #[trigger] self.ready@[k],
            ) {
                Some(b) => !b.in_flight,
                None => true,
            } by {
                lemma_found_at(self.ready@, k);
                assert(self.spec_is_ready(self.ready@[k]));
            }
        }
        SchedulerSnapshot {
            max_batch_size: self.max_batch_size,
            flush_interval: self.flush_interval,
            last_flush: self.last_flush,
            ready,
            batches,
        }
    }

    /// The scheduler made of `parts`, or `None` where they cannot make one.
    pub fn from_parts(parts: SchedulerSnapshot) -> (scheduler: Option<Self>)
        ensures
            scheduler.is_some() == Self::parts_wf(parts),
            scheduler.is_some() ==> scheduler.unwrap().wf() && scheduler.unwrap().holds(parts),
    {
        if parts.max_batch_size == 0 || !all_distinct(&parts.ready) || !all_distinct(
            &parts.batches,
        ) {
            return None;
        }
        let mut i: usize = 0;
        while i < parts.batches.len()
            invariant
                i <= parts.batches@.len(),
                forall|j: int|
                    0 <= j < i ==> (#[trigger] parts.batches@[j]).first_sequence
                        <= parts.batches@[j].last_sequence,
            decreases parts.batches@.len() - i,
        {
            if parts.batches[i].first_sequence > parts.batches[i].last_sequence {
                return None;
            }
            i = i + 1;
        }
        let mut k: usize = 0;
        while k < parts.ready.len()
            invariant
                k <= parts.ready@.len(),
                keys_distinct(parts.batches@),
                forall|j: int|
                    0 <= j < k ==> match lookup(parts.batches@, #[trigger] parts.ready@[j]) {
                        Some(b) => !b.in_flight,
                        None => true,
                    },
            decreases parts.ready@.len() - k,
        {
            match find_key(&parts.batches, parts.ready[k]) {
                Some(at) => {
                    if parts.batches[at].in_flight {
                        return None;
                    }
                },
                None => {},
            }
            k = k + 1;
        }
        let scheduler = BatchScheduler {
            max_batch_size: parts.max_batch_size,
            flush_interval: parts.flush_interval,
            last_flush: parts.last_flush,
            ready: parts.ready,
            batches: parts.batches,
        };
        proof {
            assert forall|d: Principal| #[trigger]
                scheduler.spec_is_ready(d) implies !scheduler.spec_is_in_flight(d) by {
                lemma_lookup_index(parts.ready@, d);
                let at = index_of_key(parts.ready@, d);
                assert(parts.ready@[at] == d);
            }
        }
        Some(scheduler)
    }
}

} // verus!
