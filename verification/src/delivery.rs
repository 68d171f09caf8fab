//! The delivery worker: hands out one batch per destination at a time and
//! resolves what the remote call reported.

use vstd::prelude::*;
use crate::keyed::{
    has_key, index_of_key, lemma_found_at, lemma_lookup_index, lemma_push, lookup,
};
use crate::outbox::{EventOutbox, OutboundEvent, QueueSnapshot};
use crate::registry::NodeState;
use crate::scheduler::{
    flush_due, fresh_batch, one_more, Batch, BatchScheduler, SchedulerSnapshot,
};
use crate::types::{Outcome, Principal, TimestampMillis};

verus! {

/// Whether a node in `state` may receive deliveries. A node under upgrade
/// receives none where the upgrade protocol asks for a quiescent node.
pub open spec fn delivery_allowed(state: Option<NodeState>, quiesce_upgrading: bool) -> bool {
    match state {
        Some(NodeState::Active) => true,
        Some(NodeState::Upgrading) => !quiesce_upgrading,
        _ => false,
    }
}

/// Whether `batch` names the events at the head of `pending`.
pub open spec fn batch_is_head<E>(batch: Batch, pending: Seq<OutboundEvent<E>>) -> bool {
    &&& 1 <= batch.size() <= pending.len()
    &&& pending[0].sequence == batch.first_sequence
}

/// Decides whether a node in `state` may receive deliveries.
pub fn is_delivery_allowed(state: Option<NodeState>, quiesce_upgrading: bool) -> (allowed: bool)
    ensures
        allowed == delivery_allowed(state, quiesce_upgrading),
{
    match state {
        Some(NodeState::Active) => true,
        Some(NodeState::Upgrading) => !quiesce_upgrading,
        _ => false,
    }
}

/// The parts of a delivery worker, as they are persisted.
#[derive(Debug, PartialEq, Eq)]
pub struct DeliverySnapshot<E> {
    pub queues: Vec<QueueSnapshot<E>>,
    pub scheduler: SchedulerSnapshot,
    pub quiesce_upgrading: bool,
}

/// The events that `queues` hold for `d`.
pub open spec fn events_of<E>(queues: Seq<QueueSnapshot<E>>, d: Principal) -> Seq<
    OutboundEvent<E>,
> {
    match lookup(queues, d) {
        Some(q) => q.events@,
        None => Seq::empty(),
    }
}

/// Owns the outbox and its scheduler and carries out deliveries: one batch
/// per destination at a time, acknowledged as a whole or not at all.
pub struct DeliveryWorker<E> {
    outbox: EventOutbox<E>,
    scheduler: BatchScheduler,
    quiesce_upgrading: bool,
}

impl<E> DeliveryWorker<E> {
    /// The outbox that holds the undelivered events.
    pub closed spec fn outbox(&self) -> EventOutbox<E> {
        self.outbox
    }

    /// The scheduler that flags destinations ready.
    pub closed spec fn scheduler(&self) -> BatchScheduler {
        self.scheduler
    }

    /// Whether nodes under upgrade are spared deliveries.
    pub closed spec fn spec_quiesce_upgrading(&self) -> bool {
        self.quiesce_upgrading
    }

    /// The undelivered events of `destination`, oldest first.
    pub open spec fn pending(&self, destination: Principal) -> Seq<OutboundEvent<E>> {
        self.outbox().pending(destination)
    }

    /// The sequence number that the next event for `destination` will get.
    pub open spec fn next_sequence(&self, destination: Principal) -> nat {
        self.outbox().next_sequence(destination)
    }

    /// Whether `destination` is flagged ready.
    pub open spec fn spec_is_ready(&self, destination: Principal) -> bool {
        self.scheduler().spec_is_ready(destination)
    }

    /// The batch of `destination` that is not yet acknowledged, if any.
    pub open spec fn batch_of(&self, destination: Principal) -> Option<Batch> {
        self.scheduler().batch_of(destination)
    }

    /// Whether a delivery to `destination` is in flight.
    pub open spec fn spec_is_in_flight(&self, destination: Principal) -> bool {
        self.scheduler().spec_is_in_flight(destination)
    }

    /// Whether two workers have the same configuration and timer.
    pub open spec fn same_settings(&self, other: &Self) -> bool {
        &&& self.scheduler().same_settings(&other.scheduler())
        &&& self.spec_quiesce_upgrading() == other.spec_quiesce_upgrading()
    }

    /// Outbox and scheduler are well formed; a destination that is flagged
    /// ready has pending events; and every batch names the events at the
    /// head of its destination's queue.
    pub open spec fn wf(&self) -> bool {
        &&& self.outbox().wf()
        &&& self.scheduler().wf()
        &&& forall|d: Principal| #[trigger] self.spec_is_ready(d) ==> self.pending(d).len() > 0
        &&& forall|d: Principal|
            (#[trigger] self.batch_of(d)).is_some() ==> batch_is_head(
                self.batch_of(d).unwrap(),
                self.pending(d),
            )
    }

    /// A worker with an empty outbox, or `None` where `max_batch_size` is
    /// zero.
    pub fn new(
        max_batch_size: usize,
        flush_interval: u64,
        now: TimestampMillis,
        quiesce_upgrading: bool,
    ) -> (worker: Option<Self>)
        ensures
            worker.is_some() == (max_batch_size >= 1),
            match worker {
                Some(w) => {
                    &&& w.wf()
                    &&& w.scheduler().spec_max_batch_size() == max_batch_size
                    &&& w.scheduler().spec_flush_interval() == flush_interval
                    &&& w.scheduler().spec_last_flush() == now
                    &&& w.spec_quiesce_upgrading() == quiesce_upgrading
                    &&& w.scheduler().ready() == Seq::<Principal>::empty()
                    &&& w.scheduler().batches() == Seq::<Batch>::empty()
                    &&& forall|d: Principal|
                        #[trigger] w.pending(d) == Seq::<OutboundEvent<E>>::empty()
                    &&& forall|d: Principal| #[trigger] w.next_sequence(d) == 0
                },
                None => true,
            },
    {
        match BatchScheduler::new(max_batch_size, flush_interval, now) {
            Some(scheduler) => {
                let worker = DeliveryWorker { outbox: EventOutbox::new(), scheduler,
                    quiesce_upgrading };
                proof {
                    assert forall|d: Principal| #[trigger]
                        worker.spec_is_ready(d) implies worker.pending(d).len() > 0 by {
                        lemma_lookup_index(worker.scheduler().ready(), d);
                    }
                    assert forall|d: Principal| (#[trigger] worker.batch_of(d)).is_some()
                        implies batch_is_head(
                        worker.batch_of(d).unwrap(),
                        worker.pending(d),
                    ) by {
                        lemma_lookup_index(worker.scheduler().batches(), d);
                    }
                }
                Some(worker)
            },
            None => None,
        }
    }

    /// Whether nodes under upgrade are spared deliveries.
    #[verifier::when_used_as_spec(spec_quiesce_upgrading)]
    pub fn quiesce_upgrading(&self) -> (flag: bool)
        ensures
            flag == self.spec_quiesce_upgrading(),
    {
        self.quiesce_upgrading
    }

    /// Whether `destination` is flagged ready.
    #[verifier::when_used_as_spec(spec_is_ready)]
    pub fn is_ready(&self, destination: Principal) -> (ready: bool)
        requires
            self.wf(),
        ensures
            ready == self.spec_is_ready(destination),
    {
        self.scheduler.is_ready(destination)
    }

    /// Whether a delivery to `destination` is in flight.
    #[verifier::when_used_as_spec(spec_is_in_flight)]
    pub fn is_in_flight(&self, destination: Principal) -> (in_flight: bool)
        requires
            self.wf(),
        ensures
            in_flight == self.spec_is_in_flight(destination),
    {
        self.scheduler.is_in_flight(destination)
    }

    /// The number of undelivered events of `destination`.
    pub fn depth(&self, destination: Principal) -> (depth: usize)
        requires
            self.wf(),
        ensures
            depth == self.pending(destination).len(),
    {
        self.outbox.depth(destination)
    }

    /// The sequence number that the next event for `destination` will get.
    pub fn next_sequence_of(&self, destination: Principal) -> (next: u64)
        requires
            self.wf(),
        ensures
            next == self.next_sequence(destination),
    {
        self.outbox.next_sequence_of(destination)
    }

    /// Whether the sequence counter of `destination` has a number left for
    /// one more event.
    pub fn can_submit(&self, destination: Principal) -> (room: bool)
        requires
            self.wf(),
        ensures
            room == (self.next_sequence(destination) < u64::MAX),
    {
        self.outbox.can_push(destination)
    }

    /// Accepts an event for `destination`: it joins the end of the queue
    /// under the next sequence number, which is returned, and the scheduler
    /// is told. A queue that has reached the maximum batch size is ready at
    /// once, unless a delivery to that destination is in flight: then the
    /// event waits for the next batch.
    pub fn submit(&mut self, destination: Principal, payload: E) -> (sequence: u64)
        requires
            old(self).wf(),
            old(self).next_sequence(destination) < u64::MAX,
        ensures
            final(self).wf(),
            final(self).same_settings(old(self)),
            sequence == old(self).next_sequence(destination),
            final(self).pending(destination) == old(self).pending(destination).push(
                (OutboundEvent { destination, sequence, payload }),
            ),
            final(self).next_sequence(destination) == old(self).next_sequence(destination) + 1,
            forall|d: Principal|
                d != destination ==> final(self).pending(d) == old(self).pending(d)
                    && final(self).next_sequence(d) == old(self).next_sequence(d),
            final(self).scheduler().batches() == old(self).scheduler().batches(),
            final(self).scheduler().ready() == if final(self).pending(destination).len()
                >= old(self).scheduler().spec_max_batch_size()
                && !old(self).spec_is_ready(destination)
                && !old(self).spec_is_in_flight(destination) {
                old(self).scheduler().ready().push(destination)
            } else {
                old(self).scheduler().ready()
            },
            final(self).pending(destination).len() >= old(self).scheduler().spec_max_batch_size()
                && !old(self).spec_is_in_flight(destination) ==> final(self).spec_is_ready(
                destination,
            ),
    {
        let sequence = self.outbox.push(destination, payload);
        let depth = self.outbox.depth(destination);
        self.scheduler.note_push(destination, depth);
        proof {
            let ready = old(self).scheduler().ready();
            if !old(self).spec_is_ready(destination) {
                lemma_push(ready, destination);
            }
            assert forall|d: Principal| #[trigger]
                self.spec_is_ready(d) implies self.pending(d).len() > 0 by {
                if d != destination {
                    assert(old(self).spec_is_ready(d));
                }
            }
            assert forall|d: Principal| (#[trigger] self.batch_of(d)).is_some()
                implies batch_is_head(
                self.batch_of(d).unwrap(),
                self.pending(d),
            ) by {
                assert(old(self).batch_of(d).is_some());
            }
        }
        sequence
    }

    /// The periodic tick: every destination with pending events and no
    /// delivery in flight is flagged ready, whatever the size of its queue.
    pub fn tick(&mut self)
        requires
            old(self).wf(),
        ensures
            final(self).wf(),
            final(self).same_settings(old(self)),
            final(self).outbox() == old(self).outbox(),
            final(self).scheduler().flagged_by_tick(&old(self).scheduler(), &old(self).outbox()),
    {
        self.scheduler.tick(&self.outbox);
        proof {
            assert forall|d: Principal| #[trigger]
                self.spec_is_ready(d) implies self.pending(d).len() > 0 by {
                assert(self.scheduler().spec_is_ready(d));
                if old(self).scheduler().spec_is_ready(d) {
                    assert(old(self).spec_is_ready(d));
                }
            }
            assert forall|d: Principal| (#[trigger] self.batch_of(d)).is_some()
                implies batch_is_head(
                self.batch_of(d).unwrap(),
                self.pending(d),
            ) by {
                assert(old(self).batch_of(d).is_some());
            }
        }
    }

    /// Advances the flush timer to `now`; where the configured interval has
    /// passed since it last fired, the tick runs. Returns whether it did.
    pub fn poll(&mut self, now: TimestampMillis) -> (fired: bool)
        requires
            old(self).wf(),
        ensures
            final(self).wf(),
            final(self).outbox() == old(self).outbox(),
            final(self).spec_quiesce_upgrading() == old(self).spec_quiesce_upgrading(),
            final(self).scheduler().spec_max_batch_size()
                == old(self).scheduler().spec_max_batch_size(),
            final(self).scheduler().spec_flush_interval()
                == old(self).scheduler().spec_flush_interval(),
            fired == flush_due(
                old(self).scheduler().spec_last_flush(),
                old(self).scheduler().spec_flush_interval(),
                now,
            ),
            fired ==> final(self).scheduler().spec_last_flush() == now
                && final(self).scheduler().flagged_by_tick(&old(self).scheduler(),
                &old(self).outbox()),
            !fired ==> final(self).scheduler().spec_last_flush()
                == old(self).scheduler().spec_last_flush() && final(self).scheduler().ready()
                == old(self).scheduler().ready() && final(self).scheduler().batches()
                == old(self).scheduler().batches(),
    {
        let fired = self.scheduler.poll(&self.outbox, now);
        proof {
            assert forall|d: Principal| (#[trigger] self.batch_of(d)).is_some()
                implies batch_is_head(
                self.batch_of(d).unwrap(),
                self.pending(d),
            ) by {
                assert(old(self).batch_of(d).is_some());
            }
            assert forall|d: Principal| #[trigger]
                self.spec_is_ready(d) implies self.pending(d).len() > 0 by {
                assert(self.scheduler().spec_is_ready(d));
                if old(self).scheduler().spec_is_ready(d) {
                    assert(old(self).spec_is_ready(d));
                }
            }
        }
        fired
    }

    /// Starts the delivery to `destination`, whose node is in `node_state`,
    /// and returns the batch to send. There is a batch exactly when the
    /// destination is flagged ready and its node may receive deliveries; a
    /// destination with a delivery in flight is never flagged ready, so no
    /// second delivery starts beside the first. The events stay in the
    /// outbox until the batch is acknowledged.
    pub fn begin(
        &mut self,
        destination: Principal,
        node_state: Option<NodeState>,
        now: TimestampMillis,
    ) -> (batch: Option<Batch>)
        requires
            old(self).wf(),
        ensures
            final(self).wf(),
            final(self).same_settings(old(self)),
            final(self).outbox() == old(self).outbox(),
            batch.is_some() == (old(self).spec_is_ready(destination) && delivery_allowed(
                node_state,
                old(self).spec_quiesce_upgrading(),
            )),
            old(self).spec_is_in_flight(destination) ==> batch.is_none(),
            match batch {
                Some(b) => {
                    &&& b.destination == destination
                    &&& b.in_flight
                    &&& final(self).batch_of(destination) == Some(b)
                    &&& batch_is_head(b, old(self).pending(destination))
                    &&& b == match old(self).batch_of(destination) {
                        Some(failed) => Batch { in_flight: true, ..failed },
                        None => fresh_batch(
                            destination,
                            old(self).pending(destination)[0].sequence,
                            old(self).pending(destination).len() as usize,
                            old(self).scheduler().spec_max_batch_size(),
                            now,
                        ),
                    }
                    &&& forall|d: Principal|
                        #[trigger] final(self).spec_is_ready(d) <==> old(self).spec_is_ready(d)
                            && d != destination
                    &&& forall|d: Principal|
                        d != destination ==> final(self).batch_of(d) == old(self).batch_of(d)
                },
                None => {
                    &&& final(self).scheduler().ready() == old(self).scheduler().ready()
                    &&& final(self).scheduler().batches() == old(self).scheduler().batches()
                },
            },
    {
        if !self.scheduler.is_ready(destination) || !is_delivery_allowed(
            node_state,
            self.quiesce_upgrading,
        ) {
            return None;
        }
        proof {
            assert(self.spec_is_ready(destination));
            self.outbox.lemma_pending_consecutive(destination);
            let pending = self.pending(destination);
            assert(pending[0].sequence == self.next_sequence(destination) - pending.len());
        }
        let depth = self.outbox.depth(destination);
        let head = self.outbox.head_sequence(destination);
        let head = head.unwrap();
        let batch = self.scheduler.start(destination, head, depth, now);
        let batch = batch.unwrap();
        proof {
            assert forall|d: Principal| #[trigger]
                self.spec_is_ready(d) implies self.pending(d).len() > 0 by {
                assert(old(self).spec_is_ready(d));
            }
            if old(self).batch_of(destination).is_some() {
                assert(batch_is_head(old(self).batch_of(destination).unwrap(),
                    self.pending(destination)));
            }
            assert forall|d: Principal| (#[trigger] self.batch_of(d)).is_some()
                implies batch_is_head(
                self.batch_of(d).unwrap(),
                self.pending(d),
            ) by {
                if d != destination {
                    assert(old(self).batch_of(d).is_some());
                }
            }
        }
        Some(batch)
    }

    /// The events of the batch of `destination`, oldest first, as they are
    /// to be sent. Without a batch there are none.
    pub fn batch_events(&self, destination: Principal) -> (events: Vec<&OutboundEvent<E>>)
        requires
            self.wf(),
        ensures
            match self.batch_of(destination) {
                Some(b) => {
                    &&& events@.len() == b.size()
                    &&& forall|k: int|
                        0 <= k < events@.len() ==> *(#[trigger] events@[k]) == self.pending(
                            destination,
                        )[k]
                    &&& forall|k: int|
                        0 <= k < events@.len() ==> (#[trigger] events@[k]).sequence
                            == b.first_sequence + k
                    &&& forall|k: int|
                        0 <= k < events@.len() ==> (#[trigger] events@[k]).destination
                            == destination
                },
                None => events@.len() == 0,
            },
    {
        match self.scheduler.get_batch(destination) {
            Some(b) => {
                proof {
                    assert(self.batch_of(destination).is_some());
                    self.outbox.lemma_pending_consecutive(destination);
                }
                let depth = self.outbox.depth(destination);
                let size = b.last_sequence - b.first_sequence + 1;
                let events = self.outbox.peek_batch(destination, size as usize);
                proof {
                    let pending = self.pending(destination);
                    assert forall|k: int| 0 <= k < events@.len() implies (
                    #[trigger] events@[k]).sequence == b.first_sequence + k
                        && events@[k].destination
                        == destination by {
                        assert(*events@[k] == pending[k]);
                        assert(pending[k].sequence == pending[0].sequence + k);
                    }
                }
                events
            },
            None => Vec::new(),
        }
    }

    /// Resolves the delivery to `destination` that is in flight. A delivered
    /// batch is acknowledged as a whole: exactly its events leave the head
    /// of the queue, and the destination is looked at again at once. A batch
    /// that was not delivered is not acknowledged at all: the outbox keeps
    /// every event, and the same batch is sent again after the next tick.
    /// Without a delivery in flight nothing changes and `None` is returned.
    pub fn complete(&mut self, destination: Principal,
        delivered: bool) -> (outcome: Option<Outcome>)
        requires
            old(self).wf(),
        ensures
            final(self).wf(),
            final(self).same_settings(old(self)),
            forall|d: Principal|
                d != destination ==> final(self).pending(d) == old(self).pending(d)
                    && final(self).batch_of(d) == old(self).batch_of(d),
            forall|d: Principal| final(self).next_sequence(d) == old(self).next_sequence(d),
            !final(self).spec_is_in_flight(destination),
            !old(self).spec_is_in_flight(destination) ==> {
                &&& outcome.is_none()
                &&& final(self).outbox() == old(self).outbox()
                &&& final(self).scheduler().ready() == old(self).scheduler().ready()
                &&& final(self).scheduler().batches() == old(self).scheduler().batches()
            },
            old(self).spec_is_in_flight(destination) && delivered ==> {
                &&& outcome == Some(Outcome::Success)
                &&& final(self).pending(destination) == old(self).pending(destination).skip(
                    old(self).batch_of(destination).unwrap().size(),
                )
                &&& final(self).batch_of(destination).is_none()
                &&& final(self).scheduler().ready() == if final(self).pending(destination).len()
                    >= old(self).scheduler().spec_max_batch_size() {
                    old(self).scheduler().ready().push(destination)
                } else {
                    old(self).scheduler().ready()
                }
            },
            old(self).spec_is_in_flight(destination) && !delivered ==> {
                &&& outcome == Some(
                    Outcome::Retry {
                        attempts: one_more(old(self).batch_of(destination).unwrap().attempts),
                    },
                )
                &&& final(self).outbox() == old(self).outbox()
                &&& final(self).batch_of(destination) == Some(
                    Batch {
                        in_flight: false,
                        attempts: one_more(old(self).batch_of(destination).unwrap().attempts),
                        ..old(self).batch_of(destination).unwrap()
                    },
                )
                &&& final(self).scheduler().ready() == old(self).scheduler().ready()
            },
    {
        match self.scheduler.get_batch(destination) {
            Some(b) => {
                if !b.in_flight {
                    return None;
                }
                proof {
                    assert(self.batch_of(destination).is_some());
                    self.outbox.lemma_pending_consecutive(destination);
                }
                if delivered {
                    self.outbox.ack(destination, b.last_sequence);
                    let depth = self.outbox.depth(destination);
                    let outcome = self.scheduler.finish(destination, true, depth);
                    proof {
                        let ready = old(self).scheduler().ready();
                        if !has_key(ready, destination) {
                            lemma_push(ready, destination);
                        }
                        assert(!old(self).scheduler().spec_is_ready(destination)) by {
                            if old(self).scheduler().spec_is_ready(destination) {
                                assert(!old(self).scheduler().spec_is_in_flight(destination));
                            }
                        }
                        assert forall|d: Principal| #[trigger]
                            self.spec_is_ready(d) implies self.pending(d).len() > 0 by {
                            assert(self.scheduler().spec_is_ready(d));
                            if d != destination {
                                assert(old(self).scheduler().spec_is_ready(d));
                                assert(old(self).spec_is_ready(d));
                            }
                        }
                        assert forall|d: Principal| (#[trigger] self.batch_of(d)).is_some()
                            implies batch_is_head(
                            self.batch_of(d).unwrap(),
                            self.pending(d),
                        ) by {
                            assert(old(self).batch_of(d).is_some());
                        }
                    }
                    outcome
                } else {
                    let depth = self.outbox.depth(destination);
                    let outcome = self.scheduler.finish(destination, false, depth);
                    proof {
                        assert forall|d: Principal| #[trigger]
                            self.spec_is_ready(d) implies self.pending(d).len() > 0 by {
                            assert(old(self).spec_is_ready(d));
                        }
                        assert forall|d: Principal| (#[trigger] self.batch_of(d)).is_some()
                            implies batch_is_head(
                            self.batch_of(d).unwrap(),
                            self.pending(d),
                        ) by {
                            assert(old(self).batch_of(d).is_some());
                        }
                    }
                    outcome
                }
            },
            None => None,
        }
    }

    /// Forgets `destination`: its pending events, its flag and its batch
    /// are dropped. Its sequence counter stays.
    pub fn forget(&mut self, destination: Principal)
        requires
            old(self).wf(),
        ensures
            final(self).wf(),
            final(self).same_settings(old(self)),
            final(self).pending(destination) == Seq::<OutboundEvent<E>>::empty(),
            forall|d: Principal| final(self).next_sequence(d) == old(self).next_sequence(d),
            !final(self).spec_is_ready(destination),
            final(self).batch_of(destination).is_none(),
            forall|d: Principal|
                d != destination ==> final(self).pending(d) == old(self).pending(d)
                    && final(self).spec_is_ready(d) == old(self).spec_is_ready(d)
                    && final(self).batch_of(d) == old(self).batch_of(d),
            final(self).scheduler().ready() == if old(self).spec_is_ready(destination) {
                old(self).scheduler().ready().remove(
                    index_of_key(old(self).scheduler().ready(), destination),
                )
            } else {
                old(self).scheduler().ready()
            },
            final(self).scheduler().batches() == if old(self).batch_of(destination).is_some() {
                old(self).scheduler().batches().remove(
                    index_of_key(old(self).scheduler().batches(), destination),
                )
            } else {
                old(self).scheduler().batches()
            },
    {
        self.outbox.discard(destination);
        self.scheduler.forget(destination);
        proof {
            assert forall|d: Principal| #[trigger]
                self.spec_is_ready(d) implies self.pending(d).len() > 0 by {
                assert(old(self).spec_is_ready(d));
            }
            assert forall|d: Principal| (#[trigger] self.batch_of(d)).is_some()
                implies batch_is_head(
                self.batch_of(d).unwrap(),
                self.pending(d),
            ) by {
                assert(old(self).batch_of(d).is_some());
            }
        }
    }

    /// After a restart: no delivery is in flight any more. The outbox holds
    /// what it held; every batch that was in flight is sent again after the
    /// next tick.
    pub fn restart(&mut self)
        requires
            old(self).wf(),
        ensures
            final(self).wf(),
            final(self).same_settings(old(self)),
            final(self).outbox() == old(self).outbox(),
            final(self).scheduler().ready() == old(self).scheduler().ready(),
            forall|d: Principal| !final(self).spec_is_in_flight(d),
            forall|d: Principal|
                #[trigger] final(self).batch_of(d) == match old(self).batch_of(d) {
                    Some(b) => Some(Batch { in_flight: false, ..b }),
                    None => None,
                },
    {
        self.scheduler.clear_in_flight();
        proof {
            assert forall|d: Principal| #[trigger]
                self.spec_is_ready(d) implies self.pending(d).len() > 0 by {
                assert(old(self).spec_is_ready(d));
            }
            let before = old(self).scheduler().batches();
            let after = self.scheduler().batches();
            assert forall|d: Principal|
                #[trigger] self.batch_of(d) == match old(self).batch_of(d) {
                    Some(b) => Some(Batch { in_flight: false, ..b }),
                    None => None,
                } by {
                if has_key(before, d) {
                    lemma_lookup_index(before, d);
                    let i = index_of_key(before, d);
                    assert(after[i].destination == d);
                    lemma_found_at(after, i);
                }
                if has_key(after, d) {
                    lemma_lookup_index(after, d);
                    let i = index_of_key(after, d);
                    assert(before[i].destination == d);
                    lemma_found_at(before, i);
                }
            }
            assert forall|d: Principal| (#[trigger] self.batch_of(d)).is_some()
                implies batch_is_head(
                self.batch_of(d).unwrap(),
                self.pending(d),
            ) by {
                assert(old(self).batch_of(d).is_some());
            }
        }
    }

    /// The number of undelivered events of all destinations, or the largest
    /// `u64` where there are more.
    pub fn total_pending(&self) -> (total: u64)
        requires
            self.wf(),
        ensures
            total == if self.outbox().spec_total_pending() <= u64::MAX {
                self.outbox().spec_total_pending()
            } else {
                u64::MAX as nat
            },
    {
        self.outbox.total_pending()
    }

    /// The number of destinations flagged ready.
    pub fn ready_count(&self) -> (n: usize)
        ensures
            n == self.scheduler().ready().len(),
    {
        self.scheduler.ready_count()
    }

    /// The destination at position `i` among those flagged ready, in the
    /// order in which they were flagged.
    pub fn ready_at(&self, i: usize) -> (destination: Principal)
        requires
            i < self.scheduler().ready().len(),
        ensures
            destination == self.scheduler().ready()[i as int],
    {
        self.scheduler.ready_at(i)
    }

    /// The batch of `destination` that is not yet acknowledged, if any.
    pub fn get_batch(&self, destination: Principal) -> (batch: Option<Batch>)
        requires
            self.wf(),
        ensures
            batch == self.batch_of(destination),
    {
        self.scheduler.get_batch(destination)
    }

    /// Up to `max_items` events from the head of the queue of `destination`,
    /// oldest first; nothing is removed.
    pub fn peek_batch(&self, destination: Principal, max_items: usize) -> (batch: Vec<
        &OutboundEvent<E>,
    >)
        requires
            self.wf(),
        ensures
            batch@.len() == crate::outbox::min_len(
                max_items as int,
                self.pending(destination).len() as int,
            ),
            forall|k: int| 0 <= k < batch@.len() ==> *batch@[k] == self.pending(destination)[k],
            self.pending(destination).len() == 0 ==> batch@.len() == 0,
    {
        self.outbox.peek_batch(destination, max_items)
    }

    /// Whether `parts` can make a worker: queues and scheduler are in
    /// order, every destination that is flagged ready has pending events,
    /// and every batch names the head of its destination's queue.
    pub open spec fn parts_wf(parts: DeliverySnapshot<E>) -> bool {
        &&& EventOutbox::<E>::parts_wf(parts.queues@)
        &&& BatchScheduler::parts_wf(parts.scheduler)
        &&& forall|i: int|
            0 <= i < parts.scheduler.ready@.len() ==> events_of(
                parts.queues@,
                #[trigger] parts.scheduler.ready@[i],
            ).len() > 0
        &&& forall|i: int|
            0 <= i < parts.scheduler.batches@.len() ==> batch_is_head(
                #[trigger] parts.scheduler.batches@[i],
                events_of(parts.queues@, parts.scheduler.batches@[i].destination),
            )
    }

    /// Whether the worker is made of exactly these parts.
    pub open spec fn holds(&self, parts: DeliverySnapshot<E>) -> bool {
        &&& self.outbox().holds(parts.queues@)
        &&& self.scheduler().holds(parts.scheduler)
        &&& self.spec_quiesce_upgrading() == parts.quiesce_upgrading
    }

    /// Takes the worker apart for persisting.
    pub fn into_parts(self) -> (parts: DeliverySnapshot<E>)
        requires
            self.wf(),
        ensures
            self.holds(parts),
            Self::parts_wf(parts),
    {
        let scheduler = self.scheduler.to_parts();
        let quiesce_upgrading = self.quiesce_upgrading;
        let queues = self.outbox.into_parts();
        proof {
            assert forall|i: int| 0 <= i < scheduler.ready@.len() implies events_of(
                queues@,
                #[trigger] scheduler.ready@[i],
            ).len() > 0 by {
                let d = scheduler.ready@[i];
                lemma_found_at(scheduler.ready@, i);
                assert(self.spec_is_ready(d));
                self.outbox.lemma_holds(queues@, d);
            }
            assert forall|i: int| 0 <= i < scheduler.batches@.len() implies batch_is_head(
                #[trigger] scheduler.batches@[i],
                events_of(queues@, scheduler.batches@[i].destination),
            ) by {
                let b = scheduler.batches@[i];
                lemma_found_at(scheduler.batches@, i);
                assert(self.batch_of(b.destination) == Some(b));
                self.outbox.lemma_holds(queues@, b.destination);
            }
        }
        DeliverySnapshot { queues, scheduler, quiesce_upgrading }
    }

    /// The worker made of `parts`, or `None` where they cannot make one.
    #[verifier::loop_isolation(false)]
    pub fn from_parts(parts: DeliverySnapshot<E>) -> (worker: Option<Self>)
        ensures
            worker.is_some() == Self::parts_wf(parts),
            worker.is_some() ==> worker.unwrap().wf() && worker.unwrap().holds(parts),
    {
        let quiesce_upgrading = parts.quiesce_upgrading;
        let outbox = match EventOutbox::from_parts(parts.queues) {
            Some(outbox) => outbox,
            None => {
                return None;
            },
        };
        let scheduler = match BatchScheduler::from_parts(parts.scheduler) {
            Some(scheduler) => scheduler,
            None => {
                return None;
            },
        };
        let ready_count = scheduler.ready_count();
        let mut i: usize = 0;
        while i < ready_count
            invariant
                i <= ready_count,
                ready_count == scheduler.ready().len(),
                outbox.wf(),
                forall|j: int|
                    0 <= j < i ==> outbox.pending(#[trigger] scheduler.ready()[j]).len() > 0,
            decreases ready_count - i,
        {
            if outbox.depth(scheduler.ready_at(i)) == 0 {
                proof {
                    outbox.lemma_holds(parts.queues@, scheduler.ready()[i as int]);
                    assert(events_of(parts.queues@, parts.scheduler.ready@[i as int]).len() == 0);
                }
                return None;
            }
            i = i + 1;
        }
        let batch_count = scheduler.batch_count();
        let mut k: usize = 0;
        while k < batch_count
            invariant
                k <= batch_count,
                batch_count == scheduler.batches().len(),
                outbox.wf(),
                scheduler.wf(),
                forall|j: int|
                    0 <= j < k ==> batch_is_head(
                        #[trigger] scheduler.batches()[j],
                        outbox.pending(scheduler.batches()[j].destination),
                    ),
            decreases batch_count - k,
        {
            let b = scheduler.batch_at(k);
            let depth = outbox.depth(b.destination);
            let head = outbox.head_sequence(b.destination);
            let fits = match head {
                Some(first) => first == b.first_sequence && b.last_sequence - b.first_sequence
                    < depth as u64,
                None => false,
            };
            if !fits {
                proof {
                    outbox.lemma_holds(parts.queues@, b.destination);
                    assert(!batch_is_head(
                        parts.scheduler.batches@[k as int],
                        events_of(parts.queues@, parts.scheduler.batches@[k as int].destination),
                    ));
                }
                return None;
            }
            k = k + 1;
        }
        let worker = DeliveryWorker { outbox, scheduler, quiesce_upgrading };
        proof {
            assert forall|d: Principal| #[trigger]
                worker.spec_is_ready(d) implies worker.pending(d).len() > 0 by {
                lemma_lookup_index(scheduler.ready(), d);
                let at = index_of_key(scheduler.ready(), d);
                assert(scheduler.ready()[at] == d);
            }
            assert forall|d: Principal| (#[trigger] worker.batch_of(d)).is_some()
                implies batch_is_head(
                worker.batch_of(d).unwrap(),
                worker.pending(d),
            ) by {
                lemma_lookup_index(scheduler.batches(), d);
                let at = index_of_key(scheduler.batches(), d);
                assert(scheduler.batches()[at].destination == d);
            }
            assert forall|i: int| 0 <= i < parts.scheduler.ready@.len() implies events_of(
                parts.queues@,
                #[trigger] parts.scheduler.ready@[i],
            ).len() > 0 by {
                outbox.lemma_holds(parts.queues@, scheduler.ready()[i]);
            }
            assert forall|i: int| 0 <= i < parts.scheduler.batches@.len() implies batch_is_head(
                #[trigger] parts.scheduler.batches@[i],
                events_of(parts.queues@, parts.scheduler.batches@[i].destination),
            ) by {
                outbox.lemma_holds(parts.queues@, scheduler.batches()[i].destination);
            }
        }
        Some(worker)
    }
}

} // verus!
