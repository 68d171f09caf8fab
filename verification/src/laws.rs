//! What holds of the fleet engine as a whole, stated over the models that
//! the contracts of its operations use.

use vstd::prelude::*;
use crate::coordinator::{is_recipient, Coordinator, Snapshot};
use crate::notifications_index::{appended_to_all, stamped, NotificationsIndexEvent};
use crate::delivery::{batch_is_head, DeliveryWorker};
use crate::keyed::{
    has_key, index_of_key, keys_distinct, lemma_found_at, lemma_lookup_index, lemma_push,
    lemma_update, lookup, Keyed,
};
use crate::registry::Node;
use crate::keyed::{lemma_count_bounds, lemma_count_concat};
use crate::outbox::{acked_prefix, consecutive, EventOutbox, OutboundEvent};
use crate::pool::{deficit, unassigned_count, PoolEntry};
use crate::scheduler::{flush_due, BatchScheduler};
use crate::types::{BuildVersion, Principal, TimestampMillis};
use crate::upgrade::{
    after_dispatch, after_failure, checked, count_tasks, needs_upgrade, UpgradeCoordinator,
    UpgradeState, UpgradeTask,
};

verus! {

/// Order of acknowledgement: an acknowledgement removes exactly the events
/// whose number is at most the acknowledged one, and they form the head of
/// the queue. So no event is acknowledged before an older one that stays.
pub proof fn law_ack_removes_a_prefix<E>(
    pending: Seq<OutboundEvent<E>>,
    destination: Principal,
    next: nat,
    up_to_sequence: u64,
)
    requires
        consecutive(pending, destination, next),
    ensures
        0 <= acked_prefix(pending, up_to_sequence) <= pending.len(),
        forall|i: int|
            0 <= i < pending.len() ==> (i < acked_prefix(pending, up_to_sequence) <==> (
            #[trigger] pending[i]).sequence <= up_to_sequence),
        forall|i: int, j: int|
            0 <= i < acked_prefix(pending, up_to_sequence) <= j < pending.len() ==> (
            #[trigger] pending[i]).sequence < (#[trigger] pending[j]).sequence,
{
    if pending.len() > 0 {
        let first = pending[0];
        assert forall|i: int| 0 <= i < pending.len() implies (i < acked_prefix(
            pending,
            up_to_sequence,
        ) <==> (#[trigger] pending[i]).sequence <= up_to_sequence) by {
            assert(pending[i].sequence == first.sequence + i);
        }
    }
}

/// Order of delivery: the batch of a destination names the events at the
/// head of its queue, oldest first, with strictly increasing numbers. A
/// delivery never carries an event without every older pending one.
pub proof fn law_batch_is_oldest_first<E>(worker: &DeliveryWorker<E>, destination: Principal)
    requires
        worker.wf(),
        worker.batch_of(destination).is_some(),
    ensures
        batch_is_head(worker.batch_of(destination).unwrap(), worker.pending(destination)),
        forall|k: int|
            0 <= k < worker.batch_of(destination).unwrap().size() ==> (#[trigger] worker.pending(
                destination,
            )[k]).sequence == worker.batch_of(destination).unwrap().first_sequence + k,
        forall|i: int, j: int|
            0 <= i < j < worker.pending(destination).len() ==> (#[trigger] worker.pending(
                destination,
            )[i]).sequence < (#[trigger] worker.pending(destination)[j]).sequence,
{
    worker.outbox().lemma_pending_consecutive(destination);
    let pending = worker.pending(destination);
    let first = pending[0];
    assert forall|k: int|
        0 <= k < worker.batch_of(destination).unwrap().size()
            implies (#[trigger] pending[k]).sequence
        == worker.batch_of(destination).unwrap().first_sequence + k by {
        assert(pending[k].sequence == first.sequence + k);
    }
}

/// Order across deliveries: once a batch is acknowledged, every event that
/// is still pending has a greater number than every event of the batch.
/// So the next delivery carries only later events.
pub proof fn law_next_batch_follows_the_delivered<E>(
    worker: &DeliveryWorker<E>,
    destination: Principal,
    j: int,
)
    requires
        worker.wf(),
        worker.batch_of(destination).is_some(),
        0 <= j < worker.pending(destination).skip(
            worker.batch_of(destination).unwrap().size(),
        ).len(),
    ensures
        worker.pending(destination).skip(worker.batch_of(destination).unwrap().size())[j].sequence
            > worker.batch_of(destination).unwrap().last_sequence,
{
    worker.outbox().lemma_pending_consecutive(destination);
    let pending = worker.pending(destination);
    let batch = worker.batch_of(destination).unwrap();
    let first = pending[0];
    let kept = pending[batch.size() + j];
    assert(kept.sequence == first.sequence + batch.size() + j);
}

/// Single flight: of the batches that a scheduler holds, no two belong to
/// the same destination. So no two deliveries to one destination are in
/// flight together.
pub proof fn law_single_flight(scheduler: &BatchScheduler, i: int, j: int)
    requires
        scheduler.wf(),
        0 <= i < scheduler.batches().len(),
        0 <= j < scheduler.batches().len(),
        i != j,
    ensures
        scheduler.batches()[i].destination != scheduler.batches()[j].destination,
{
    let batches = scheduler.batches();
    if i < j {
        assert(batches[i].key() != batches[j].key());
    } else {
        assert(batches[j].key() != batches[i].key());
    }
}

/// Single flight, seen from a destination: while a delivery is in flight
/// the destination is not flagged ready, so none can start beside it.
pub proof fn law_in_flight_is_not_ready(scheduler: &BatchScheduler, destination: Principal)
    requires
        scheduler.wf(),
        scheduler.spec_is_in_flight(destination),
    ensures
        !scheduler.spec_is_ready(destination),
{
    if scheduler.spec_is_ready(destination) {
        assert(!scheduler.spec_is_in_flight(destination));
    }
}

/// Flush by time: after a tick, a destination with at least one pending
/// event and no delivery in flight is flagged ready, however few events it
/// has.
pub proof fn law_tick_flags_every_waiting_destination<E>(
    before: &BatchScheduler,
    after: &BatchScheduler,
    outbox: &EventOutbox<E>,
    destination: Principal,
)
    requires
        after.flagged_by_tick(before, outbox),
        outbox.pending(destination).len() >= 1,
        !before.spec_is_in_flight(destination),
    ensures
        after.spec_is_ready(destination),
{
    assert(after.spec_is_ready(destination) <==> before.spec_is_ready(destination) || (
    outbox.pending(destination).len() > 0 && !before.spec_is_in_flight(destination)));
}

/// Bound on concurrent upgrades: a well-formed coordinator never has more
/// tasks in flight than its bound allows.
pub proof fn law_upgrades_in_flight_are_bounded(upgrades: &UpgradeCoordinator)
    requires
        upgrades.wf(),
    ensures
        count_tasks(upgrades.tasks(), UpgradeState::InFlight)
            <= upgrades.spec_max_concurrent_upgrades(),
{
}

/// Exhaustion: a task whose failures have reached the retry ceiling has
/// failed for good.
pub proof fn law_failures_at_ceiling_have_failed(upgrades: &UpgradeCoordinator, i: int)
    requires
        upgrades.wf(),
        0 <= i < upgrades.tasks().len(),
        upgrades.tasks()[i].attempts >= 1,
        upgrades.tasks()[i].attempts >= upgrades.spec_retry_ceiling(),
    ensures
        upgrades.tasks()[i].state == UpgradeState::Failed,
{
}

/// Exhaustion: the failure that brings the count of a task to the retry
/// ceiling, or beyond, makes the task fail for good.
pub proof fn law_last_failure_fails_for_good(task: UpgradeTask, retry_ceiling: u32)
    requires
        task.attempts + 1 >= retry_ceiling,
    ensures
        after_failure(task, retry_ceiling).state == UpgradeState::Failed,
{
}

/// Exhaustion: a dispatch pass leaves a task that has failed for good as
/// it is: it is not sent again of its own accord.
pub proof fn law_failed_tasks_are_not_dispatched(
    tasks: Seq<UpgradeTask>,
    max_concurrent: usize,
    i: int,
)
    requires
        0 <= i < tasks.len(),
        tasks[i].state == UpgradeState::Failed,
    ensures
        after_dispatch(tasks, max_concurrent)[i] == tasks[i],
{
}

/// Lossless snapshot: two coordinators that are made of the same parts
/// agree in all that their operations depend on. So what was taken apart
/// and put together again is what it was.
pub proof fn law_snapshot_is_lossless<E>(
    a: &Coordinator<E>,
    b: &Coordinator<E>,
    parts: Snapshot<E>,
    destination: Principal,
)
    requires
        a.wf(),
        b.wf(),
        a.holds(parts),
        b.holds(parts),
        Coordinator::<E>::parts_wf(parts),
    ensures
        a.config() == b.config(),
        a.registry()@ == b.registry()@,
        a.delivery().pending(destination) == b.delivery().pending(destination),
        a.delivery().next_sequence(destination) == b.delivery().next_sequence(destination),
        a.delivery().scheduler().ready() == b.delivery().scheduler().ready(),
        a.delivery().scheduler().batches() == b.delivery().scheduler().batches(),
        a.delivery().scheduler().spec_last_flush() == b.delivery().scheduler().spec_last_flush(),
        a.upgrades().tasks() == b.upgrades().tasks(),
        a.pool().entries() == b.pool().entries(),
        a.pool().spec_provisioning() == b.pool().spec_provisioning(),
{
    a.delivery().outbox().lemma_holds(parts.delivery.queues@, destination);
    b.delivery().outbox().lemma_holds(parts.delivery.queues@, destination);
}

/// Replenishment: once every provisioning request that the check found missing, and every
/// one that was under way before, has been served with a node of its own,
/// the pool holds at least its target number of unassigned nodes again.
pub proof fn law_replenishment_restores_the_target(
    entries: Seq<PoolEntry>,
    target: u16,
    provisioning: u16,
    served: Seq<PoolEntry>,
)
    requires
        served.len() == provisioning + deficit(entries, target, provisioning),
        forall|i: int| 0 <= i < served.len() ==> !(#[trigger] served[i]).assigned,
    ensures
        unassigned_count(entries + served) >= target,
{
    let p = |e: PoolEntry| !e.assigned;
    lemma_count_concat(entries, served, p);
    lemma_count_bounds(served, p);
}

/// What the sufficiency check does to the task of the node `id`.
pub open spec fn task_after_check(
    before: Option<UpgradeTask>,
    node: Option<Node>,
    id: Principal,
    desired: BuildVersion,
) -> Option<UpgradeTask> {
    match node {
        Some(n) => if needs_upgrade(n, desired) {
            match before {
                None => Some(
                    UpgradeTask {
                        node: id,
                        target: desired,
                        attempts: 0,
                        state: UpgradeState::Pending,
                    },
                ),
                Some(t) => if t.state == UpgradeState::Pending {
                    Some(UpgradeTask { target: desired, ..t })
                } else {
                    Some(t)
                },
            }
        } else {
            before
        },
        None => before,
    }
}

/// Sufficiency check, node by node: a node in service that does not run
/// the desired version has a pending task for it afterwards, new or with
/// its target refreshed, unless its task is in flight or has failed for
/// good; the task of any other node is as it was. No node has two tasks.
pub proof fn law_check_creates_or_refreshes(
    tasks: Seq<UpgradeTask>,
    nodes: Seq<Node>,
    desired: BuildVersion,
    id: Principal,
)
    requires
        keys_distinct(tasks),
        keys_distinct(nodes),
    ensures
        keys_distinct(checked(tasks, nodes, desired)),
        lookup(checked(tasks, nodes, desired), id) == task_after_check(
            lookup(tasks, id),
            lookup(nodes, id),
            id,
            desired,
        ),
    decreases nodes.len(),
{
    if nodes.len() > 0 {
        let rest = nodes.drop_last();
        let last = nodes.last();
        assert forall|i: int, j: int| 0 <= i < j < rest.len() implies (
        #[trigger] rest[i]).key() != (#[trigger] rest[j]).key() by {
            assert(nodes[i].key() != nodes[j].key());
        }
        law_check_creates_or_refreshes(tasks, rest, desired, id);
        law_check_creates_or_refreshes(tasks, rest, desired, last.id);
        let before = checked(tasks, rest, desired);
        assert(!has_key(rest, last.id)) by {
            if has_key(rest, last.id) {
                let i = index_of_key(rest, last.id);
                assert(nodes[i].key() != nodes[nodes.len() - 1].key());
            }
        }
        lemma_found_at(nodes, nodes.len() - 1);
        if id != last.id {
            assert(lookup(nodes, id) == lookup(rest, id)) by {
                if has_key(nodes, id) {
                    lemma_lookup_index(nodes, id);
                    let i = index_of_key(nodes, id);
                    assert(rest[i] == nodes[i]);
                    lemma_found_at(rest, i);
                }
                if has_key(rest, id) {
                    lemma_lookup_index(rest, id);
                    let i = index_of_key(rest, id);
                    assert(nodes[i] == rest[i]);
                    lemma_found_at(nodes, i);
                }
            }
        }
        if needs_upgrade(last, desired) {
            match lookup(before, last.id) {
                None => {
                    lemma_push(
                        before,
                        UpgradeTask {
                            node: last.id,
                            target: desired,
                            attempts: 0,
                            state: UpgradeState::Pending,
                        },
                    );
                },
                Some(t) => {
                    lemma_lookup_index(before, last.id);
                    if t.state == UpgradeState::Pending {
                        lemma_update(
                            before,
                            index_of_key(before, last.id),
                            UpgradeTask { target: desired, ..t },
                        );
                    }
                },
            }
        }
    }
}

/// Order of pushing: events that are pushed to every worker stand behind
/// all that its queue held, which keeps its place; they stand in the
/// order in which they were pushed, under numbers that go up by one; and
/// the queue of any other destination is as it was.
pub proof fn law_pushed_events_join_the_end(
    before: Coordinator<NotificationsIndexEvent>,
    after: Coordinator<NotificationsIndexEvent>,
    events: Seq<NotificationsIndexEvent>,
    d: Principal,
)
    requires
        appended_to_all(before, after, events),
    ensures
        is_recipient(before.registry()@, d) ==> {
            &&& after.delivery().pending(d).len() == before.delivery().pending(d).len()
                + events.len()
            &&& forall|k: int|
                0 <= k < before.delivery().pending(d).len() ==> after.delivery().pending(d)[k]
                    == before.delivery().pending(d)[k]
            &&& forall|k: int|
                0 <= k < events.len() ==> (#[trigger] after.delivery().pending(
                    d,
                )[before.delivery().pending(d).len() + k]) == (OutboundEvent {
                    destination: d,
                    sequence: (before.delivery().next_sequence(d) + k) as u64,
                    payload: events[k],
                })
        },
        !is_recipient(before.registry()@, d) ==> after.delivery().pending(d)
            == before.delivery().pending(d),
{
    if is_recipient(before.registry()@, d) {
        let added = stamped(events, d, before.delivery().next_sequence(d));
        assert(after.delivery().pending(d) == before.delivery().pending(d) + added);
        assert forall|k: int| 0 <= k < events.len() implies (#[trigger] after.delivery().pending(
            d,
        )[before.delivery().pending(d).len() + k]) == (OutboundEvent {
            destination: d,
            sequence: (before.delivery().next_sequence(d) + k) as u64,
            payload: events[k],
        }) by {
            assert(added[k].payload == events[k]);
        }
    }
}

/// Single flight while pushing: events that are pushed while a delivery
/// to a worker is in flight start no second one. The batch in flight is
/// as it was, the worker is not flagged ready, and the events wait at the
/// end of its queue for the next batch.
pub proof fn law_push_during_a_delivery_starts_none(
    before: Coordinator<NotificationsIndexEvent>,
    after: Coordinator<NotificationsIndexEvent>,
    events: Seq<NotificationsIndexEvent>,
    d: Principal,
)
    requires
        before.wf(),
        appended_to_all(before, after, events),
        before.delivery().spec_is_in_flight(d),
    ensures
        after.delivery().batch_of(d) == before.delivery().batch_of(d),
        after.delivery().spec_is_in_flight(d),
        !after.delivery().spec_is_ready(d),
        after.delivery().scheduler().batches() == before.delivery().scheduler().batches(),
{
    law_in_flight_is_not_ready(&before.delivery().scheduler(), d);
    assert(after.delivery().spec_is_ready(d) <==> before.delivery().spec_is_ready(d) || (
    is_recipient(before.registry()@, d) && after.delivery().pending(d).len()
        >= before.config().max_batch_size && !before.delivery().spec_is_in_flight(d)));
}

/// Flush by time after a push: pushing leaves the flush timer as it was,
/// so the timer is due afterwards exactly when it was due before; and
/// once its tick has run, every worker that got an event and has no
/// delivery in flight is flagged ready, however short its queue.
pub proof fn law_pushed_event_is_flushed_by_the_tick(
    before: Coordinator<NotificationsIndexEvent>,
    pushed: Coordinator<NotificationsIndexEvent>,
    ticked: Coordinator<NotificationsIndexEvent>,
    event: NotificationsIndexEvent,
    d: Principal,
    now: TimestampMillis,
)
    requires
        appended_to_all(before, pushed, seq![event]),
        is_recipient(before.registry()@, d),
        !before.delivery().spec_is_in_flight(d),
        ticked.delivery().scheduler().flagged_by_tick(
            &pushed.delivery().scheduler(),
            &pushed.delivery().outbox(),
        ),
    ensures
        flush_due(
            pushed.delivery().scheduler().spec_last_flush(),
            pushed.config().flush_interval,
            now,
        ) == flush_due(
            before.delivery().scheduler().spec_last_flush(),
            before.config().flush_interval,
            now,
        ),
        pushed.delivery().pending(d).len() == before.delivery().pending(d).len() + 1,
        ticked.delivery().spec_is_ready(d),
{
    let added = stamped(seq![event], d, before.delivery().next_sequence(d));
    assert(pushed.delivery().pending(d) == before.delivery().pending(d) + added);
    assert(ticked.delivery().scheduler().spec_is_ready(d)
        <==> pushed.delivery().scheduler().spec_is_ready(d) || (pushed.delivery().outbox().pending(
        d,
    ).len() > 0 && !pushed.delivery().scheduler().spec_is_in_flight(d)));
}

} // verus!
