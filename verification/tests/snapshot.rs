use fleet_coordinator::coordinator::{Config, Coordinator, Snapshot};
use fleet_coordinator::delivery::{DeliverySnapshot, DeliveryWorker};
use fleet_coordinator::outbox::{EventOutbox, OutboundEvent, QueueSnapshot};
use fleet_coordinator::pool::{NodePool, PoolEntry, PoolSnapshot};
use fleet_coordinator::registry::{Node, NodeRegistry, NodeRole, NodeState};
use fleet_coordinator::scheduler::{Batch, BatchScheduler, SchedulerSnapshot};
use fleet_coordinator::types::{BuildVersion, Principal};
use fleet_coordinator::upgrade::{UpgradeCoordinator, UpgradeSnapshot, UpgradeState, UpgradeTask};

fn node(n: u8) -> Principal {
    Principal::from_slice(&[0, 0, 0, 0, 0, 0, 0, n, 1, 1]).unwrap()
}

fn v(patch: u32) -> BuildVersion {
    BuildVersion::new(1, 0, patch)
}

fn event(n: u8, sequence: u64, payload: u32) -> OutboundEvent<u32> {
    OutboundEvent { destination: node(n), sequence, payload }
}

fn queue(n: u8, next_sequence: u64, events: Vec<OutboundEvent<u32>>) -> QueueSnapshot<u32> {
    QueueSnapshot { destination: node(n), next_sequence, events }
}

fn batch(n: u8, first: u64, last: u64, in_flight: bool) -> Batch {
    Batch {
        destination: node(n),
        first_sequence: first,
        last_sequence: last,
        created_at: 3,
        in_flight,
        attempts: 0,
    }
}

fn scheduler(ready: Vec<Principal>, batches: Vec<Batch>) -> SchedulerSnapshot {
    SchedulerSnapshot { max_batch_size: 2, flush_interval: 10, last_flush: 4, ready, batches }
}

fn task(n: u8, attempts: u32, state: UpgradeState) -> UpgradeTask {
    UpgradeTask { node: node(n), target: v(2), attempts, state }
}

#[test]
fn an_outbox_comes_back_as_it_was() {
    let mut outbox: EventOutbox<u32> = EventOutbox::new();
    outbox.push(node(1), 10);
    outbox.push(node(1), 11);
    outbox.push(node(2), 20);
    outbox.push(node(1), 12);
    outbox.ack(node(1), 0);
    outbox.ack(node(2), 0);
    let parts = outbox.into_parts();
    assert_eq!(
        parts,
        vec![queue(1, 3, vec![event(1, 1, 11), event(1, 2, 12)]), queue(2, 1, vec![])]
    );
    let mut restored = EventOutbox::from_parts(parts).unwrap();
    assert_eq!(restored.depth(node(1)), 2);
    assert_eq!(restored.head_sequence(node(1)), Some(1));
    assert_eq!(restored.push(node(1), 13), 3);
    assert_eq!(restored.push(node(2), 21), 1);
    assert_eq!(restored.destination_count(), 2);
}

#[test]
fn an_outbox_is_not_made_of_broken_parts() {
    assert!(EventOutbox::from_parts(vec![queue(1, 1, vec![]), queue(1, 0, vec![])]).is_none());
    assert!(EventOutbox::from_parts(vec![queue(1, 1, vec![event(1, 1, 5)])]).is_none());
    assert!(EventOutbox::from_parts(vec![queue(1, 2, vec![event(2, 1, 5)])]).is_none());
    assert!(
        EventOutbox::from_parts(vec![queue(1, 3, vec![event(1, 0, 5), event(1, 2, 6)])]).is_none()
    );
    assert!(EventOutbox::from_parts(vec![queue(1, 0, vec![event(1, 0, 5)])]).is_none());
    assert!(EventOutbox::from_parts(vec![queue(1, 2, vec![event(1, 1, 5)])]).is_some());
    assert!(EventOutbox::<u32>::from_parts(vec![]).is_some());
}

#[test]
fn a_scheduler_comes_back_as_it_was() {
    let mut s = BatchScheduler::new(2, 10, 4).unwrap();
    s.flag(node(1));
    s.flag(node(2));
    s.start(node(1), 0, 5, 3);
    let parts = s.to_parts();
    assert_eq!(parts, scheduler(vec![node(2)], vec![batch(1, 0, 1, true)]));
    let restored = BatchScheduler::from_parts(parts).unwrap();
    assert!(restored.is_in_flight(node(1)));
    assert!(restored.is_ready(node(2)));
    assert_eq!(restored.last_flush(), 4);
}

#[test]
fn a_scheduler_is_not_made_of_broken_parts() {
    let zero = SchedulerSnapshot { max_batch_size: 0, ..scheduler(vec![], vec![]) };
    assert!(BatchScheduler::from_parts(zero).is_none());
    assert!(BatchScheduler::from_parts(scheduler(vec![node(1), node(1)], vec![])).is_none());
    assert!(BatchScheduler::from_parts(scheduler(
        vec![],
        vec![batch(1, 0, 1, false), batch(1, 2, 3, false)]
    ))
    .is_none());
    assert!(BatchScheduler::from_parts(scheduler(vec![], vec![batch(1, 2, 1, false)])).is_none());
    assert!(
        BatchScheduler::from_parts(scheduler(vec![node(1)], vec![batch(1, 0, 1, true)])).is_none()
    );
    assert!(
        BatchScheduler::from_parts(scheduler(vec![node(1)], vec![batch(1, 0, 1, false)])).is_some()
    );
}

#[test]
fn a_worker_is_not_made_of_parts_that_do_not_fit() {
    let parts = |ready: Vec<Principal>, batches: Vec<Batch>| DeliverySnapshot {
        queues: vec![queue(1, 5, vec![event(1, 3, 7), event(1, 4, 8)]), queue(2, 1, vec![])],
        scheduler: scheduler(ready, batches),
        quiesce_upgrading: true,
    };
    assert!(DeliveryWorker::from_parts(parts(vec![node(1)], vec![])).is_some());
    assert!(DeliveryWorker::from_parts(parts(vec![node(2)], vec![])).is_none());
    assert!(DeliveryWorker::from_parts(parts(vec![node(3)], vec![])).is_none());
    assert!(DeliveryWorker::from_parts(parts(vec![], vec![batch(1, 3, 4, true)])).is_some());
    assert!(DeliveryWorker::from_parts(parts(vec![], vec![batch(1, 3, 3, true)])).is_some());
    assert!(DeliveryWorker::from_parts(parts(vec![], vec![batch(1, 3, 5, true)])).is_none());
    assert!(DeliveryWorker::from_parts(parts(vec![], vec![batch(1, 4, 4, true)])).is_none());
    assert!(DeliveryWorker::from_parts(parts(vec![], vec![batch(2, 0, 0, false)])).is_none());
    assert!(DeliveryWorker::from_parts(parts(vec![], vec![batch(1, 0, u64::MAX, true)])).is_none());
}

#[test]
fn upgrade_tasks_are_not_made_of_broken_parts() {
    let parts = |tasks: Vec<UpgradeTask>| UpgradeSnapshot {
        max_concurrent_upgrades: 1,
        retry_ceiling: 2,
        tasks,
    };
    assert!(UpgradeCoordinator::from_parts(parts(vec![
        task(1, 0, UpgradeState::InFlight),
        task(2, 1, UpgradeState::Pending),
        task(3, 2, UpgradeState::Failed)
    ]))
    .is_some());
    assert!(UpgradeCoordinator::from_parts(parts(vec![
        task(1, 0, UpgradeState::Pending),
        task(1, 0, UpgradeState::Pending)
    ]))
    .is_none());
    assert!(UpgradeCoordinator::from_parts(parts(vec![
        task(1, 0, UpgradeState::InFlight),
        task(2, 0, UpgradeState::InFlight)
    ]))
    .is_none());
    assert!(UpgradeCoordinator::from_parts(parts(vec![task(1, 2, UpgradeState::Pending)])).is_none());
    let upgrades =
        UpgradeCoordinator::from_parts(parts(vec![task(1, 1, UpgradeState::Pending)])).unwrap();
    assert_eq!(upgrades.to_parts(), parts(vec![task(1, 1, UpgradeState::Pending)]));
}

#[test]
fn pool_and_registry_need_distinct_nodes() {
    let entry = |n: u8| PoolEntry { node: node(n), provisioned_at: 1, assigned: false };
    let parts = |entries: Vec<PoolEntry>| PoolSnapshot { target_size: 3, provisioning: 1, entries };
    assert!(NodePool::from_parts(parts(vec![entry(1), entry(1)])).is_none());
    let pool = NodePool::from_parts(parts(vec![entry(1), entry(2)])).unwrap();
    assert_eq!(pool.len(), 2);
    assert_eq!(pool.provisioning(), 1);
    assert_eq!(pool.to_parts(), parts(vec![entry(1), entry(2)]));
    let record = |n: u8| Node {
        id: node(n),
        role: NodeRole::Group,
        version: v(1),
        state: NodeState::Active,
    };
    assert!(NodeRegistry::from_parts(vec![record(1), record(2), record(1)]).is_none());
    assert_eq!(NodeRegistry::from_parts(vec![record(1), record(2)]).unwrap().len(), 2);
}

#[test]
fn a_coordinator_is_restored_with_nothing_in_flight() {
    let config = Config {
        max_batch_size: 2,
        flush_interval: 10,
        quiesce_upgrading: false,
        max_concurrent_upgrades: 1,
        retry_ceiling: 3,
        pool_target_size: 1,
    };
    let mut c: Coordinator<u32> = Coordinator::new(config, 0).unwrap();
    for n in 1..=2 {
        c.add_node(Node {
            id: node(n),
            role: NodeRole::Notifications,
            version: v(1),
            state: NodeState::Active,
        });
    }
    c.submit(node(1), 10);
    c.submit(node(1), 11);
    c.submit(node(1), 12);
    c.submit(node(2), 20);
    let sent = c.begin_delivery(node(1), 5).unwrap();
    c.check_versions(v(2));
    c.dispatch_upgrades();
    c.replenish_pool();
    let parts: Snapshot<u32> = c.into_parts();
    assert_eq!(parts.nodes[0].state, NodeState::Upgrading);
    assert_eq!(parts.delivery.queues[0].events.len(), 3);
    assert_eq!(parts.delivery.scheduler.batches, vec![sent]);
    assert_eq!(parts.upgrades.tasks[0].state, UpgradeState::InFlight);
    assert_eq!(parts.pool.provisioning, 1);
    let mut restored = Coordinator::restore(parts).unwrap();
    assert_eq!(restored.node(node(1)).unwrap().state, NodeState::Active);
    assert_eq!(restored.queue_depth(node(1)), 3);
    assert_eq!(restored.queue_depth(node(2)), 1);
    assert_eq!(restored.complete_delivery(node(1), true), None);
    assert_eq!(restored.metrics().upgrades_in_flight, 0);
    assert_eq!(restored.metrics().upgrades_pending, 2);
    assert_eq!(restored.replenish_pool(), 1);
    assert!(restored.poll(10));
    assert_eq!(restored.begin_delivery(node(1), 10), Some(sent));
    assert_eq!(restored.submit(node(1), 13), 3);
    let again = Coordinator::from_parts(restored.into_parts()).unwrap();
    assert!(again.metrics().total_pending_events == 5);
}

#[test]
fn a_node_marked_unreachable_leaves_the_rotation() {
    let config = Config {
        max_batch_size: 2,
        flush_interval: 10,
        quiesce_upgrading: false,
        max_concurrent_upgrades: 1,
        retry_ceiling: 3,
        pool_target_size: 0,
    };
    let mut c: Coordinator<u32> = Coordinator::new(config, 0).unwrap();
    for n in 1..=2 {
        c.add_node(Node {
            id: node(n),
            role: NodeRole::Notifications,
            version: v(1),
            state: NodeState::Active,
        });
    }
    c.check_versions(v(2));
    c.submit(node(2), 1);
    c.poll(10);
    assert!(c.mark_unreachable(node(2)));
    assert!(!c.mark_unreachable(node(3)));
    assert_eq!(c.node(node(2)).unwrap().state, NodeState::Unreachable);
    assert_eq!(c.begin_delivery(node(2), 10), None);
    assert_eq!(c.dispatch_upgrades().len(), 1);
    assert!(c.mark_unreachable(node(1)));
    assert_eq!(c.dispatch_upgrades(), vec![]);
    assert_eq!(c.node(node(1)).unwrap().state, NodeState::Unreachable);
    c.resolve_upgrade(node(1), true);
    assert_eq!(c.node(node(1)).unwrap().state, NodeState::Active);
    assert_eq!(c.dispatch_upgrades(), vec![]);
    c.check_versions(v(2));
    assert_eq!(c.metrics().upgrades_pending, 0);
    assert_eq!(c.metrics().nodes.unreachable, 1);
}

#[test]
fn the_count_of_failed_attempts_stops_at_its_largest_value() {
    let parts = DeliverySnapshot {
        queues: vec![queue(1, 1, vec![event(1, 0, 7)])],
        scheduler: scheduler(
            vec![],
            vec![Batch { attempts: u32::MAX - 1, ..batch(1, 0, 0, true) }],
        ),
        quiesce_upgrading: false,
    };
    let mut worker = DeliveryWorker::from_parts(parts).unwrap();
    assert_eq!(
        worker.complete(node(1), false),
        Some(fleet_coordinator::types::Outcome::Retry { attempts: u32::MAX })
    );
    worker.tick();
    assert!(worker.begin(node(1), Some(NodeState::Active), 9).is_some());
    assert_eq!(
        worker.complete(node(1), false),
        Some(fleet_coordinator::types::Outcome::Retry { attempts: u32::MAX })
    );
    assert_eq!(worker.depth(node(1)), 1);
}

#[test]
fn a_queue_at_the_end_of_its_numbers_takes_no_more() {
    let parts = vec![queue(1, u64::MAX, vec![event(1, u64::MAX - 1, 7)])];
    let mut outbox = EventOutbox::from_parts(parts).unwrap();
    assert!(!outbox.can_push(node(1)));
    assert!(outbox.can_push(node(2)));
    assert_eq!(outbox.next_sequence_of(node(1)), u64::MAX);
    assert_eq!(outbox.next_sequence_of(node(2)), 0);
    outbox.ack(node(1), u64::MAX);
    assert_eq!(outbox.depth(node(1)), 0);
    assert!(!outbox.can_push(node(1)));
}
