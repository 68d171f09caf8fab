use fleet_coordinator::coordinator::{Config, Coordinator, FleetMetrics, Jobs};
use fleet_coordinator::pool::PoolError;
use fleet_coordinator::registry::{Node, NodeRole, NodeState, StateCounts};
use fleet_coordinator::types::{BuildVersion, Outcome, Principal};
use fleet_coordinator::upgrade::{UpgradeState, UpgradeTask};

fn node(n: u8) -> Principal {
    Principal::from_slice(&[0, 0, 0, 0, 0, 0, 0, n, 1, 1]).unwrap()
}

fn v(patch: u32) -> BuildVersion {
    BuildVersion::new(1, 0, patch)
}

fn config() -> Config {
    Config {
        max_batch_size: 3,
        flush_interval: 10,
        quiesce_upgrading: true,
        max_concurrent_upgrades: 2,
        retry_ceiling: 2,
        pool_target_size: 2,
    }
}

fn fleet(nodes: u8) -> Coordinator<u32> {
    let mut c = Coordinator::new(config(), 0).unwrap();
    for n in 1..=nodes {
        assert!(c.add_node(Node {
            id: node(n),
            role: NodeRole::Notifications,
            version: v(1),
            state: NodeState::Active
        }));
    }
    c
}

fn state(c: &Coordinator<u32>, n: u8) -> NodeState {
    c.node(node(n)).unwrap().state
}

fn sent(c: &Coordinator<u32>, n: u8) -> Vec<(u64, u32)> {
    c.batch_events(node(n)).iter().map(|e| (e.sequence, e.payload)).collect()
}

#[test]
fn a_coordinator_needs_a_batch_size_of_at_least_one() {
    assert!(Coordinator::<u32>::new(Config { max_batch_size: 0, ..config() }, 0).is_none());
    let c = fleet(0);
    assert_eq!(
        c.metrics(),
        FleetMetrics {
            total_pending_events: 0,
            destinations_ready: 0,
            pool_size: 0,
            pool_target_size: 2,
            nodes: StateCounts {
                provisioning: 0,
                active: 0,
                upgrading: 0,
                unreachable: 0,
                retired: 0
            },
            upgrades_pending: 0,
            upgrades_in_flight: 0,
            upgrades_failed: 0,
        }
    );
}

#[test]
fn submitted_events_reach_the_node_in_order() {
    let mut c = fleet(2);
    assert_eq!(c.submit(node(1), 10), 0);
    assert_eq!(c.submit(node(1), 11), 1);
    assert_eq!(c.submit(node(2), 20), 0);
    assert_eq!(c.queue_depth(node(1)), 2);
    assert!(!c.sync_required());
    assert_eq!(c.begin_delivery(node(1), 5), None);
    assert!(c.poll(10));
    assert!(c.sync_required());
    let batch = c.begin_delivery(node(1), 10).unwrap();
    assert_eq!((batch.first_sequence, batch.last_sequence, batch.created_at), (0, 1, 10));
    assert_eq!(sent(&c, 1), vec![(0, 10), (1, 11)]);
    assert_eq!(c.complete_delivery(node(1), true), Some(Outcome::Success));
    assert_eq!(c.queue_depth(node(1)), 0);
    assert_eq!(c.queue_depth(node(2)), 1);
    assert_eq!(c.metrics().total_pending_events, 1);
}

#[test]
fn submit_to_all_reaches_every_node_that_is_not_retired() {
    let mut c = fleet(3);
    c.retire(node(2));
    c.submit(node(3), 1);
    c.submit_to_all(&7);
    assert_eq!(c.queue_depth(node(1)), 1);
    assert_eq!(c.queue_depth(node(2)), 0);
    assert_eq!(c.queue_depth(node(3)), 2);
    assert_eq!(c.queue_depth(node(4)), 0);
    c.poll(10);
    c.begin_delivery(node(3), 10).unwrap();
    assert_eq!(sent(&c, 3), vec![(0, 1), (1, 7)]);
    c.begin_delivery(node(1), 10).unwrap();
    assert_eq!(sent(&c, 1), vec![(0, 7)]);
}

#[test]
fn an_unknown_destination_keeps_its_events_until_it_is_in_service() {
    let mut c = fleet(0);
    c.submit(node(1), 1);
    c.poll(10);
    assert_eq!(c.begin_delivery(node(1), 10), None);
    assert!(c.begin_provisioning(node(1), NodeRole::User, v(1)));
    assert_eq!(c.begin_delivery(node(1), 10), None);
    assert!(c.confirm_provisioned(node(1), 11));
    assert!(c.begin_delivery(node(1), 12).is_some());
}

#[test]
fn a_rolling_upgrade_respects_the_bound_and_the_registry_follows() {
    let mut c = fleet(5);
    c.check_versions(v(2));
    assert_eq!(c.metrics().upgrades_pending, 5);
    assert_eq!(
        c.jobs_required(),
        Jobs { replenish_pool: true, deliver: false, dispatch_upgrades: true }
    );
    let dispatched = c.dispatch_upgrades();
    assert_eq!(
        dispatched,
        vec![
            UpgradeTask { node: node(1), target: v(2), attempts: 0, state: UpgradeState::InFlight },
            UpgradeTask { node: node(2), target: v(2), attempts: 0, state: UpgradeState::InFlight }
        ]
    );
    assert_eq!(state(&c, 1), NodeState::Upgrading);
    assert_eq!(state(&c, 2), NodeState::Upgrading);
    assert_eq!(state(&c, 3), NodeState::Active);
    assert_eq!(c.metrics().upgrades_in_flight, 2);
    assert_eq!(c.metrics().upgrades_pending, 3);
    assert!(!c.jobs_required().dispatch_upgrades);
    assert_eq!(c.dispatch_upgrades(), vec![]);
    assert_eq!(c.resolve_upgrade(node(1), true), Some(Outcome::Success));
    assert_eq!(
        c.node(node(1)),
        Some(Node {
            id: node(1),
            role: NodeRole::Notifications,
            version: v(2),
            state: NodeState::Active
        })
    );
    assert_eq!(c.dispatch_upgrades().len(), 1);
    assert_eq!(state(&c, 3), NodeState::Upgrading);
    assert_eq!(c.metrics().upgrades_in_flight, 2);
    assert_eq!(c.metrics().nodes.upgrading, 2);
}

#[test]
fn an_exhausted_upgrade_leaves_the_node_unreachable() {
    let mut c = fleet(1);
    c.check_versions(v(2));
    c.dispatch_upgrades();
    assert_eq!(c.resolve_upgrade(node(1), false), Some(Outcome::Retry { attempts: 1 }));
    assert_eq!(state(&c, 1), NodeState::Active);
    assert_eq!(c.node(node(1)).unwrap().version, v(1));
    assert_eq!(c.dispatch_upgrades().len(), 1);
    assert_eq!(
        c.resolve_upgrade(node(1), false),
        Some(Outcome::DropPermanently { attempts: 2 })
    );
    assert_eq!(state(&c, 1), NodeState::Unreachable);
    assert_eq!(c.metrics().upgrades_failed, 1);
    c.check_versions(v(2));
    assert_eq!(c.dispatch_upgrades(), vec![]);
    assert_eq!(c.resolve_upgrade(node(1), true), None);
    c.submit(node(1), 1);
    c.poll(10);
    assert_eq!(c.begin_delivery(node(1), 10), None);
    assert!(!c.clear_failed_upgrade(node(2)));
    assert!(c.clear_failed_upgrade(node(1)));
    assert_eq!(state(&c, 1), NodeState::Active);
    c.check_versions(v(2));
    assert_eq!(c.dispatch_upgrades().len(), 1);
}

#[test]
fn a_node_under_upgrade_receives_nothing_where_quiescence_is_asked() {
    let mut c = fleet(1);
    c.submit(node(1), 1);
    c.poll(10);
    c.check_versions(v(2));
    c.dispatch_upgrades();
    assert_eq!(c.begin_delivery(node(1), 10), None);
    c.resolve_upgrade(node(1), true);
    assert!(c.begin_delivery(node(1), 11).is_some());
    let mut lenient: Coordinator<u32> =
        Coordinator::new(Config { quiesce_upgrading: false, ..config() }, 0).unwrap();
    lenient.add_node(Node {
        id: node(1),
        role: NodeRole::User,
        version: v(1),
        state: NodeState::Active,
    });
    lenient.submit(node(1), 1);
    lenient.poll(10);
    lenient.check_versions(v(2));
    lenient.dispatch_upgrades();
    assert!(lenient.begin_delivery(node(1), 10).is_some());
}

#[test]
fn the_pool_is_replenished_and_allocates_oldest_first() {
    let mut c = fleet(0);
    assert_eq!(c.allocate(), Err(PoolError::PoolExhausted));
    assert_eq!(c.replenish_pool(), 2);
    assert_eq!(c.replenish_pool(), 0);
    assert!(!c.confirm_provisioned(node(1), 1));
    assert!(c.begin_provisioning(node(1), NodeRole::User, v(1)));
    assert!(!c.begin_provisioning(node(1), NodeRole::User, v(1)));
    assert_eq!(state(&c, 1), NodeState::Provisioning);
    assert!(c.confirm_provisioned(node(1), 5));
    assert!(!c.confirm_provisioned(node(1), 6));
    assert_eq!(state(&c, 1), NodeState::Active);
    assert!(c.begin_provisioning(node(2), NodeRole::User, v(1)));
    c.provisioning_failed(Some(node(2)));
    assert_eq!(state(&c, 2), NodeState::Retired);
    assert_eq!(c.replenish_pool(), 1);
    assert!(c.begin_provisioning(node(3), NodeRole::User, v(1)));
    assert!(c.confirm_provisioned(node(3), 7));
    assert_eq!(c.metrics().pool_size, 2);
    assert!(!c.jobs_required().replenish_pool);
    assert_eq!(c.allocate(), Ok(node(1)));
    assert_eq!(c.allocate(), Ok(node(3)));
    assert_eq!(c.allocate(), Err(PoolError::PoolExhausted));
    assert_eq!(c.replenish_pool(), 2);
    c.provisioning_failed(None);
    assert_eq!(c.replenish_pool(), 1);
}

#[test]
fn a_retired_node_leaves_every_queue() {
    let mut c = fleet(2);
    c.submit(node(1), 1);
    c.submit(node(2), 2);
    c.poll(10);
    c.begin_delivery(node(1), 10).unwrap();
    c.check_versions(v(2));
    c.retire(node(1));
    assert_eq!(state(&c, 1), NodeState::Retired);
    assert_eq!(c.queue_depth(node(1)), 0);
    assert_eq!(c.complete_delivery(node(1), true), None);
    assert_eq!(c.dispatch_upgrades().len(), 1);
    assert_eq!(c.queue_depth(node(2)), 1);
    assert_eq!(c.metrics().nodes.retired, 1);
    assert_eq!(c.nodes().len(), 2);
    assert_eq!(c.next_sequence(node(1)), 1);
    assert_eq!(c.submit(node(1), 9), 1);
}

#[test]
fn a_push_leaves_the_flush_timer_alone() {
    let mut c = fleet(1);
    assert!(!c.poll(9));
    c.submit(node(1), 1);
    c.submit_to_all(&2);
    assert!(!c.poll(9));
    assert!(c.poll(10));
    c.begin_delivery(node(1), 12).unwrap();
    c.complete_delivery(node(1), true);
    c.submit(node(1), 3);
    assert!(!c.poll(19));
    assert_eq!(c.next_sequence(node(1)), 3);
    assert!(c.poll(20));
    assert!(c.begin_delivery(node(1), 20).is_some());
}

#[test]
fn a_restart_leaves_nothing_in_flight() {
    let mut c = fleet(3);
    c.submit(node(1), 1);
    c.poll(10);
    let batch = c.begin_delivery(node(1), 10).unwrap();
    c.check_versions(v(2));
    c.dispatch_upgrades();
    c.replenish_pool();
    c.restart();
    assert_eq!(c.metrics().upgrades_in_flight, 0);
    assert_eq!(c.metrics().upgrades_pending, 3);
    assert_eq!(c.metrics().nodes.upgrading, 0);
    assert_eq!(c.metrics().nodes.active, 3);
    assert_eq!(c.complete_delivery(node(1), true), None);
    assert_eq!(c.queue_depth(node(1)), 1);
    assert_eq!(c.replenish_pool(), 2);
    c.poll(20);
    assert_eq!(c.begin_delivery(node(1), 20), Some(batch));
    assert_eq!(c.dispatch_upgrades().len(), 2);
}

#[test]
fn room_for_events_is_told_before_they_are_submitted() {
    let mut c = fleet(2);
    assert!(c.can_submit(node(1)));
    assert!(c.can_submit(node(9)));
    assert!(c.can_submit_to_all());
    assert_eq!(c.next_sequence(node(1)), 0);
    c.submit(node(1), 5);
    assert_eq!(c.next_sequence(node(1)), 1);
    assert_eq!(c.peek_batch(node(1), 4).len(), 1);
    assert_eq!(c.peek_batch(node(2), 4).len(), 0);
}
