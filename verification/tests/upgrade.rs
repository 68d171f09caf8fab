use fleet_coordinator::registry::{Node, NodeRegistry, NodeRole, NodeState};
use fleet_coordinator::types::{BuildVersion, Outcome, Principal};
use fleet_coordinator::upgrade::{UpgradeCoordinator, UpgradeState, UpgradeTask};

fn node(n: u8) -> Principal {
    Principal::from_slice(&[0, 0, 0, 0, 0, 0, 0, n, 1, 1]).unwrap()
}

fn v(patch: u32) -> BuildVersion {
    BuildVersion::new(1, 0, patch)
}

fn pending(n: u8) -> UpgradeTask {
    UpgradeTask { node: node(n), target: v(2), attempts: 0, state: UpgradeState::Pending }
}

fn registry_of(count: u8, version: BuildVersion) -> NodeRegistry {
    let mut registry = NodeRegistry::new();
    for n in 1..=count {
        assert!(registry.insert(Node {
            id: node(n),
            role: NodeRole::User,
            version,
            state: NodeState::Active
        }));
    }
    registry
}

#[test]
fn the_sufficiency_check_creates_a_task_per_outdated_node() {
    let mut registry = registry_of(3, v(1));
    registry.set_version(node(2), v(2), NodeState::Active);
    registry.set_state(node(3), NodeState::Unreachable);
    let mut upgrades = UpgradeCoordinator::new(2, 3);
    upgrades.check_versions(&registry, v(2));
    assert_eq!(upgrades.get_task(node(1)), Some(pending(1)));
    assert_eq!(upgrades.get_task(node(2)), None);
    assert_eq!(upgrades.get_task(node(3)), None);
    upgrades.check_versions(&registry, v(2));
    assert_eq!(upgrades.count(UpgradeState::Pending), 1);
}

#[test]
fn the_sufficiency_check_refreshes_pending_tasks_only() {
    let registry = registry_of(3, v(1));
    let mut upgrades = UpgradeCoordinator::new(1, 1);
    upgrades.check_versions(&registry, v(2));
    let dispatched = upgrades.dispatch();
    assert_eq!(dispatched.len(), 1);
    upgrades.check_versions(&registry, v(3));
    assert_eq!(upgrades.get_task(node(1)).unwrap().target, v(2));
    assert_eq!(upgrades.get_task(node(2)).unwrap().target, v(3));
    assert_eq!(upgrades.get_task(node(3)).unwrap().target, v(3));
    assert_eq!(upgrades.resolve(node(1), false), Some(Outcome::DropPermanently { attempts: 1 }));
    upgrades.check_versions(&registry, v(4));
    assert_eq!(upgrades.get_task(node(1)).unwrap().target, v(2));
    assert_eq!(upgrades.get_task(node(1)).unwrap().state, UpgradeState::Failed);
}

#[test]
fn at_most_two_of_five_upgrades_are_in_flight() {
    let registry = registry_of(5, v(1));
    let mut upgrades = UpgradeCoordinator::new(2, 3);
    upgrades.check_versions(&registry, v(2));
    assert_eq!(upgrades.count(UpgradeState::Pending), 5);
    let first = upgrades.dispatch();
    assert_eq!(
        first,
        vec![
            UpgradeTask { state: UpgradeState::InFlight, ..pending(1) },
            UpgradeTask { state: UpgradeState::InFlight, ..pending(2) }
        ]
    );
    assert_eq!(upgrades.count(UpgradeState::InFlight), 2);
    assert_eq!(upgrades.count(UpgradeState::Pending), 3);
    assert_eq!(upgrades.dispatch(), vec![]);
    assert_eq!(upgrades.count(UpgradeState::InFlight), 2);
    assert_eq!(upgrades.resolve(node(2), true), Some(Outcome::Success));
    assert_eq!(upgrades.get_task(node(2)), None);
    let second = upgrades.dispatch();
    assert_eq!(second, vec![UpgradeTask { state: UpgradeState::InFlight, ..pending(3) }]);
    assert_eq!(upgrades.count(UpgradeState::InFlight), 2);
    assert_eq!(upgrades.count(UpgradeState::Pending), 2);
}

#[test]
fn a_failed_install_is_retried_until_the_ceiling() {
    let registry = registry_of(2, v(1));
    let mut upgrades = UpgradeCoordinator::new(2, 3);
    upgrades.check_versions(&registry, v(2));
    upgrades.dispatch();
    assert_eq!(upgrades.resolve(node(1), false), Some(Outcome::Retry { attempts: 1 }));
    assert_eq!(
        upgrades.get_task(node(1)),
        Some(UpgradeTask { attempts: 1, ..pending(1) })
    );
    assert_eq!(upgrades.dispatch().len(), 1);
    assert_eq!(upgrades.resolve(node(1), false), Some(Outcome::Retry { attempts: 2 }));
    assert_eq!(upgrades.dispatch().len(), 1);
    assert_eq!(upgrades.resolve(node(1), false), Some(Outcome::DropPermanently { attempts: 3 }));
    assert_eq!(
        upgrades.get_task(node(1)),
        Some(UpgradeTask { attempts: 3, state: UpgradeState::Failed, ..pending(1) })
    );
    assert_eq!(upgrades.count(UpgradeState::Failed), 1);
    assert_eq!(upgrades.resolve(node(2), true), Some(Outcome::Success));
    assert_eq!(upgrades.dispatch(), vec![]);
    assert_eq!(upgrades.dispatch(), vec![]);
    assert_eq!(upgrades.count(UpgradeState::Failed), 1);
    assert_eq!(upgrades.resolve(node(1), true), None);
}

#[test]
fn a_ceiling_of_zero_gives_up_at_the_first_failure() {
    let registry = registry_of(1, v(1));
    let mut upgrades = UpgradeCoordinator::new(1, 0);
    assert_eq!(upgrades.retry_ceiling(), 0);
    assert_eq!(upgrades.max_concurrent_upgrades(), 1);
    upgrades.check_versions(&registry, v(2));
    assert_eq!(upgrades.dispatch().len(), 1);
    assert_eq!(upgrades.resolve(node(1), false), Some(Outcome::DropPermanently { attempts: 1 }));
}

#[test]
fn without_a_slot_nothing_is_dispatched() {
    let registry = registry_of(2, v(1));
    let mut upgrades = UpgradeCoordinator::new(0, 3);
    upgrades.check_versions(&registry, v(2));
    assert_eq!(upgrades.dispatch(), vec![]);
    assert_eq!(upgrades.count(UpgradeState::Pending), 2);
}

#[test]
fn resolve_needs_a_task_in_flight() {
    let registry = registry_of(1, v(1));
    let mut upgrades = UpgradeCoordinator::new(1, 3);
    assert_eq!(upgrades.resolve(node(1), true), None);
    upgrades.check_versions(&registry, v(2));
    assert_eq!(upgrades.resolve(node(1), true), None);
    assert_eq!(upgrades.get_task(node(1)), Some(pending(1)));
}

#[test]
fn an_operator_clears_a_failed_task() {
    let registry = registry_of(2, v(1));
    let mut upgrades = UpgradeCoordinator::new(2, 1);
    upgrades.check_versions(&registry, v(2));
    upgrades.dispatch();
    upgrades.resolve(node(1), false);
    assert!(!upgrades.clear_failed(node(2)));
    assert!(!upgrades.clear_failed(node(3)));
    assert!(upgrades.clear_failed(node(1)));
    assert_eq!(upgrades.get_task(node(1)), None);
    upgrades.check_versions(&registry, v(2));
    assert_eq!(upgrades.get_task(node(1)), Some(pending(1)));
    upgrades.forget(node(2));
    assert_eq!(upgrades.get_task(node(2)), None);
}

#[test]
fn restart_makes_tasks_in_flight_pending_again() {
    let registry = registry_of(3, v(1));
    let mut upgrades = UpgradeCoordinator::new(2, 3);
    upgrades.check_versions(&registry, v(2));
    upgrades.dispatch();
    upgrades.resolve(node(1), false);
    upgrades.dispatch();
    upgrades.restart();
    assert_eq!(upgrades.count(UpgradeState::InFlight), 0);
    assert_eq!(upgrades.count(UpgradeState::Pending), 3);
    assert_eq!(upgrades.get_task(node(1)).unwrap().attempts, 1);
    assert_eq!(upgrades.dispatch().len(), 2);
}

#[test]
fn require_asks_for_an_upgrade_of_one_node() {
    let mut upgrades = UpgradeCoordinator::new(1, 3);
    upgrades.require(node(9), v(5));
    assert_eq!(
        upgrades.get_task(node(9)),
        Some(UpgradeTask { node: node(9), target: v(5), attempts: 0, state: UpgradeState::Pending })
    );
    upgrades.require(node(9), v(6));
    assert_eq!(upgrades.get_task(node(9)).unwrap().target, v(6));
    assert_eq!(upgrades.count(UpgradeState::Pending), 1);
}
