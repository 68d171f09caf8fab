use fleet_coordinator::principal_set::PrincipalSet;
use fleet_coordinator::registry::{Node, NodeRegistry, NodeRole, NodeState, StateCounts};
use fleet_coordinator::types::{BuildVersion, Principal};

fn node(n: u8) -> Principal {
    Principal::from_slice(&[0, 0, 0, 0, 0, 0, 0, n, 1, 1]).unwrap()
}

fn v(patch: u32) -> BuildVersion {
    BuildVersion::new(1, 0, patch)
}

#[test]
fn register_records_a_node_once_as_provisioning() {
    let mut registry = NodeRegistry::new();
    assert!(registry.register(node(1), NodeRole::Notifications, v(1)));
    assert!(!registry.register(node(1), NodeRole::User, v(2)));
    assert_eq!(registry.len(), 1);
    assert_eq!(
        registry.get(node(1)),
        Some(Node {
            id: node(1),
            role: NodeRole::Notifications,
            version: v(1),
            state: NodeState::Provisioning
        })
    );
    assert_eq!(registry.get(node(2)), None);
    assert!(registry.contains(node(1)));
    assert!(!registry.contains(node(2)));
}

#[test]
fn state_and_version_are_set_for_known_nodes_only() {
    let mut registry = NodeRegistry::new();
    registry.register(node(1), NodeRole::User, v(1));
    registry.register(node(2), NodeRole::User, v(1));
    assert!(registry.set_state(node(1), NodeState::Active));
    assert!(!registry.set_state(node(3), NodeState::Active));
    assert!(registry.set_version(node(2), v(2), NodeState::Upgrading));
    assert!(!registry.set_version(node(3), v(2), NodeState::Active));
    registry.set_state_at(0, NodeState::Retired);
    assert_eq!(registry.node_at(0).state, NodeState::Retired);
    assert_eq!(registry.node_at(0).version, v(1));
    assert_eq!(
        registry.node_at(1),
        Node { id: node(2), role: NodeRole::User, version: v(2), state: NodeState::Upgrading }
    );
    assert_eq!(registry.len(), 2);
    assert_eq!(registry.to_vec(), vec![registry.node_at(0), registry.node_at(1)]);
}

#[test]
fn nodes_are_counted_by_state() {
    let mut registry = NodeRegistry::new();
    for n in 1..=6 {
        registry.register(node(n), NodeRole::StorageBucket, v(1));
    }
    registry.set_state(node(1), NodeState::Active);
    registry.set_state(node(2), NodeState::Active);
    registry.set_state(node(3), NodeState::Upgrading);
    registry.set_state(node(4), NodeState::Unreachable);
    registry.set_state(node(5), NodeState::Retired);
    assert_eq!(registry.count(NodeState::Active), 2);
    assert_eq!(
        registry.state_counts(),
        StateCounts { provisioning: 1, active: 2, upgrading: 1, unreachable: 1, retired: 1 }
    );
}

#[test]
fn a_set_of_principals_holds_each_once() {
    let set = PrincipalSet::from_vec(vec![node(2), node(1), node(2), node(3), node(1)]);
    assert_eq!(set.len(), 3);
    assert_eq!(set.to_vec(), vec![node(2), node(1), node(3)]);
    assert!(set.contains(node(1)));
    assert!(!set.contains(node(4)));
    let mut set = set;
    assert!(!set.insert(node(1)));
    assert!(set.insert(node(4)));
    assert!(set.remove(node(2)));
    assert!(!set.remove(node(2)));
    assert_eq!(set.to_vec(), vec![node(1), node(3), node(4)]);
    assert_eq!(PrincipalSet::new().len(), 0);
}
