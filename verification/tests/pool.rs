use fleet_coordinator::pool::{NodePool, PoolError};
use fleet_coordinator::types::Principal;

fn node(n: u8) -> Principal {
    Principal::from_slice(&[0, 0, 0, 0, 0, 0, 0, n, 1, 1]).unwrap()
}

#[test]
fn allocate_hands_out_oldest_first() {
    let mut pool = NodePool::new(2);
    assert!(pool.provisioned(node(1), 100));
    assert!(pool.provisioned(node(2), 200));
    assert_eq!(pool.allocate(), Ok(node(1)));
    assert_eq!(pool.allocate(), Ok(node(2)));
    assert_eq!(pool.allocate(), Err(PoolError::PoolExhausted));
}

#[test]
fn an_empty_pool_is_exhausted() {
    let mut pool = NodePool::new(3);
    assert_eq!(pool.allocate(), Err(PoolError::PoolExhausted));
    assert_eq!(pool.len(), 0);
    assert!(!pool.is_full());
    assert_eq!(pool.target_size(), 3);
    assert!(NodePool::new(0).is_full());
}

#[test]
fn the_check_asks_for_the_deficit_once() {
    let mut pool = NodePool::new(3);
    assert_eq!(pool.missing(), 3);
    assert_eq!(pool.replenish(), 3);
    assert_eq!(pool.provisioning(), 3);
    assert_eq!(pool.replenish(), 0);
    assert!(pool.provisioned(node(1), 1));
    assert_eq!(pool.provisioning(), 2);
    assert_eq!(pool.replenish(), 0);
    pool.provisioning_failed();
    assert_eq!(pool.provisioning(), 1);
    assert_eq!(pool.replenish(), 1);
    assert_eq!(pool.provisioning(), 2);
}

#[test]
fn removing_nodes_from_a_full_pool_is_made_good() {
    let mut pool = NodePool::new(3);
    assert_eq!(pool.replenish(), 3);
    for n in 1..=3 {
        assert!(pool.provisioned(node(n), n as u64));
    }
    assert!(pool.is_full());
    assert_eq!(pool.replenish(), 0);
    assert_eq!(pool.allocate(), Ok(node(1)));
    assert_eq!(pool.allocate(), Ok(node(2)));
    assert_eq!(pool.len(), 1);
    assert!(!pool.is_full());
    assert_eq!(pool.replenish(), 2);
    assert!(pool.provisioned(node(4), 4));
    assert!(!pool.is_full());
    assert!(pool.provisioned(node(5), 5));
    assert!(pool.is_full());
    assert_eq!(pool.len(), 3);
    assert_eq!(pool.provisioning(), 0);
    assert_eq!(pool.allocate(), Ok(node(3)));
    assert_eq!(pool.allocate(), Ok(node(4)));
}

#[test]
fn a_node_joins_the_pool_once() {
    let mut pool = NodePool::new(2);
    assert!(pool.provisioned(node(1), 1));
    assert!(!pool.provisioned(node(1), 2));
    assert_eq!(pool.len(), 1);
    assert_eq!(pool.allocate(), Ok(node(1)));
    assert!(!pool.provisioned(node(1), 3));
    assert_eq!(pool.len(), 0);
}

#[test]
fn a_retired_node_leaves_the_bookkeeping() {
    let mut pool = NodePool::new(2);
    pool.provisioned(node(1), 1);
    pool.provisioned(node(2), 2);
    assert!(pool.remove(node(1)));
    assert!(!pool.remove(node(1)));
    assert_eq!(pool.len(), 1);
    assert_eq!(pool.allocate(), Ok(node(2)));
    assert!(pool.remove(node(2)));
    assert!(pool.provisioned(node(2), 3));
    assert_eq!(pool.allocate(), Ok(node(2)));
}

#[test]
fn restart_forgets_requests_under_way() {
    let mut pool = NodePool::new(2);
    pool.provisioned(node(1), 1);
    assert_eq!(pool.replenish(), 1);
    pool.restart();
    assert_eq!(pool.provisioning(), 0);
    assert_eq!(pool.len(), 1);
    assert_eq!(pool.replenish(), 1);
}
