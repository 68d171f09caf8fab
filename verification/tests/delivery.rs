use fleet_coordinator::delivery::{is_delivery_allowed, DeliveryWorker};
use fleet_coordinator::outbox::OutboundEvent;
use fleet_coordinator::registry::NodeState;
use fleet_coordinator::scheduler::Batch;
use fleet_coordinator::types::{Outcome, Principal};

fn dest(n: u8) -> Principal {
    Principal::from_slice(&[0, 0, 0, 0, 0, 0, 0, n, 1, 1]).unwrap()
}

fn worker(max_batch_size: usize) -> DeliveryWorker<u32> {
    DeliveryWorker::new(max_batch_size, 10, 0, true).unwrap()
}

fn sent(worker: &DeliveryWorker<u32>, d: Principal) -> Vec<(u64, u32)> {
    worker.batch_events(d).iter().map(|e| (e.sequence, e.payload)).collect()
}

fn pending(worker: &DeliveryWorker<u32>, d: Principal) -> Vec<u64> {
    worker.peek_batch(d, usize::MAX).iter().map(|e| e.sequence).collect()
}

fn snapshot(worker: &DeliveryWorker<u32>, d: Principal) -> Vec<(Principal, u64, u32)> {
    let events: Vec<&OutboundEvent<u32>> = worker.peek_batch(d, usize::MAX);
    events.iter().map(|e| (e.destination, e.sequence, e.payload)).collect()
}

const ACTIVE: Option<NodeState> = Some(NodeState::Active);

#[test]
fn delivery_is_allowed_for_nodes_in_service() {
    assert!(is_delivery_allowed(Some(NodeState::Active), true));
    assert!(is_delivery_allowed(Some(NodeState::Active), false));
    assert!(is_delivery_allowed(Some(NodeState::Upgrading), false));
    assert!(!is_delivery_allowed(Some(NodeState::Upgrading), true));
    assert!(!is_delivery_allowed(Some(NodeState::Provisioning), false));
    assert!(!is_delivery_allowed(Some(NodeState::Unreachable), false));
    assert!(!is_delivery_allowed(Some(NodeState::Retired), false));
    assert!(!is_delivery_allowed(None, false));
}

#[test]
fn a_worker_needs_a_batch_size_of_at_least_one() {
    assert!(DeliveryWorker::<u32>::new(0, 10, 0, false).is_none());
    assert!(worker(1).quiesce_upgrading());
}

#[test]
fn pushing_max_batch_size_events_makes_the_destination_ready() {
    let mut w = worker(1000);
    for i in 0..999 {
        w.submit(dest(1), i);
    }
    assert!(!w.is_ready(dest(1)));
    w.submit(dest(1), 999);
    assert!(w.is_ready(dest(1)));
    assert_eq!(w.ready_count(), 1);
    assert_eq!(w.ready_at(0), dest(1));
    let batch = w.begin(dest(1), ACTIVE, 5).unwrap();
    assert_eq!(batch.first_sequence, 0);
    assert_eq!(batch.last_sequence, 999);
    assert_eq!(w.batch_events(dest(1)).len(), 1000);
}

#[test]
fn one_event_is_flushed_by_the_timer() {
    let mut w = worker(1000);
    w.submit(dest(1), 7);
    assert!(!w.is_ready(dest(1)));
    assert!(!w.poll(9));
    assert!(!w.is_ready(dest(1)));
    assert_eq!(w.begin(dest(1), ACTIVE, 9), None);
    assert!(w.poll(11));
    assert!(w.is_ready(dest(1)));
    let batch = w.begin(dest(1), ACTIVE, 11).unwrap();
    assert_eq!(
        batch,
        Batch {
            destination: dest(1),
            first_sequence: 0,
            last_sequence: 0,
            created_at: 11,
            in_flight: true,
            attempts: 0
        }
    );
    assert_eq!(sent(&w, dest(1)), vec![(0, 7)]);
}

#[test]
fn events_are_delivered_in_order_and_acknowledged_as_whole_batches() {
    let mut w = worker(3);
    for i in 0..5 {
        assert_eq!(w.submit(dest(1), 10 + i), i as u64);
    }
    assert!(w.is_ready(dest(1)));
    let first = w.begin(dest(1), ACTIVE, 1).unwrap();
    assert_eq!((first.first_sequence, first.last_sequence), (0, 2));
    assert_eq!(sent(&w, dest(1)), vec![(0, 10), (1, 11), (2, 12)]);
    assert_eq!(pending(&w, dest(1)), vec![0, 1, 2, 3, 4]);
    assert_eq!(w.complete(dest(1), true), Some(Outcome::Success));
    assert_eq!(pending(&w, dest(1)), vec![3, 4]);
    assert!(!w.is_ready(dest(1)));
    w.tick();
    let second = w.begin(dest(1), ACTIVE, 2).unwrap();
    assert_eq!((second.first_sequence, second.last_sequence), (3, 4));
    assert_eq!(sent(&w, dest(1)), vec![(3, 13), (4, 14)]);
    assert_eq!(w.complete(dest(1), true), Some(Outcome::Success));
    assert_eq!(w.depth(dest(1)), 0);
    assert_eq!(w.total_pending(), 0);
    assert_eq!(sent(&w, dest(1)), vec![]);
}

#[test]
fn a_failed_delivery_loses_nothing_and_is_retried_first() {
    let mut w = worker(2);
    w.submit(dest(1), 1);
    w.submit(dest(1), 2);
    w.submit(dest(1), 3);
    let batch = w.begin(dest(1), ACTIVE, 1).unwrap();
    let before: Vec<(Principal, u64, u32)> = snapshot(&w, dest(1));
    assert_eq!(w.complete(dest(1), false), Some(Outcome::Retry { attempts: 1 }));
    let after: Vec<(Principal, u64, u32)> = snapshot(&w, dest(1));
    assert_eq!(before, after);
    assert!(!w.is_in_flight(dest(1)));
    assert!(!w.is_ready(dest(1)));
    assert_eq!(w.begin(dest(1), ACTIVE, 2), None);
    w.submit(dest(1), 4);
    w.tick();
    let retry = w.begin(dest(1), ACTIVE, 3).unwrap();
    assert_eq!(retry, Batch { attempts: 1, ..batch });
    assert_eq!(sent(&w, dest(1)), vec![(0, 1), (1, 2)]);
    assert_eq!(w.complete(dest(1), false), Some(Outcome::Retry { attempts: 2 }));
    w.tick();
    w.begin(dest(1), ACTIVE, 4).unwrap();
    assert_eq!(w.complete(dest(1), true), Some(Outcome::Success));
    assert_eq!(pending(&w, dest(1)), vec![2, 3]);
    assert!(w.is_ready(dest(1)));
}

#[test]
fn no_second_delivery_starts_while_one_is_in_flight() {
    let mut w = worker(2);
    w.submit(dest(1), 1);
    w.submit(dest(1), 2);
    let batch = w.begin(dest(1), ACTIVE, 1).unwrap();
    assert!(w.is_in_flight(dest(1)));
    assert_eq!(w.begin(dest(1), ACTIVE, 2), None);
    w.submit(dest(1), 3);
    w.submit(dest(1), 4);
    w.submit(dest(1), 5);
    assert!(!w.is_ready(dest(1)));
    w.tick();
    assert!(!w.is_ready(dest(1)));
    assert_eq!(w.begin(dest(1), ACTIVE, 3), None);
    assert_eq!(w.get_batch(dest(1)), Some(batch));
    assert_eq!(sent(&w, dest(1)), vec![(0, 1), (1, 2)]);
    assert_eq!(w.complete(dest(1), true), Some(Outcome::Success));
    assert!(w.is_ready(dest(1)));
    let next = w.begin(dest(1), ACTIVE, 4).unwrap();
    assert_eq!((next.first_sequence, next.last_sequence), (2, 3));
}

#[test]
fn destinations_do_not_wait_for_each_other() {
    let mut w = worker(2);
    w.submit(dest(1), 1);
    w.submit(dest(2), 2);
    w.tick();
    assert!(w.begin(dest(1), ACTIVE, 1).is_some());
    assert!(w.begin(dest(2), ACTIVE, 1).is_some());
    assert_eq!(w.complete(dest(2), true), Some(Outcome::Success));
    assert!(w.is_in_flight(dest(1)));
    assert_eq!(w.depth(dest(1)), 1);
    assert_eq!(w.depth(dest(2)), 0);
}

#[test]
fn a_node_that_may_not_receive_keeps_its_flag() {
    let mut w = worker(1);
    w.submit(dest(1), 1);
    assert_eq!(w.begin(dest(1), Some(NodeState::Upgrading), 1), None);
    assert_eq!(w.begin(dest(1), None, 1), None);
    assert!(w.is_ready(dest(1)));
    assert!(w.begin(dest(1), ACTIVE, 1).is_some());
    let mut lenient: DeliveryWorker<u32> = DeliveryWorker::new(1, 10, 0, false).unwrap();
    lenient.submit(dest(1), 1);
    assert!(lenient.begin(dest(1), Some(NodeState::Upgrading), 1).is_some());
}

#[test]
fn complete_without_a_delivery_in_flight_changes_nothing() {
    let mut w = worker(2);
    w.submit(dest(1), 1);
    assert_eq!(w.complete(dest(1), true), None);
    assert_eq!(w.complete(dest(2), false), None);
    assert_eq!(w.depth(dest(1)), 1);
}

#[test]
fn restart_clears_every_delivery_in_flight() {
    let mut w = worker(2);
    w.submit(dest(1), 1);
    w.submit(dest(1), 2);
    let batch = w.begin(dest(1), ACTIVE, 1).unwrap();
    w.restart();
    assert!(!w.is_in_flight(dest(1)));
    assert_eq!(w.get_batch(dest(1)), Some(Batch { in_flight: false, ..batch }));
    assert_eq!(w.depth(dest(1)), 2);
    assert_eq!(w.complete(dest(1), true), None);
    w.tick();
    assert_eq!(w.begin(dest(1), ACTIVE, 9), Some(batch));
}

#[test]
fn forget_drops_queue_flag_and_batch() {
    let mut w = worker(1);
    w.submit(dest(1), 1);
    w.submit(dest(2), 2);
    w.begin(dest(1), ACTIVE, 1).unwrap();
    w.forget(dest(1));
    w.forget(dest(2));
    assert_eq!(w.depth(dest(1)), 0);
    assert_eq!(w.get_batch(dest(1)), None);
    assert!(!w.is_ready(dest(2)));
    assert_eq!(w.next_sequence_of(dest(1)), 1);
    assert_eq!(w.submit(dest(1), 3), 1);
    assert_eq!(pending(&w, dest(1)), vec![1]);
}
