use fleet_coordinator::outbox::EventOutbox;
use fleet_coordinator::scheduler::{Batch, BatchScheduler, DEFAULT_MAX_BATCH_SIZE};
use fleet_coordinator::types::{Outcome, Principal};

fn dest(n: u8) -> Principal {
    Principal::from_slice(&[0, 0, 0, 0, 0, 0, 0, n, 1, 1]).unwrap()
}

#[test]
fn the_default_batch_size_is_a_thousand() {
    assert_eq!(DEFAULT_MAX_BATCH_SIZE, 1000);
}

#[test]
fn a_scheduler_needs_a_batch_size_of_at_least_one() {
    assert!(BatchScheduler::new(0, 10, 0).is_none());
    let s = BatchScheduler::new(1, 10, 5).unwrap();
    assert_eq!(s.max_batch_size(), 1);
    assert_eq!(s.flush_interval(), 10);
    assert_eq!(s.last_flush(), 5);
    assert_eq!(s.ready_count(), 0);
}

#[test]
fn note_push_flags_a_queue_that_reached_the_batch_size() {
    let mut s = BatchScheduler::new(3, 10, 0).unwrap();
    s.note_push(dest(1), 2);
    assert!(!s.is_ready(dest(1)));
    s.note_push(dest(1), 3);
    assert!(s.is_ready(dest(1)));
    s.note_push(dest(1), 4);
    assert_eq!(s.ready_count(), 1);
    assert_eq!(s.ready_at(0), dest(1));
}

#[test]
fn tick_flags_every_destination_with_pending_events() {
    let mut outbox: EventOutbox<u8> = EventOutbox::new();
    outbox.push(dest(1), 1);
    outbox.push(dest(2), 2);
    outbox.push(dest(3), 3);
    outbox.ack(dest(2), 0);
    let mut s = BatchScheduler::new(100, 10, 0).unwrap();
    s.tick(&outbox);
    assert!(s.is_ready(dest(1)));
    assert!(!s.is_ready(dest(2)));
    assert!(s.is_ready(dest(3)));
    assert_eq!(s.ready_count(), 2);
    s.tick(&outbox);
    assert_eq!(s.ready_count(), 2);
}

#[test]
fn poll_fires_once_the_interval_has_passed() {
    let mut outbox: EventOutbox<u8> = EventOutbox::new();
    outbox.push(dest(1), 1);
    let mut s = BatchScheduler::new(100, 10, 1000).unwrap();
    assert!(!s.poll(&outbox, 1009));
    assert!(!s.is_ready(dest(1)));
    assert_eq!(s.last_flush(), 1000);
    assert!(!s.poll(&outbox, 999));
    assert!(s.poll(&outbox, 1010));
    assert!(s.is_ready(dest(1)));
    assert_eq!(s.last_flush(), 1010);
    assert!(!s.poll(&outbox, 1019));
    assert!(s.poll(&outbox, 1020));
}

#[test]
fn start_forms_a_batch_of_at_most_the_batch_size() {
    let mut s = BatchScheduler::new(3, 10, 0).unwrap();
    s.flag(dest(1));
    let batch = s.start(dest(1), 7, 5, 42).unwrap();
    assert_eq!(
        batch,
        Batch {
            destination: dest(1),
            first_sequence: 7,
            last_sequence: 9,
            created_at: 42,
            in_flight: true,
            attempts: 0
        }
    );
    assert!(s.is_in_flight(dest(1)));
    assert!(!s.is_ready(dest(1)));
    assert_eq!(s.get_batch(dest(1)), Some(batch));
    s.flag(dest(2));
    let small = s.start(dest(2), 0, 2, 43).unwrap();
    assert_eq!(s.start(dest(2), 0, 2, 44), None);
    assert_eq!(s.start(dest(3), 0, 2, 44), None);
    s.flag(dest(3));
    assert_eq!(s.start(dest(3), 0, 0, 44), None);
    assert_eq!(s.start(dest(3), u64::MAX, 2, 44), None);
    assert!(s.is_ready(dest(3)));
    assert_eq!(s.start(dest(3), u64::MAX, 1, 44).unwrap().last_sequence, u64::MAX);
    assert_eq!(small.last_sequence, 1);
}

#[test]
fn a_destination_in_flight_is_not_flagged() {
    let mut s = BatchScheduler::new(3, 10, 0).unwrap();
    s.flag(dest(1));
    s.start(dest(1), 0, 3, 1);
    s.flag(dest(1));
    s.note_push(dest(1), 10);
    assert!(!s.is_ready(dest(1)));
    assert_eq!(s.ready_count(), 0);
}

#[test]
fn finish_after_a_failure_keeps_the_batch_for_a_retry() {
    let mut s = BatchScheduler::new(3, 10, 0).unwrap();
    assert_eq!(s.finish(dest(1), true, 0), None);
    s.flag(dest(1));
    let first = s.start(dest(1), 0, 5, 1).unwrap();
    assert_eq!(s.finish(dest(1), false, 5), Some(Outcome::Retry { attempts: 1 }));
    assert!(!s.is_in_flight(dest(1)));
    assert!(!s.is_ready(dest(1)));
    assert_eq!(s.finish(dest(1), false, 5), None);
    s.flag(dest(1));
    let again = s.start(dest(1), 0, 6, 99).unwrap();
    assert_eq!(again, Batch { attempts: 1, ..first });
    assert_eq!(s.finish(dest(1), false, 6), Some(Outcome::Retry { attempts: 2 }));
}

#[test]
fn finish_after_a_delivery_looks_at_the_destination_again() {
    let mut s = BatchScheduler::new(3, 10, 0).unwrap();
    s.flag(dest(1));
    s.start(dest(1), 0, 7, 1);
    assert_eq!(s.finish(dest(1), true, 4), Some(Outcome::Success));
    assert_eq!(s.get_batch(dest(1)), None);
    assert!(s.is_ready(dest(1)));
    s.start(dest(1), 3, 4, 2);
    assert_eq!(s.finish(dest(1), true, 1), Some(Outcome::Success));
    assert!(!s.is_ready(dest(1)));
}

#[test]
fn clear_in_flight_and_forget() {
    let mut s = BatchScheduler::new(3, 10, 0).unwrap();
    s.flag(dest(1));
    s.flag(dest(2));
    let b = s.start(dest(1), 0, 2, 1).unwrap();
    s.clear_in_flight();
    assert!(!s.is_in_flight(dest(1)));
    assert_eq!(s.get_batch(dest(1)), Some(Batch { in_flight: false, ..b }));
    assert!(s.is_ready(dest(2)));
    s.forget(dest(1));
    s.forget(dest(2));
    assert_eq!(s.get_batch(dest(1)), None);
    assert_eq!(s.ready_count(), 0);
}
