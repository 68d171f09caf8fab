use fleet_coordinator::outbox::{EventOutbox, OutboundEvent};
use fleet_coordinator::types::Principal;

fn dest(n: u8) -> Principal {
    Principal::from_slice(&[0, 0, 0, 0, 0, 0, 0, n, 1, 1]).unwrap()
}

fn sequences(batch: &Vec<&OutboundEvent<&'static str>>) -> Vec<u64> {
    batch.iter().map(|e| e.sequence).collect()
}

#[test]
fn push_assigns_increasing_sequence_numbers_per_destination() {
    let mut outbox: EventOutbox<&'static str> = EventOutbox::new();
    assert_eq!(outbox.push(dest(1), "a"), 0);
    assert_eq!(outbox.push(dest(1), "b"), 1);
    assert_eq!(outbox.push(dest(2), "x"), 0);
    assert_eq!(outbox.push(dest(1), "c"), 2);
    assert_eq!(outbox.depth(dest(1)), 3);
    assert_eq!(outbox.depth(dest(2)), 1);
    assert_eq!(outbox.depth(dest(3)), 0);
    assert_eq!(outbox.destination_count(), 2);
    assert_eq!(outbox.destination_at(0), dest(1));
    assert_eq!(outbox.destination_at(1), dest(2));
    assert_eq!(outbox.total_pending(), 4);
}

#[test]
fn peek_batch_returns_the_head_without_removing_it() {
    let mut outbox: EventOutbox<&'static str> = EventOutbox::new();
    outbox.push(dest(1), "a");
    outbox.push(dest(1), "b");
    outbox.push(dest(1), "c");
    {
        let batch = outbox.peek_batch(dest(1), 2);
        assert_eq!(batch.len(), 2);
        assert_eq!(
            *batch[0],
            OutboundEvent { destination: dest(1), sequence: 0, payload: "a" }
        );
        assert_eq!(
            *batch[1],
            OutboundEvent { destination: dest(1), sequence: 1, payload: "b" }
        );
    }
    assert_eq!(outbox.depth(dest(1)), 3);
    assert_eq!(sequences(&outbox.peek_batch(dest(1), 10)), vec![0, 1, 2]);
    assert_eq!(outbox.peek_batch(dest(1), 0).len(), 0);
}

#[test]
fn peek_batch_on_an_empty_destination_is_empty() {
    let mut outbox: EventOutbox<&'static str> = EventOutbox::new();
    assert_eq!(outbox.peek_batch(dest(1), 10).len(), 0);
    assert_eq!(outbox.peek_batch(dest(1), 10).len(), 0);
    outbox.push(dest(1), "a");
    outbox.ack(dest(1), 0);
    assert_eq!(outbox.peek_batch(dest(1), 10).len(), 0);
    assert_eq!(outbox.depth(dest(1)), 0);
    assert_eq!(outbox.head_sequence(dest(1)), None);
}

#[test]
fn ack_removes_exactly_the_acknowledged_head() {
    let mut outbox: EventOutbox<&'static str> = EventOutbox::new();
    for payload in ["a", "b", "c", "d", "e"] {
        outbox.push(dest(1), payload);
    }
    outbox.push(dest(2), "x");
    outbox.ack(dest(1), 1);
    assert_eq!(sequences(&outbox.peek_batch(dest(1), 10)), vec![2, 3, 4]);
    assert_eq!(outbox.head_sequence(dest(1)), Some(2));
    assert_eq!(outbox.depth(dest(2)), 1);
    outbox.ack(dest(1), 1);
    assert_eq!(sequences(&outbox.peek_batch(dest(1), 10)), vec![2, 3, 4]);
    outbox.ack(dest(1), 100);
    assert_eq!(outbox.depth(dest(1)), 0);
    assert_eq!(outbox.push(dest(1), "f"), 5);
    outbox.ack(dest(3), 7);
    assert_eq!(outbox.total_pending(), 2);
}

#[test]
fn requeue_changes_nothing() {
    let mut outbox: EventOutbox<&'static str> = EventOutbox::new();
    outbox.push(dest(1), "a");
    outbox.push(dest(1), "b");
    outbox.requeue(dest(1));
    outbox.requeue(dest(2));
    assert_eq!(sequences(&outbox.peek_batch(dest(1), 10)), vec![0, 1]);
    assert_eq!(outbox.destination_count(), 1);
}

#[test]
fn discard_drops_the_events_and_keeps_the_counter() {
    let mut outbox: EventOutbox<&'static str> = EventOutbox::new();
    outbox.push(dest(1), "a");
    outbox.push(dest(2), "x");
    outbox.push(dest(2), "y");
    outbox.push(dest(3), "z");
    outbox.discard(dest(2));
    outbox.discard(dest(4));
    assert_eq!(outbox.depth(dest(2)), 0);
    assert_eq!(outbox.destination_count(), 3);
    assert_eq!(outbox.destination_at(1), dest(2));
    assert_eq!(outbox.depth(dest(1)), 1);
    assert_eq!(outbox.depth(dest(3)), 1);
    assert_eq!(outbox.next_sequence_of(dest(2)), 2);
    assert_eq!(outbox.push(dest(2), "w"), 2);
    assert_eq!(sequences(&outbox.peek_batch(dest(2), 10)), vec![2]);
}
