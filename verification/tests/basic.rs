use std::collections::HashSet;

use keywatch::inner::{Inner, Polled};
use keywatch::{TryRecvError, Update};

type Channel = Inner<&'static str, i32>;
type Event = (&'static str, Update<i32>);

const MS: u128 = 1_000_000;

fn channel(cooldown: u128) -> Channel {
    Inner::new(HashSet::new(), cooldown)
}

fn recv_at(channel: &mut Channel, now: u128) -> Option<Event> {
    match channel.poll_recv_at(now) {
        Polled::Ready(event) => Some(event),
        Polled::Finished => None,
        Polled::Wait(_) => panic!("nothing to receive"),
    }
}

#[test]
fn add_and_recv_basic() {
    let mut ch = channel(0);
    ch.send_at(0, "a", Update::Add(1)).unwrap();
    assert_eq!(ch.try_recv_at(0).unwrap(), ("a", Update::Add(1)));
    assert!(matches!(ch.try_recv_at(0), Err(TryRecvError::Empty)));
}

#[test]
fn delete_updates_state() {
    let mut ch = channel(0);
    ch.send_at(0, "k", Update::Add(10)).unwrap();
    assert_eq!(recv_at(&mut ch, 1), Some(("k", Update::Add(10))));
    ch.send_at(2, "k", Update::Delete).unwrap();
    assert_eq!(recv_at(&mut ch, 3), Some(("k", Update::Delete)));
}

#[test]
fn clear_generates_deletes_for_existing_keys() {
    let mut ch = channel(0);
    ch.send_at(0, "a", Update::Add(1)).unwrap();
    ch.send_at(0, "b", Update::Add(2)).unwrap();
    let mut seen = vec![recv_at(&mut ch, 1).unwrap(), recv_at(&mut ch, 1).unwrap()];
    seen.sort_by_key(|(k, _)| *k);
    assert_eq!(seen, vec![("a", Update::Add(1)), ("b", Update::Add(2))]);
    ch.clear_at(2).unwrap();
    let mut deletes = vec![recv_at(&mut ch, 3).unwrap(), recv_at(&mut ch, 3).unwrap()];
    deletes.sort_by_key(|(k, _)| *k);
    assert_eq!(deletes, vec![("a", Update::Delete), ("b", Update::Delete)]);
}

#[test]
fn cooldown_coalesces_updates_until_sent() {
    let mut ch = channel(50 * MS);
    ch.send_at(0, "k", Update::Add(1)).unwrap();
    assert_eq!(recv_at(&mut ch, 0), Some(("k", Update::Add(1))));
    ch.send_at(0, "k", Update::Add(2)).unwrap();
    assert!(matches!(ch.try_recv_at(0), Err(TryRecvError::Empty)));
    assert!(matches!(ch.try_recv_at(50 * MS - 1), Err(TryRecvError::Empty)));
    assert_eq!(recv_at(&mut ch, 60 * MS), Some(("k", Update::Add(2))));
}

#[test]
fn delete_during_cooldown_supersedes_pending_add() {
    let mut ch = channel(50 * MS);
    ch.send_at(0, "k", Update::Add(1)).unwrap();
    assert_eq!(recv_at(&mut ch, 0), Some(("k", Update::Add(1))));
    ch.send_at(1, "k", Update::Add(2)).unwrap();
    ch.send_at(2, "k", Update::Delete).unwrap();
    assert_eq!(recv_at(&mut ch, 60 * MS), Some(("k", Update::Delete)));
    assert!(matches!(ch.try_recv_at(60 * MS), Err(TryRecvError::Empty)));
}

#[test]
fn disconnect_behavior() {
    let mut ch = channel(0);
    ch.close();
    assert!(matches!(ch.try_recv_at(0), Err(TryRecvError::Disconnected)));
}

#[test]
fn add_then_delete_before_receive_results_in_no_event() {
    let mut ch = channel(0);
    ch.send_at(0, "k", Update::Add(1)).unwrap();
    ch.send_at(0, "k", Update::Delete).unwrap();
    assert!(matches!(ch.try_recv_at(0), Err(TryRecvError::Empty)));
    assert!(matches!(ch.poll_recv_at(20 * MS), Polled::Wait(None)));
}

#[test]
fn delete_then_add_before_receive_results_in_add_only() {
    let mut ch = channel(0);
    ch.send_at(0, "k", Update::Add(1)).unwrap();
    assert_eq!(recv_at(&mut ch, 0), Some(("k", Update::Add(1))));
    ch.send_at(1, "k", Update::Delete).unwrap();
    ch.send_at(1, "k", Update::Add(42)).unwrap();
    assert_eq!(ch.try_recv_at(1).unwrap(), ("k", Update::Add(42)));
    assert!(matches!(ch.try_recv_at(1), Err(TryRecvError::Empty)));
    assert!(matches!(ch.poll_recv_at(20 * MS), Polled::Wait(None)));
}

#[test]
fn delete_twice_before_receive_results_in_single_delete() {
    let mut ch = channel(0);
    ch.send_at(0, "k", Update::Add(7)).unwrap();
    assert_eq!(recv_at(&mut ch, 0), Some(("k", Update::Add(7))));
    ch.send_at(1, "k", Update::Delete).unwrap();
    ch.send_at(1, "k", Update::Delete).unwrap();
    assert_eq!(ch.try_recv_at(1).unwrap(), ("k", Update::Delete));
    assert!(matches!(ch.try_recv_at(1), Err(TryRecvError::Empty)));
    assert!(matches!(ch.poll_recv_at(20 * MS), Polled::Wait(None)));
}

#[test]
fn add_second_then_delete_before_second_seen_results_in_delete() {
    let mut ch = channel(0);
    ch.send_at(0, "k", Update::Add(1)).unwrap();
    assert_eq!(recv_at(&mut ch, 0), Some(("k", Update::Add(1))));
    ch.send_at(1, "k", Update::Add(2)).unwrap();
    ch.send_at(1, "k", Update::Delete).unwrap();
    assert_eq!(recv_at(&mut ch, 1), Some(("k", Update::Delete)));
    assert!(matches!(ch.try_recv_at(1), Err(TryRecvError::Empty)));
}

#[test]
fn clear_discards_cooldown_value_and_emits_delete() {
    let cooldown = 100 * MS;
    let mut ch = channel(cooldown);
    ch.send_at(0, "k", Update::Add(1)).unwrap();
    assert_eq!(recv_at(&mut ch, 0), Some(("k", Update::Add(1))));
    ch.send_at(0, "k", Update::Add(2)).unwrap();
    ch.clear_at(10 * MS).unwrap();
    assert_eq!(recv_at(&mut ch, 10 * MS), Some(("k", Update::Delete)));
    assert!(matches!(ch.try_recv_at(10 * MS + cooldown), Err(TryRecvError::Empty)));
}

#[test]
fn clear_mixed_after_second_send_before_other_matures() {
    let cooldown = 100 * MS;
    let mut ch = channel(cooldown);
    ch.send_at(0, "A", Update::Add(1)).unwrap();
    assert_eq!(recv_at(&mut ch, 0), Some(("A", Update::Add(1))));
    ch.send_at(20 * MS, "B", Update::Add(10)).unwrap();
    assert_eq!(recv_at(&mut ch, 20 * MS), Some(("B", Update::Add(10))));
    ch.send_at(70 * MS, "A", Update::Add(2)).unwrap();
    ch.clear_at(105 * MS).unwrap();
    let mut deletes = vec![
        recv_at(&mut ch, 105 * MS).unwrap(),
        recv_at(&mut ch, 105 * MS).unwrap(),
    ];
    deletes.sort_by_key(|(k, _)| *k);
    assert_eq!(deletes, vec![("A", Update::Delete), ("B", Update::Delete)]);
    assert!(matches!(ch.try_recv_at(105 * MS), Err(TryRecvError::Empty)));
}

#[test]
fn recv_waits_for_cooldown_expiry() {
    let cooldown = 120 * MS;
    let mut ch = channel(cooldown);
    ch.send_at(5, "k", Update::Add(1)).unwrap();
    assert_eq!(recv_at(&mut ch, 5), Some(("k", Update::Add(1))));
    ch.send_at(6, "k", Update::Add(2)).unwrap();
    let until = match ch.poll_recv_at(6) {
        Polled::Wait(Some(until)) => until,
        _ => panic!("expected to wait"),
    };
    assert_eq!(until, 5 + cooldown);
    assert_eq!(recv_at(&mut ch, until), Some(("k", Update::Add(2))));
}

#[test]
fn recv_wakes_on_notification() {
    let cooldown = 2000 * MS;
    let mut ch = channel(cooldown);
    assert!(matches!(ch.poll_recv_at(0), Polled::Wait(None)));
    ch.send_at(30 * MS, "k", Update::Add(1)).unwrap();
    assert_eq!(recv_at(&mut ch, 30 * MS), Some(("k", Update::Add(1))));
}

#[test]
fn recv_wakes_on_clear() {
    let cooldown = 5000 * MS;
    let mut ch = channel(cooldown);
    ch.send_at(0, "k", Update::Add(1)).unwrap();
    assert_eq!(recv_at(&mut ch, 0), Some(("k", Update::Add(1))));
    match ch.poll_recv_at(0) {
        Polled::Wait(until) => assert_eq!(until, Some(cooldown)),
        _ => panic!("expected to wait"),
    }
    ch.clear_at(40 * MS).unwrap();
    assert_eq!(recv_at(&mut ch, 40 * MS), Some(("k", Update::Delete)));
}

#[test]
fn send_fails_after_receiver_drop() {
    let mut ch = channel(0);
    ch.close();
    let err = ch
        .send_at(0, "k", Update::Add(42))
        .err()
        .expect("expected send error");
    match err.0 {
        Update::Add(v) => assert_eq!(v, 42),
        other => panic!("unexpected update in error: {:?}", other),
    }
}

#[test]
fn clear_fails_after_receiver_drop() {
    let mut ch = channel(0);
    ch.close();
    let err = ch.clear_at(0).err().expect("expected clear error");
    match err.0 {
        Update::Delete => {}
        other => panic!("unexpected update in clear error: {:?}", other),
    }
}

#[test]
fn starting_key_delete_emitted_unknown_key_delete_suppressed() {
    let mut ch: Channel = Inner::new(HashSet::from_iter(["known"]), 0);
    ch.send_at(0, "known", Update::Delete).unwrap();
    assert_eq!(ch.try_recv_at(0).unwrap(), ("known", Update::Delete));
    ch.send_at(0, "unknown", Update::Delete).unwrap();
    assert_eq!(ch.try_recv_at(0), Err(TryRecvError::Empty));
}

#[test]
fn dropped_sender_ignores_cooldown_for_pending_value() {
    let cooldown = 150 * MS;
    let mut ch = channel(cooldown);
    ch.send_at(0, "k", Update::Add(1)).unwrap();
    assert_eq!(recv_at(&mut ch, 0), Some(("k", Update::Add(1))));
    ch.send_at(0, "k", Update::Add(2)).unwrap();
    assert!(matches!(ch.try_recv_at(0), Err(TryRecvError::Empty)));
    ch.close();
    assert_eq!(ch.try_recv_at(0).unwrap(), ("k", Update::Add(2)));
    assert!(matches!(ch.try_recv_at(0), Err(TryRecvError::Disconnected)));
}

#[test]
fn dropped_sender_releases_initial_pending_add() {
    let cooldown = 200 * MS;
    let mut ch = channel(cooldown);
    ch.send_at(0, "k", Update::Add(10)).unwrap();
    ch.close();
    assert_eq!(ch.try_recv_at(0).unwrap(), ("k", Update::Add(10)));
    assert!(matches!(ch.try_recv_at(0), Err(TryRecvError::Disconnected)));
}

#[test]
fn sender_closed_waits_for_receiver_drop() {
    let mut ch = channel(50 * MS);
    assert!(!ch.is_closed());
    ch.send_at(0, "k", Update::Add(1)).unwrap();
    assert!(!ch.is_closed());
    ch.close();
    assert!(ch.is_closed());
}
