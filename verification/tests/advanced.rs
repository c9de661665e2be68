use std::collections::HashSet;

use keywatch::inner::{Inner, Polled};
use keywatch::{TryRecvError, Update};

type Channel = Inner<&'static str, i32>;
type Event = (&'static str, Update<i32>);

const MS: u128 = 1_000_000;

fn channel(cooldown: u128) -> Channel {
    Inner::new(HashSet::new(), cooldown)
}

fn recv_at(channel: &mut Channel, now: u128) -> Option<Event> {
    match channel.poll_recv_at(now) {
        Polled::Ready(event) => Some(event),
        Polled::Finished => None,
        Polled::Wait(_) => panic!("nothing to receive"),
    }
}

#[test]
fn re_add_after_delete_during_cooldown() {
    let cooldown = 100 * MS;
    let mut ch = channel(cooldown);
    ch.send_at(0, "k", Update::Add(1)).unwrap();
    assert_eq!(recv_at(&mut ch, 0), Some(("k", Update::Add(1))));
    ch.send_at(0, "k", Update::Add(2)).unwrap();
    ch.send_at(30 * MS, "k", Update::Delete).unwrap();
    assert_eq!(recv_at(&mut ch, 30 * MS), Some(("k", Update::Delete)));
    ch.send_at(30 * MS, "k", Update::Add(3)).unwrap();
    assert_eq!(recv_at(&mut ch, 110 * MS), Some(("k", Update::Add(3))));
    assert!(matches!(ch.try_recv_at(110 * MS), Err(TryRecvError::Empty)));
}

#[test]
fn replacement_chain_only_last_emerges() {
    let cooldown = 120 * MS;
    let mut ch = channel(cooldown);
    ch.send_at(0, "k", Update::Add(1)).unwrap();
    assert_eq!(recv_at(&mut ch, 0), Some(("k", Update::Add(1))));
    ch.send_at(0, "k", Update::Add(2)).unwrap();
    ch.send_at(10 * MS, "k", Update::Add(3)).unwrap();
    ch.send_at(20 * MS, "k", Update::Add(4)).unwrap();
    assert_eq!(recv_at(&mut ch, 150 * MS), Some(("k", Update::Add(4))));
    assert!(matches!(ch.try_recv_at(150 * MS), Err(TryRecvError::Empty)));
}

#[test]
fn matured_order_preserved() {
    let cooldown = 80 * MS;
    let mut ch = channel(cooldown);
    for (k, v) in [("a", 1), ("b", 2), ("c", 3)] {
        ch.send_at(0, k, Update::Add(v)).unwrap();
    }
    let mut first_round = vec![
        recv_at(&mut ch, 0).unwrap(),
        recv_at(&mut ch, 0).unwrap(),
        recv_at(&mut ch, 0).unwrap(),
    ];
    first_round.sort_by_key(|(k, _)| *k);
    assert_eq!(
        first_round,
        vec![
            ("a", Update::Add(1)),
            ("b", Update::Add(2)),
            ("c", Update::Add(3))
        ]
    );
    ch.send_at(1, "c", Update::Add(30)).unwrap();
    ch.send_at(1, "b", Update::Add(20)).unwrap();
    ch.send_at(1, "a", Update::Add(10)).unwrap();
    let second_a = recv_at(&mut ch, 90 * MS).unwrap();
    let second_b = recv_at(&mut ch, 90 * MS).unwrap();
    let second_c = recv_at(&mut ch, 90 * MS).unwrap();
    assert_eq!(second_a, ("a", Update::Add(10)));
    assert_eq!(second_b, ("b", Update::Add(20)));
    assert_eq!(second_c, ("c", Update::Add(30)));
    assert!(matches!(ch.try_recv_at(90 * MS), Err(TryRecvError::Empty)));
}

#[test]
fn complex_sequence_add_delete_add() {
    let cooldown = 150 * MS;
    let mut ch = channel(cooldown);
    ch.send_at(0, "k", Update::Add(1)).unwrap();
    assert_eq!(recv_at(&mut ch, 0), Some(("k", Update::Add(1))));
    ch.send_at(0, "k", Update::Add(2)).unwrap();
    ch.send_at(40 * MS, "k", Update::Delete).unwrap();
    assert_eq!(recv_at(&mut ch, 40 * MS), Some(("k", Update::Delete)));
    ch.send_at(70 * MS, "k", Update::Add(3)).unwrap();
    assert_eq!(recv_at(&mut ch, 160 * MS), Some(("k", Update::Add(3))));
    assert!(matches!(ch.try_recv_at(160 * MS), Err(TryRecvError::Empty)));
}

#[test]
fn concurrent_senders_replacement_chain() {
    let cooldown = 120 * MS;
    let mut ch = channel(cooldown);
    ch.send_at(0, "k", Update::Add(1)).unwrap();
    assert_eq!(recv_at(&mut ch, 0), Some(("k", Update::Add(1))));
    for v in 2..=5 {
        ch.send_at(0, "k", Update::Add(v)).unwrap();
    }
    assert_eq!(recv_at(&mut ch, 130 * MS), Some(("k", Update::Add(5))));
    assert!(matches!(ch.try_recv_at(130 * MS), Err(TryRecvError::Empty)));
}

#[test]
fn zero_cooldown_coalesces_before_first_receive() {
    let mut ch = channel(0);
    ch.send_at(0, "k", Update::Add(1)).unwrap();
    ch.send_at(0, "k", Update::Add(2)).unwrap();
    ch.send_at(0, "k", Update::Add(3)).unwrap();
    assert_eq!(recv_at(&mut ch, 0), Some(("k", Update::Add(3))));
    assert!(matches!(ch.try_recv_at(0), Err(TryRecvError::Empty)));
}

#[test]
fn zero_cooldown_sequential_adds_deliver_each() {
    let mut ch = channel(0);
    for v in 1..=3 {
        ch.send_at(0, "k", Update::Add(v)).unwrap();
        assert_eq!(recv_at(&mut ch, 0), Some(("k", Update::Add(v))));
    }
    assert!(matches!(ch.try_recv_at(0), Err(TryRecvError::Empty)));
}

#[test]
fn clear_noop_when_empty() {
    let mut ch = channel(10 * MS);
    ch.clear_at(0).unwrap();
    assert!(matches!(ch.try_recv_at(0), Err(TryRecvError::Empty)));
}

#[test]
fn multiple_clears_idempotent_pending_deletes() {
    let mut ch = channel(50 * MS);
    ch.send_at(0, "a", Update::Add(1)).unwrap();
    ch.send_at(0, "b", Update::Add(2)).unwrap();
    let mut first = vec![recv_at(&mut ch, 0).unwrap(), recv_at(&mut ch, 0).unwrap()];
    first.sort_by_key(|(k, _)| *k);
    assert_eq!(first, vec![("a", Update::Add(1)), ("b", Update::Add(2))]);
    ch.clear_at(1).unwrap();
    ch.clear_at(2).unwrap();
    let mut deletes = vec![recv_at(&mut ch, 3).unwrap(), recv_at(&mut ch, 3).unwrap()];
    deletes.sort_by_key(|(k, _)| *k);
    assert_eq!(deletes, vec![("a", Update::Delete), ("b", Update::Delete)]);
    assert!(matches!(ch.try_recv_at(3), Err(TryRecvError::Empty)));
}

#[test]
fn drop_sender_while_waiting_on_cooldown_returns_value_then_none() {
    let cooldown = 200 * MS;
    let mut ch = channel(cooldown);
    ch.send_at(0, "k", Update::Add(1)).unwrap();
    assert_eq!(recv_at(&mut ch, 0), Some(("k", Update::Add(1))));
    ch.send_at(0, "k", Update::Add(2)).unwrap();
    assert!(matches!(ch.poll_recv_at(0), Polled::Wait(Some(_))));
    ch.close();
    assert_eq!(
        recv_at(&mut ch, 50 * MS),
        Some(("k", Update::Add(2))),
        "Expected cooled value to be delivered early after sender drop"
    );
    assert_eq!(recv_at(&mut ch, 50 * MS), None);
    assert!(matches!(ch.try_recv_at(50 * MS), Err(TryRecvError::Disconnected)));
}
