use std::collections::{HashMap, HashSet};
use std::time::Duration;

use keywatch::clock::{nanos_of, Clock, MAX_NANOS};
use keywatch::inner::{Inner, Polled};
use keywatch::raw::Raw;
use keywatch::{SendError, TryRecvError, Update};

fn sleep(millis: u64) {
    let runtime = tokio::runtime::Builder::new_current_thread()
        .enable_time()
        .build()
        .unwrap();
    runtime.block_on(async { tokio::time::sleep(Duration::from_millis(millis)).await });
}

fn raw(cooldown: u128) -> Raw<u64, i32> {
    Raw::new(HashSet::new(), cooldown)
}

#[test]
fn into_option_takes_the_value_of_an_add() {
    assert_eq!(Update::Add(7).into_option(), Some(7));
    assert_eq!(Update::<i32>::Delete.into_option(), None);
}

#[test]
fn from_dropped_tells_closed_from_empty() {
    assert_eq!(TryRecvError::from_dropped(true), TryRecvError::Disconnected);
    assert_eq!(TryRecvError::from_dropped(false), TryRecvError::Empty);
}

#[test]
fn send_gives_back_the_displaced_value() {
    let mut r = raw(10);
    assert_eq!(r.send_at(0, 1, Update::Add(1)), None);
    assert_eq!(r.send_at(0, 1, Update::Add(2)), Some(1));
    assert_eq!(r.try_recv_at(0), Some((1, Update::Add(2))));
    assert_eq!(r.send_at(1, 1, Update::Add(3)), None);
    assert_eq!(r.send_at(1, 1, Update::Add(4)), Some(3));
    assert_eq!(r.send_at(1, 1, Update::Delete), Some(4));
    assert_eq!(r.send_at(1, 1, Update::Delete), None);
    assert_eq!(r.try_recv_at(1), Some((1, Update::Delete)));
}

#[test]
fn delete_cancels_a_value_that_joined_the_queue() {
    let mut r = raw(0);
    assert_eq!(r.send_at(0, 1, Update::Add(1)), None);
    assert_eq!(r.send_at(0, 2, Update::Add(2)), None);
    assert_eq!(r.send_at(0, 1, Update::Delete), Some(1));
    assert_eq!(r.try_recv_at(0), Some((2, Update::Add(2))));
    assert_eq!(r.try_recv_at(0), None);
}

#[test]
fn second_delete_during_cooldown_cancels_the_readded_value() {
    let mut r = raw(100);
    r.send_at(0, 1, Update::Add(1));
    assert_eq!(r.try_recv_at(0), Some((1, Update::Add(1))));
    r.send_at(1, 1, Update::Delete);
    r.send_at(2, 1, Update::Add(3));
    assert_eq!(r.send_at(3, 1, Update::Delete), Some(3));
    assert_eq!(r.try_recv_at(200), Some((1, Update::Delete)));
    assert_eq!(r.try_recv_at(300), None);
}

#[test]
fn delete_cancels_a_withheld_value_of_a_key_the_receiver_lost() {
    let mut r = raw(100);
    r.send_at(0, 1, Update::Add(1));
    assert_eq!(r.try_recv_at(0), Some((1, Update::Add(1))));
    r.send_at(1, 1, Update::Delete);
    assert_eq!(r.try_recv_at(1), Some((1, Update::Delete)));
    r.send_at(2, 1, Update::Add(3));
    assert_eq!(r.send_at(3, 1, Update::Delete), Some(3));
    assert_eq!(r.try_recv_at(200), None);
}

#[test]
fn delete_is_not_delayed_and_not_repeated() {
    let mut r = raw(100);
    r.send_at(0, 1, Update::Add(1));
    assert_eq!(r.try_recv_at(0), Some((1, Update::Add(1))));
    r.send_at(1, 1, Update::Delete);
    assert_eq!(r.try_recv_at(1), Some((1, Update::Delete)));
    r.send_at(2, 1, Update::Delete);
    assert_eq!(r.try_recv_at(2), None);
}

#[test]
fn queue_is_first_in_first_out() {
    let mut r = raw(0);
    for k in [3, 1, 2] {
        r.send_at(0, k, Update::Add(k as i32));
    }
    r.send_at(1, 3, Update::Add(30));
    assert_eq!(r.try_recv_at(1), Some((3, Update::Add(30))));
    assert_eq!(r.try_recv_at(1), Some((1, Update::Add(1))));
    assert_eq!(r.try_recv_at(1), Some((2, Update::Add(2))));
    assert_eq!(r.try_recv_at(1), None);
}

#[test]
fn matured_value_goes_ahead_of_what_is_sent_later() {
    let mut r = raw(10);
    r.send_at(0, 1, Update::Add(1));
    assert_eq!(r.try_recv_at(0), Some((1, Update::Add(1))));
    r.send_at(1, 1, Update::Add(2));
    r.send_at(5, 2, Update::Add(20));
    r.send_at(12, 3, Update::Add(30));
    assert_eq!(r.try_recv_at(12), Some((2, Update::Add(20))));
    assert_eq!(r.try_recv_at(12), Some((1, Update::Add(2))));
    assert_eq!(r.try_recv_at(12), Some((3, Update::Add(30))));
}

#[test]
fn adds_of_a_key_are_a_cooldown_apart() {
    let mut r = raw(10);
    r.send_at(0, 1, Update::Add(0));
    let mut times = Vec::new();
    for now in 0..50 {
        r.send_at(now, 1, Update::Add(now as i32));
        if let Some((1, Update::Add(v))) = r.try_recv_at(now) {
            times.push((now, v));
        }
    }
    assert_eq!(times, vec![(0, 0), (10, 10), (20, 20), (30, 30), (40, 40)]);
}

#[test]
fn try_recv_now_ignores_windows_and_opens_a_new_one() {
    let mut r = raw(100);
    r.send_at(0, 1, Update::Add(1));
    r.send_at(0, 2, Update::Add(2));
    assert_eq!(r.try_recv_now_at(0), Some((1, Update::Add(1))));
    assert_eq!(r.try_recv_now_at(0), Some((2, Update::Add(2))));
    r.send_at(1, 2, Update::Add(22));
    assert_eq!(r.try_recv_at(1), None);
    assert_eq!(r.try_recv_now_at(5), Some((2, Update::Add(22))));
    assert_eq!(r.wait_next_cooldown(), Some(100));
    r.send_at(6, 1, Update::Add(11));
    assert_eq!(r.try_recv_at(6), None);
    assert_eq!(r.try_recv_now_at(7), Some((1, Update::Add(11))));
    assert_eq!(r.wait_next_cooldown(), Some(105));
    assert_eq!(r.try_recv_now_at(8), None);
    assert_eq!(r.wait_next_cooldown(), Some(105));
}

#[test]
fn try_recv_now_that_finds_nothing_leaves_the_cooldown_running() {
    let hour = 3_600_000_000_000;
    let mut ch: Inner<&'static str, i32> = Inner::new(HashSet::new(), hour);
    ch.send_at(0, "k", Update::Add(1)).unwrap();
    assert_eq!(ch.try_recv_at(0), Ok(("k", Update::Add(1))));
    assert_eq!(ch.try_recv_now_at(1), Err(TryRecvError::Empty));
    ch.send_at(2, "k", Update::Add(2)).unwrap();
    assert_eq!(ch.try_recv_at(3), Err(TryRecvError::Empty));
    assert_eq!(ch.try_recv_at(hour), Ok(("k", Update::Add(2))));
}

#[test]
fn try_recv_now_keeps_the_other_windows_in_order() {
    let mut r = raw(100);
    for k in 1..=4 {
        r.send_at(0, k, Update::Add(0));
    }
    for k in 1..=4 {
        assert_eq!(r.try_recv_at(k as u128), Some((k, Update::Add(0))));
    }
    r.send_at(10, 3, Update::Add(3));
    r.send_at(11, 2, Update::Add(2));
    assert_eq!(r.try_recv_now_at(12), Some((2, Update::Add(2))));
    r.send_at(13, 4, Update::Add(4));
    r.send_at(14, 1, Update::Add(1));
    r.send_at(15, 2, Update::Add(22));
    assert_eq!(r.try_recv_at(100), None);
    for (now, got) in [(101, (1, 1)), (103, (3, 3)), (104, (4, 4)), (112, (2, 22))] {
        assert_eq!(r.try_recv_at(now - 1), None);
        assert_eq!(r.try_recv_at(now), Some((got.0, Update::Add(got.1))));
    }
}

#[test]
fn matured_values_come_in_the_order_of_their_windows() {
    let mut r = raw(100);
    r.send_at(0, 1, Update::Add(1));
    r.send_at(0, 2, Update::Add(2));
    assert_eq!(r.try_recv_at(0), Some((1, Update::Add(1))));
    assert_eq!(r.try_recv_at(1), Some((2, Update::Add(2))));
    r.send_at(2, 2, Update::Delete);
    r.send_at(3, 2, Update::Add(22));
    r.send_at(4, 1, Update::Add(11));
    assert_eq!(r.try_recv_at(200), Some((1, Update::Add(11))));
    assert_eq!(r.try_recv_at(200), Some((2, Update::Add(22))));
    assert_eq!(r.try_recv_at(200), None);
}

#[test]
fn updates_come_in_the_order_in_which_they_take_effect() {
    let mut r = raw(100);
    r.send_at(0, 1, Update::Add(0));
    r.send_at(0, 2, Update::Add(0));
    assert_eq!(r.try_recv_at(10), Some((1, Update::Add(0))));
    assert_eq!(r.try_recv_at(20), Some((2, Update::Add(0))));
    r.send_at(30, 2, Update::Add(120));
    r.send_at(31, 1, Update::Add(110));
    r.send_at(40, 3, Update::Add(40));
    r.send_at(115, 4, Update::Add(115));
    r.send_at(121, 5, Update::Add(121));
    for v in [40, 110, 115, 120, 121] {
        assert_eq!(r.try_recv_at(121).and_then(|(_, u)| u.into_option()), Some(v));
    }
    assert_eq!(r.try_recv_at(121), None);
}

#[test]
fn closed_channel_drains_in_the_order_in_which_updates_take_effect() {
    for close in [true, false] {
        let mut ch: Inner<u64, i32> = Inner::new(HashSet::new(), 100);
        for k in 1..=3 {
            ch.send_at(0, k, Update::Add(0)).unwrap();
        }
        for k in 1..=3 {
            assert_eq!(ch.try_recv_at(10 * k as u128), Ok((k, Update::Add(0))));
        }
        ch.send_at(40, 3, Update::Add(130)).unwrap();
        ch.send_at(41, 1, Update::Add(110)).unwrap();
        ch.send_at(42, 2, Update::Add(120)).unwrap();
        ch.send_at(43, 4, Update::Add(43)).unwrap();
        if close {
            ch.close();
        }
        for (k, v) in [(4, 43), (1, 110), (2, 120), (3, 130)] {
            let got = if close { ch.try_recv_at(50) } else { ch.try_recv_now_at(50) };
            assert_eq!(got, Ok((k, Update::Add(v))));
        }
        assert!(ch.try_recv_now_at(50).is_err());
    }
}

#[test]
fn any_number_of_adds_collapse_into_the_last() {
    let mut r = raw(100);
    for v in 1..=9 {
        r.send_at(v as u128, 1, Update::Add(v));
    }
    assert_eq!(r.try_recv_at(10), Some((1, Update::Add(9))));
    for v in 10..=50 {
        r.send_at(v as u128, 1, Update::Add(v));
    }
    assert_eq!(r.try_recv_at(109), None);
    assert_eq!(r.try_recv_at(110), Some((1, Update::Add(50))));
    assert_eq!(r.try_recv_at(500), None);
}

#[test]
fn add_and_delete_of_a_missing_key_leave_no_trace() {
    let mut r = raw(100);
    r.send_at(0, 2, Update::Add(2));
    r.send_at(1, 1, Update::Add(1));
    r.send_at(2, 3, Update::Add(3));
    assert_eq!(r.send_at(9, 1, Update::Delete), Some(1));
    assert_eq!(r.try_recv_at(9), Some((2, Update::Add(2))));
    assert_eq!(r.try_recv_at(9), Some((3, Update::Add(3))));
    assert_eq!(r.try_recv_at(9), None);
}

#[test]
fn a_key_does_not_disturb_the_others() {
    let run = |busy: bool| {
        let mut r = raw(20);
        let mut seen = Vec::new();
        for now in 0..400u128 {
            let key = (now * 7) % 5;
            if now % 3 == 0 {
                r.send_at(now, key as u64, Update::Add(now as i32));
            } else if now % 11 == 0 {
                r.send_at(now, key as u64, Update::Delete);
            }
            if busy {
                r.send_at(now, 99, Update::Add(now as i32));
                if now % 5 == 0 {
                    r.send_at(now, 99, Update::Delete);
                }
            }
            while let Some((k, update)) = r.try_recv_at(now) {
                if k != 99 {
                    seen.push((now, k, update));
                }
            }
        }
        seen
    };
    let seen = run(false);
    assert!(seen.len() > 20);
    assert_eq!(run(true), seen);
}

#[test]
fn next_wake_up_is_the_end_of_the_first_window() {
    let mut r = raw(10);
    assert_eq!(r.wait_next_cooldown(), None);
    r.send_at(0, 1, Update::Add(1));
    r.send_at(0, 2, Update::Add(2));
    r.try_recv_at(3);
    r.try_recv_at(4);
    assert_eq!(r.wait_next_cooldown(), Some(13));
    assert_eq!(r.try_recv_at(13), None);
    assert_eq!(r.wait_next_cooldown(), Some(14));
}

#[test]
fn clear_keeps_windows_open_and_forgets_what_they_withheld() {
    let mut r = raw(10);
    r.send_at(0, 1, Update::Add(1));
    assert_eq!(r.try_recv_at(0), Some((1, Update::Add(1))));
    r.send_at(1, 1, Update::Add(2));
    r.send_at(1, 9, Update::Add(9));
    r.clear_at(2);
    assert_eq!(r.wait_next_cooldown(), Some(10));
    assert_eq!(r.try_recv_at(2), Some((1, Update::Delete)));
    assert_eq!(r.try_recv_at(30), None);
    assert_eq!(r.wait_next_cooldown(), None);
}

#[test]
fn add_after_delete_in_the_queue_leaves_one_update_each() {
    let mut r = raw(10);
    r.send_at(0, 1, Update::Add(1));
    r.try_recv_at(0);
    r.send_at(1, 1, Update::Delete);
    r.send_at(2, 1, Update::Add(5));
    assert_eq!(r.try_recv_at(20), Some((1, Update::Add(5))));
    assert_eq!(r.try_recv_at(20), None);
}

#[test]
fn receiver_store_converges_to_what_was_sent() {
    let mut r: Raw<u64, i32> = Raw::new(HashSet::from_iter([100, 101]), 7);
    let mut sent: HashMap<u64, i32> = HashMap::from_iter([(100, -1), (101, -2)]);
    let mut store = sent.clone();
    let mut seed: u64 = 12345;
    for now in 0..2000u128 {
        seed = seed.wrapping_mul(6364136223846793005).wrapping_add(1442695040888963407);
        let key = 98 + (seed >> 33) % 5;
        match (seed >> 40) % 8 {
            0 | 1 | 2 => {
                r.send_at(now, key, Update::Add(now as i32));
                sent.insert(key, now as i32);
            }
            3 | 4 => {
                r.send_at(now, key, Update::Delete);
                sent.remove(&key);
            }
            5 if (seed >> 45) % 16 == 0 => {
                r.clear_at(now);
                sent.clear();
            }
            6 => {
                let got = if (seed >> 50) % 4 == 0 {
                    r.try_recv_now_at(now)
                } else {
                    r.try_recv_at(now)
                };
                apply(&mut store, got);
            }
            _ => {}
        }
    }
    loop {
        let got = r.try_recv_now_at(2000);
        if got.is_none() {
            break;
        }
        apply(&mut store, got);
    }
    assert_eq!(store, sent);
}

fn apply(store: &mut HashMap<u64, i32>, got: Option<(u64, Update<i32>)>) {
    match got {
        Some((k, Update::Add(v))) => {
            store.insert(k, v);
        }
        Some((k, Update::Delete)) => {
            assert!(store.remove(&k).is_some(), "a Delete came for a key that is not there");
        }
        None => {}
    }
}

#[test]
fn closed_channel_refuses_and_drains() {
    let mut ch: Inner<u64, i32> = Inner::new(HashSet::new(), 100);
    assert_eq!(ch.send_at(0, 1, Update::Add(1)).unwrap(), None);
    assert_eq!(ch.send_at(0, 1, Update::Add(2)).unwrap(), Some(1));
    ch.close();
    assert!(matches!(ch.send_at(1, 1, Update::Delete), Err(SendError(Update::Delete))));
    assert!(matches!(ch.clear_at(1), Err(SendError(Update::Delete))));
    assert_eq!(ch.try_recv_now_at(1), Ok((1, Update::Add(2))));
    assert_eq!(ch.try_recv_now_at(1), Err(TryRecvError::Disconnected));
    assert!(matches!(ch.poll_recv_at(1), Polled::Finished));
}

#[test]
fn open_channel_reports_empty() {
    let mut ch: Inner<u64, i32> = Inner::new(HashSet::new(), 100);
    assert_eq!(ch.try_recv_at(0), Err(TryRecvError::Empty));
    assert_eq!(ch.try_recv_now_at(0), Err(TryRecvError::Empty));
    assert!(matches!(ch.poll_recv_at(0), Polled::Wait(None)));
    assert!(ch.has_room());
    assert!(ch.fits());
    assert!(ch.can_clear());
}

#[test]
fn clock_counts_nanoseconds() {
    assert_eq!(nanos_of(0, 999_999_999), 999_999_999);
    assert_eq!(nanos_of(2, 5), 2_000_000_005);
    assert_eq!(nanos_of(u64::MAX, 999_999_999), MAX_NANOS);
    assert_eq!(Duration::MAX.as_nanos(), MAX_NANOS);
    let before = tokio::time::Instant::now();
    let mut clock = Clock::start();
    assert!(clock.origin() >= before);
    sleep(20);
    let now = clock.now();
    assert!(now >= 20_000_000);
    assert!(clock.now() >= now);
    assert!(now <= before.elapsed().as_nanos());
}

#[test]
fn clock_does_not_run_backward() {
    let mut clock = Clock::start();
    let origin = clock.origin();
    assert_eq!(clock.advance(0, 0), 0);
    assert_eq!(clock.advance(2, 5), 2_000_000_005);
    assert_eq!(clock.advance(2, 4), 2_000_000_005);
    assert_eq!(clock.now(), 2_000_000_005);
    assert_eq!(clock.advance(u64::MAX, 999_999_999), MAX_NANOS);
    assert_eq!(clock.now(), MAX_NANOS);
    assert_eq!(clock.origin(), origin);
}

#[test]
fn clock_drives_the_cooldown() {
    let mut ch: Inner<&'static str, i32> = Inner::new(HashSet::new(), 80_000_000);
    ch.send("k", Update::Add(1)).unwrap();
    assert_eq!(ch.try_recv(), Ok(("k", Update::Add(1))));
    ch.send("k", Update::Add(2)).unwrap();
    assert!(matches!(ch.poll_recv(), Polled::Wait(Some(_))));
    sleep(100);
    match ch.poll_recv() {
        Polled::Ready(got) => assert_eq!(got, ("k", Update::Add(2))),
        _ => panic!("the window is over"),
    }
    ch.send("k", Update::Add(3)).unwrap();
    assert_eq!(ch.try_recv_now(), Ok(("k", Update::Add(3))));
    ch.clear().unwrap();
    assert_eq!(ch.try_recv(), Ok(("k", Update::Delete)));
    assert_eq!(ch.try_recv(), Err(TryRecvError::Empty));
}

#[test]
fn raw_reads_its_clock() {
    let before = tokio::time::Instant::now();
    let mut r: Raw<u64, i32> = Raw::new(HashSet::new(), 0);
    assert!(r.origin() >= before);
    let first = r.now();
    sleep(5);
    let second = r.now();
    assert!(second - first >= 5_000_000);
    assert!(second <= before.elapsed().as_nanos());
    assert_eq!(r.send(1, Update::Add(1)), None);
    assert_eq!(r.send(1, Update::Add(2)), Some(1));
    assert_eq!(r.try_recv(), Some((1, Update::Add(2))));
    r.send(2, Update::Add(5));
    assert_eq!(r.try_recv_now(), Some((2, Update::Add(5))));
    r.clear();
    let mut keys = Vec::new();
    while let Some((k, update)) = r.try_recv() {
        assert_eq!(update, Update::Delete);
        keys.push(k);
    }
    keys.sort();
    assert_eq!(keys, vec![1, 2]);
}
