//! What a channel holds and delivers, told from the record of what was done with it.
//!
//! Nothing here looks into a channel: a [`Record`] knows with which keys and which cooldown it
//! started, what was sent and cleared, and what was delivered, each with its time. From that alone
//! it follows what waits under each key, which windows are open, and what a receive has to deliver.

use vstd::prelude::*;

use crate::assoc::{
    holds, lemma_drop_first, lemma_found, lemma_put, lemma_take, lemma_without, place_of, unique,
    value_of, without,
};
use crate::clock::MAX_NANOS;
use crate::history::{
    law_always_valid, law_first_in_first_out, law_known_keys, law_windows_end_in_order, leads,
    Event, History,
};
use crate::laws::{law_settling_twice, lemma_sent_is_settled};
use crate::order::{ahead, in_time_order};
use crate::state::{
    emptied, idle, lemma_idle, lemma_ripe_bound, lemma_settle_done, lemma_settled,
    lemma_withholding, ripe, Slot, State,
};
use crate::timing::{lemma_in_time_order_settled, lemma_settled_key, lemma_step_key};
use crate::Update;

verus! {

/// What was done with a channel, from its start.
#[verifier::reject_recursive_types(K)]
pub struct Record<K, V> {
    /// The keys that the receiver had at the start.
    pub start: Set<K>,
    /// Length of a cooldown window, in nanoseconds.
    pub cooldown: u128,
    /// The operations, each with its time.
    pub events: Seq<(u128, Event<K, V>)>,
}

impl<K, V> Record<K, V> {
    /// The time of the last of the first `n` operations.
    pub open spec fn time(self, n: int) -> u128 {
        if n <= 0 {
            0
        } else {
            self.events[n - 1].0
        }
    }

    /// After the first `n` operations the receiver has `k`: the last update of `k` that it got was
    /// an Add; or it got none, and had `k` at the start.
    pub open spec fn has(self, n: int, k: K) -> bool
        decreases n,
    {
        if n <= 0 {
            self.start.contains(k)
        } else if self.events[n - 1].1.delivers(k) {
            self.events[n - 1].1.adds(k)
        } else {
            self.has(n - 1, k)
        }
    }

    /// Which of the first `n` operations was the last to deliver an Add of `k`; -1 if none was.
    pub open spec fn last_add(self, n: int, k: K) -> int
        decreases n,
    {
        if n <= 0 {
            -1
        } else if self.events[n - 1].1.adds(k) {
            n - 1
        } else {
            self.last_add(n - 1, k)
        }
    }

    /// The time until which `k` cools down: a cooldown after the last delivery of an Add of `k`.
    pub open spec fn cool_end(self, n: int, k: K) -> int {
        self.events[self.last_add(n, k)].0 + self.cooldown
    }

    /// `k` is cooling down at `now`: an Add of it was delivered, and less than a cooldown ago.
    pub open spec fn cooling(self, n: int, k: K, now: u128) -> bool {
        self.last_add(n, k) >= 0 && now < self.cool_end(n, k)
    }

    /// The value of `k` that is still to be delivered: that of the last Add that was sent, unless a
    /// Delete of `k` was sent after it, the channel was cleared, or an Add of `k` was delivered.
    pub open spec fn wanted(self, n: int, k: K) -> Option<V>
        decreases n,
    {
        if n <= 0 {
            None
        } else {
            match self.events[n - 1].1 {
                Event::Sent(key, Update::Add(v)) => if key == k {
                    Some(v)
                } else {
                    self.wanted(n - 1, k)
                },
                Event::Sent(key, Update::Delete) => if key == k {
                    None
                } else {
                    self.wanted(n - 1, k)
                },
                Event::Cleared => None,
                _ => if self.events[n - 1].1.adds(k) {
                    None
                } else {
                    self.wanted(n - 1, k)
                },
            }
        }
    }

    /// Since the last delivery of `k`, a Delete of `k` was sent or the channel was cleared.
    pub open spec fn doomed(self, n: int, k: K) -> bool
        decreases n,
    {
        if n <= 0 {
            false
        } else if self.events[n - 1].1 == Event::<K, V>::Sent(k, Update::Delete)
            || self.events[n - 1].1 is Cleared {
            true
        } else if self.events[n - 1].1.delivers(k) {
            false
        } else {
            self.doomed(n - 1, k)
        }
    }

    /// The update of `k` that can be delivered at `now`, with windows respected: the value that is
    /// still to be delivered, if `k` is not cooling down; or else a Delete, if one is owed and the
    /// receiver has the key.
    pub open spec fn due(self, n: int, k: K, now: u128) -> Option<Update<V>> {
        if self.wanted(n, k) is Some && !self.cooling(n, k, now) {
            Some(Update::Add(self.wanted(n, k)->0))
        } else if self.has(n, k) && self.doomed(n, k) {
            Some(Update::Delete)
        } else {
            None
        }
    }

    /// No update can be delivered at `now`, with windows respected.
    pub open spec fn nothing_due(self, n: int, now: u128) -> bool {
        forall|k: K| #[trigger] self.due(n, k, now) is None
    }

    /// No update can be delivered at `now`, and none is withheld.
    pub open spec fn nothing_left(self, n: int, now: u128) -> bool {
        &&& self.nothing_due(n, now)
        &&& forall|k: K| #[trigger] self.wanted(n, k) is None
    }

    /// With windows ignored, `update` of `k` can be delivered at `now`: it is due; or nothing is
    /// due, and among the keys of which a value is still to be delivered `k` has been cooling down
    /// the longest.
    pub open spec fn up_for_grabs(self, n: int, k: K, update: Update<V>, now: u128) -> bool {
        ||| self.due(n, k, now) == Some(update)
        ||| {
            &&& self.nothing_due(n, now)
            &&& self.wanted(n, k) is Some
            &&& update == Update::Add(self.wanted(n, k)->0)
            &&& forall|x: K|
                (#[trigger] self.wanted(n, x)) is Some ==> self.last_add(n, k) <= self.last_add(
                    n,
                    x,
                )
        }
    }

    /// Operation `m` calls off what was due of `k`, or puts it off: it deletes a key that the
    /// receiver does not have, clears the channel, or sends an update of a key that is cooling
    /// down.
    pub open spec fn calls_off(self, m: int, k: K) -> bool {
        ||| self.events[m].1 == Event::<K, V>::Sent(k, Update::Delete) && !self.has(m, k)
        ||| self.events[m].1 is Cleared
        ||| self.events[m].1.sends(k) && self.cooling(m, k, self.events[m].0)
    }

    /// `s`, in which the windows that are over at `now` are closed, holds under `k` what the record
    /// says.
    pub open spec fn agrees(self, n: int, k: K, now: u128, s: State<K, V>) -> bool {
        &&& s.known.contains(k) == self.has(n, k)
        &&& value_of(s.queue, k) == self.due(n, k, now)
        &&& value_of(s.slots, k) == if self.cooling(n, k, now) {
            Some(Slot { until: self.cool_end(n, k) as u128, withheld: self.wanted(n, k) })
        } else {
            None
        }
    }
}

impl<K, V> History<K, V> {
    /// The history of a channel from its start, as `record` tells it.
    pub open spec fn told_by(self, record: Record<K, V>) -> bool {
        &&& self.valid()
        &&& self.timely()
        &&& self.events == record.events
        &&& self.states[0] == State::<K, V>::fresh(record.start, record.cooldown)
    }
}

/// The last delivery of an Add is one of those that were made.
pub proof fn lemma_last_add<K, V>(r: Record<K, V>, n: int, k: K)
    requires
        0 <= n <= r.events.len(),
    ensures
        -1 <= r.last_add(n, k) < n,
        r.last_add(n, k) >= 0 ==> r.events[r.last_add(n, k)].1.adds(k),
    decreases n,
{
    if n > 0 {
        lemma_last_add(r, n - 1, k);
    }
}

/// What agrees with the record at one time agrees with it later.
proof fn lemma_agrees_later<K, V>(
    r: Record<K, V>,
    n: int,
    k: K,
    t: u128,
    now: u128,
    s: State<K, V>,
)
    requires
        s.valid(),
        in_time_order(s.slots),
        t <= now,
        r.agrees(n, k, t, s.settled(t)),
        r.cooling(n, k, t) ==> r.cool_end(n, k) <= u128::MAX,
    ensures
        r.agrees(n, k, now, s.settled(now)),
{
    let m = s.settled(t);
    law_settling_twice(s, t, now);
    lemma_settled(s, t);
    lemma_in_time_order_settled(s, t);
    lemma_settled_key(m, now, k);
}

/// After an operation no window is left that is over by then.
proof fn lemma_post_is_settled<K, V>(h: History<K, V>, n: int)
    requires
        h.valid(),
        h.timely(),
        h.states[0].slots.len() == 0,
        0 < n <= h.events.len(),
    ensures
        h.states[n].settled(h.events[n - 1].0) == h.states[n],
{
    let (at, event) = h.events[n - 1];
    let pre = h.states[n - 1];
    let m = pre.settled(at);
    let post = h.states[n];
    law_always_valid(h, n - 1);
    law_windows_end_in_order(h, n - 1);
    lemma_settled(pre, at);
    lemma_in_time_order_settled(pre, at);
    lemma_idle(m.slots);
    let c = idle(m.slots) as int;
    assert forall|i: int| 0 <= i < m.slots.len() implies (#[trigger] m.slots[i]).1.until > at by {
        assert(m.slots[0].1.until <= m.slots[i].1.until);
    }
    match event {
        Event::Sent(k, update) => {
            lemma_sent_is_settled(pre, at, k, update);
        },
        Event::Cleared => {
            lemma_settle_done(post, at);
        },
        Event::Received(_) | Event::ReceivedNow(_) => {
            if m.queue.len() > 0 {
                if holds(m.slots, m.queue[0].0) {
                    assert(m.slots[place_of(m.slots, m.queue[0].0)].0 == m.queue[0].0);
                }
            } else if event is ReceivedNow && c < m.slots.len() {
                lemma_found(m.slots, c);
                lemma_without(m.slots, m.slots[c].0);
            }
            lemma_settle_done(post, at);
        },
    }
}

/// The record tells what a channel holds: which keys the receiver has, what can be delivered of
/// each key, which windows are open, until when, and what they withhold. In particular a window is
/// open only if an Add of its key was delivered less than a cooldown ago; no other operation opens
/// one.
pub proof fn law_record_tells_contents<K, V>(
    h: History<K, V>,
    r: Record<K, V>,
    n: int,
    k: K,
    now: u128,
)
    requires
        h.told_by(r),
        0 <= n <= h.events.len(),
        r.time(n) <= now,
    ensures
        r.agrees(n, k, now, h.states[n].settled(now)),
    decreases n,
{
    law_always_valid(h, n);
    law_windows_end_in_order(h, n);
    lemma_last_add(r, n, k);
    if r.last_add(n, k) >= 0 {
        assert(h.events[r.last_add(n, k)].0 <= MAX_NANOS);
    }
    if n == 0 {
        lemma_settle_done(h.states[0], now);
    } else {
        let (at, event) = h.events[n - 1];
        let pre = h.states[n - 1];
        let post = h.states[n];
        let m = pre.settled(at);
        if n > 1 {
            assert(h.events[n - 2].0 <= h.events[n - 1].0);
        }
        law_record_tells_contents(h, r, n - 1, k, at);
        law_always_valid(h, n - 1);
        lemma_settled(pre, at);
        lemma_post_is_settled(h, n);
        lemma_last_add(r, n - 1, k);
        lemma_idle(m.slots);
        let c = idle(m.slots) as int;
        let slot = Slot::<V> { until: (at + m.cooldown) as u128, withheld: None };
        assert(post.cooldown == r.cooldown);
        if !event.sends(k) && !(event is Cleared) && !event.delivers(k) {
            lemma_step_key(pre, at, event, post, k);
            lemma_known_key(pre, at, event, post, k);
        } else {
            match event {
                Event::Sent(_, update) => {
                    lemma_withholding(m.slots, k, update.carried());
                    lemma_put(m.queue, k, update);
                    lemma_without(m.queue, k);
                },
                Event::Cleared => {
                    lemma_emptied(m.slots, k);
                    assert(holds(post.queue, k) <==> pre.known.contains(k));
                    if holds(post.queue, k) {
                        assert(post.queue[place_of(post.queue, k)].1 is Delete);
                    }
                },
                Event::Received(_) | Event::ReceivedNow(_) => {
                    if m.queue.len() > 0 {
                        lemma_found(m.queue, 0);
                        lemma_drop_first(m.queue);
                        lemma_put(m.slots, k, slot);
                    } else {
                        lemma_found(m.slots, c);
                        lemma_without(m.slots, k);
                        lemma_put(without(m.slots, k), k, slot);
                    }
                },
            }
        }
        assert(r.agrees(n, k, at, post));
        lemma_agrees_later(r, n, k, at, now, post);
    }
}

proof fn lemma_emptied<K, V>(slots: Seq<(K, Slot<V>)>, k: K)
    ensures
        holds(emptied(slots), k) <==> holds(slots, k),
        unique(slots) && holds(slots, k) ==> value_of(emptied(slots), k) == Some(
            Slot::<V> { until: value_of(slots, k)->0.until, withheld: None },
        ),
{
    let t = emptied(slots);
    if holds(slots, k) {
        let p = place_of(slots, k);
        assert(slots[p].0 == k);
        assert(t[p].0 == k);
        if unique(slots) {
            lemma_found(t, p);
        }
    }
    if holds(t, k) {
        assert(slots[place_of(t, k)].0 == k);
    }
}

/// An operation that delivers no update of a key does not change whether the receiver has it.
proof fn lemma_known_key<K, V>(
    pre: State<K, V>,
    at: u128,
    event: Event<K, V>,
    post: State<K, V>,
    k: K,
)
    requires
        pre.valid(),
        leads(pre, at, event, post),
        !event.delivers(k),
    ensures
        post.known.contains(k) == pre.known.contains(k),
{
    law_known_keys(pre, at, event, post);
}

/// The record tells what a send displaces: the value of the key that is still to be delivered.
pub proof fn law_record_tells_displaced<K, V>(h: History<K, V>, r: Record<K, V>, n: int, k: K)
    requires
        h.told_by(r),
        0 <= n <= h.events.len(),
    ensures
        h.states[n].waiting(k) == r.wanted(n, k),
{
    law_always_valid(h, n);
    lemma_settled(h.states[n], r.time(n));
    law_record_tells_contents(h, r, n, k, r.time(n));
    assert(h.states[n].settled(r.time(n)).waiting(k) == h.states[n].waiting(k));
}

/// The record tells what a receive delivers. One that respects windows delivers an update that is
/// due, and nothing only if nothing is due. One that ignores windows delivers an update that is
/// due; or, if nothing is due, the value of the key that has been cooling down the longest among
/// those of which a value is still to be delivered; and nothing only if there is no such key
/// either.
pub proof fn law_record_tells_deliveries<K, V>(h: History<K, V>, r: Record<K, V>, n: int)
    requires
        h.told_by(r),
        0 <= n < h.events.len(),
    ensures
        match r.events[n].1 {
            Event::Received(Some((k, update))) => r.due(n, k, r.events[n].0) == Some(update),
            Event::Received(None) => r.nothing_due(n, r.events[n].0),
            Event::ReceivedNow(Some((k, update))) => r.up_for_grabs(n, k, update, r.events[n].0),
            Event::ReceivedNow(None) => r.nothing_left(n, r.events[n].0),
            _ => true,
        },
{
    let (at, event) = h.events[n];
    let pre = h.states[n];
    let m = pre.settled(at);
    if n > 0 {
        assert(h.events[n - 1].0 <= h.events[n].0);
    }
    law_always_valid(h, n);
    lemma_settled(pre, at);
    lemma_idle(m.slots);
    let c = idle(m.slots) as int;
    if m.queue.len() > 0 {
        let k = m.queue[0].0;
        lemma_found(m.queue, 0);
        law_record_tells_contents(h, r, n, k, at);
    } else {
        assert forall|k: K| #[trigger] r.due(n, k, at) is None by {
            law_record_tells_contents(h, r, n, k, at);
            assert(!holds(m.queue, k));
        }
        assert forall|x: K| (#[trigger] r.wanted(n, x)) is Some implies {
            &&& holds(m.slots, x)
            &&& c <= place_of(m.slots, x) < m.slots.len()
            &&& r.last_add(n, m.slots[c].0) <= r.last_add(n, x)
        } by {
            law_record_tells_contents(h, r, n, x, at);
            assert(r.due(n, x, at) is None);
            let p = place_of(m.slots, x);
            assert(m.slots[p].0 == x);
            law_windows_in_delivery_order(h, r, n);
            lemma_by_delivery_settled(r, n, pre, at);
            if c < p {
                assert(r.last_add(n, m.slots[c].0) < r.last_add(n, m.slots[p].0));
            }
        }
        if c < m.slots.len() {
            lemma_found(m.slots, c);
            law_record_tells_contents(h, r, n, m.slots[c].0, at);
        }
    }
}

/// The windows stand in the order in which the Adds that opened them were delivered.
pub open spec fn by_delivery<K, V>(r: Record<K, V>, n: int, slots: Seq<(K, Slot<V>)>) -> bool {
    forall|i: int, j: int|
        0 <= i < j < slots.len() ==> r.last_add(n, (#[trigger] slots[i]).0) < r.last_add(
            n,
            (#[trigger] slots[j]).0,
        )
}

proof fn lemma_by_delivery_settled<K, V>(r: Record<K, V>, n: int, s: State<K, V>, now: u128)
    requires
        by_delivery(r, n, s.slots),
    ensures
        by_delivery(r, n, s.settled(now).slots),
{
    let x = ripe(s.slots, now) as int;
    let t = s.settled(now).slots;
    lemma_ripe_bound(s.slots, now);
    assert forall|i: int, j: int| 0 <= i < j < t.len() implies r.last_add(n, (#[trigger] t[i]).0)
        < r.last_add(n, (#[trigger] t[j]).0) by {
        assert(t[i] == s.slots[i + x] && t[j] == s.slots[j + x]);
    }
}

/// Windows stand, and so end and release what they withhold, in the order in which the Adds that
/// opened them were delivered.
pub proof fn law_windows_in_delivery_order<K, V>(h: History<K, V>, r: Record<K, V>, n: int)
    requires
        h.told_by(r),
        0 <= n <= h.events.len(),
    ensures
        by_delivery(r, n, h.states[n].slots),
    decreases n,
{
    if n > 0 {
        let (at, event) = h.events[n - 1];
        let pre = h.states[n - 1];
        let post = h.states[n];
        let m = pre.settled(at);
        law_windows_in_delivery_order(h, r, n - 1);
        lemma_by_delivery_settled(r, n - 1, pre, at);
        law_always_valid(h, n - 1);
        lemma_settled(pre, at);
        lemma_idle(m.slots);
        let c = idle(m.slots) as int;
        assert forall|i: int, j: int| 0 <= i < j < post.slots.len() implies r.last_add(
            n,
            (#[trigger] post.slots[i]).0,
        ) < r.last_add(n, (#[trigger] post.slots[j]).0) by {
            let a = post.slots[i].0;
            let b = post.slots[j].0;
            lemma_last_add(r, n - 1, a);
            lemma_last_add(r, n - 1, b);
            match event {
                Event::Sent(k, update) => {
                    lemma_withholding(m.slots, k, update.carried());
                    if holds(m.slots, k) {
                        assert(m.slots[place_of(m.slots, k)].0 == k);
                    }
                    assert(m.slots[i].0 == a && m.slots[j].0 == b);
                },
                Event::Cleared => {
                    assert(m.slots[i].0 == a && m.slots[j].0 == b);
                },
                Event::Received(_) | Event::ReceivedNow(_) => {
                    if m.queue.len() > 0 {
                        assert(m.slots[i].0 == a);
                        if j < m.slots.len() {
                            assert(m.slots[j].0 == b);
                        }
                        lemma_fresh_key(m, i, j);
                    } else if event is ReceivedNow && c < m.slots.len() {
                        lemma_found(m.slots, c);
                        lemma_without(m.slots, m.slots[c].0);
                        let x = if i < c { i } else { i + 1 };
                        assert(m.slots[x].0 == a);
                        if j < m.slots.len() - 1 {
                            let y = if j < c { j } else { j + 1 };
                            assert(m.slots[y].0 == b);
                        }
                    } else {
                        assert(m.slots[i].0 == a && m.slots[j].0 == b);
                    }
                },
            }
        }
    }
}

/// A key of which an Add is at the front of the queue has no window.
proof fn lemma_fresh_key<K, V>(m: State<K, V>, i: int, j: int)
    requires
        m.valid(),
        m.queue.len() > 0,
    ensures
        m.queue[0].1 is Add ==> {
            &&& 0 <= i < m.slots.len() ==> m.slots[i].0 != m.queue[0].0
            &&& 0 <= j < m.slots.len() ==> m.slots[j].0 != m.queue[0].0
        },
{
}

/// First due, first delivered: an update that is due is delivered before any update of a key of
/// which none was due at that time. That holds unless it is called off: because a Delete of its key
/// is sent and the receiver does not have the key, because the channel is cleared, or because an
/// update of its key is sent while the key is cooling down. (What is due of a key that is cooling
/// down, and of which a value is still to be delivered, is a Delete; it gives way to that value.)
pub proof fn law_first_due_first_delivered<K, V>(
    h: History<K, V>,
    r: Record<K, V>,
    n: int,
    q: int,
    a: K,
    b: K,
)
    requires
        h.told_by(r),
        0 < n <= q < h.events.len(),
        r.due(n, a, r.time(n)) is Some,
        r.due(n, b, r.time(n)) is None,
        !(r.cooling(n, a, r.time(n)) && r.wanted(n, a) is Some),
        r.events[q].1.delivers(b),
    ensures
        exists|m: int|
            n <= m < q && ((#[trigger] r.events[m]).1.delivers(a) || r.calls_off(m, a)),
{
    if forall|m: int|
        n <= m < q ==> !((#[trigger] r.events[m]).1.delivers(a) || r.calls_off(m, a)) {
        lemma_post_is_settled(h, n);
        law_record_tells_contents(h, r, n, a, r.time(n));
        law_record_tells_contents(h, r, n, b, r.time(n));
        assert(ahead(h.states[n].queue, a, b));
        assert forall|m: int| n <= m <= q implies !h.states[m].matures(
            (#[trigger] h.events[m]).0,
            a,
        ) by {
            assert forall|x: int| n <= x < m implies !(#[trigger] r.events[x]).1.delivers(a) && !(
            r.events[x].1.sends(a) && r.cooling(x, a, r.events[x].0)) && !(
            r.events[x].1 is Cleared) by {
            }
            lemma_no_value_to_come(h, r, n, m, a);
            lemma_post_is_settled(h, m);
            law_record_tells_contents(h, r, m, a, r.time(m));
            let s = h.states[m];
            let x = ripe(s.slots, h.events[m].0) as int;
            law_always_valid(h, m);
            lemma_ripe_bound(s.slots, h.events[m].0);
            lemma_take(s.slots, x);
        }
        law_first_in_first_out(h, n, q, a, b);
        let m = choose|m: int|
            n <= m < q && {
                ||| (#[trigger] h.events[m]).1.adds(a)
                ||| h.events[m].1.deletes(a)
                ||| h.events[m].1 == Event::<K, V>::Sent(a, Update::Delete)
                    && !h.states[m].known.contains(a)
                ||| h.events[m].1 is Cleared
            };
        law_record_tells_contents(h, r, m, a, r.time(m));
        assert(r.events[m].1.delivers(a) || r.calls_off(m, a));
    }
}

/// While no update of a key is sent during its cooldown, no value of it is withheld.
proof fn lemma_no_value_to_come<K, V>(h: History<K, V>, r: Record<K, V>, n: int, m: int, a: K)
    requires
        h.told_by(r),
        0 < n <= m <= h.events.len(),
        !(r.cooling(n, a, r.time(n)) && r.wanted(n, a) is Some),
        forall|x: int|
            n <= x < m ==> !(#[trigger] r.events[x]).1.delivers(a) && !(r.events[x].1.sends(a)
                && r.cooling(x, a, r.events[x].0)) && !(r.events[x].1 is Cleared),
    ensures
        !(r.cooling(m, a, r.time(m)) && r.wanted(m, a) is Some),
        r.last_add(m, a) == r.last_add(n, a),
    decreases m - n,
{
    if n < m {
        lemma_no_value_to_come(h, r, n, m - 1, a);
        assert(!r.events[m - 1].1.delivers(a));
        if m > 1 {
            assert(h.events[m - 2].0 <= h.events[m - 1].0);
        }
    }
}

} // verus!
