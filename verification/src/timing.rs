//! Updates come out in the order of the times at which they take effect.

use vstd::prelude::*;

use crate::assoc::{
    holds, lemma_drop_first, lemma_found, lemma_put, lemma_skip, lemma_take, lemma_without,
    place_of, value_of, without,
};
use crate::history::{
    law_always_valid, law_known_keys, law_windows_end_in_order, leads, Event, History,
};
use crate::order::{
    ahead, idle_at, in_time_order, lemma_all_ripe, lemma_put_order, lemma_release_order,
    lemma_settled_order, lemma_without_order,
};
use crate::state::{
    idle, lemma_idle, lemma_released_holds, lemma_ripe_bound, lemma_settled, lemma_withholding,
    ripe, Slot, State,
};
use crate::Update;

verus! {

impl<K, V> Event<K, V> {
    /// The update that was sent.
    pub open spec fn posted(self) -> Option<(K, Update<V>)> {
        match self {
            Event::Sent(k, update) => Some((k, update)),
            _ => None,
        }
    }

    /// An update of `k` was sent.
    pub open spec fn sends(self, k: K) -> bool {
        self.posted() matches Some((key, _)) && key == k
    }

    /// The receiver got an update of `k`.
    pub open spec fn delivers(self, k: K) -> bool {
        self.delivered() matches Some((key, _)) && key == k
    }
}

impl<K, V> State<K, V> {
    /// When an update of `k` that is sent at `at` takes effect: at once, or, if it is an Add and
    /// `k` is cooling down, when the window of `k` is over.
    pub open spec fn effective(self, at: u128, k: K, update: Update<V>) -> u128 {
        match (update, value_of(self.settled(at).slots, k)) {
            (Update::Add(_), Some(slot)) => slot.until,
            _ => at,
        }
    }

    /// No update of `k` waits, in the queue or in its window.
    pub open spec fn free(self, k: K) -> bool {
        !holds(self.queue, k) && idle_at(self.slots, k)
    }
}

impl<K, V> History<K, V> {
    /// When the update that operation `i` sends takes effect.
    pub open spec fn effective(self, i: int) -> u128 {
        match self.events[i].1 {
            Event::Sent(k, update) => self.states[i].effective(self.events[i].0, k, update),
            _ => self.events[i].0,
        }
    }

    /// Operation `i` sends an update of `k` that then waits for delivery, and up to operation `r`
    /// it is the last: no other of `k` is sent after it, and the channel is not cleared.
    pub open spec fn last_update(self, i: int, r: int, k: K) -> bool {
        &&& 0 <= i < r < self.events.len()
        &&& self.events[i].1.sends(k)
        &&& self.events[i].1.posted() == Some((k, Update::<V>::Delete))
            ==> self.states[i].known.contains(k)
        &&& forall|m: int|
            i < m < r ==> !(#[trigger] self.events[m]).1.sends(k) && !(self.events[m].1 is Cleared)
    }

    /// It is also the first: no other update of `k` is queued when it is sent.
    pub open spec fn only_update(self, i: int, r: int, k: K) -> bool {
        &&& self.last_update(i, r, k)
        &&& !holds(self.states[i].settled(self.events[i].0).queue, k)
    }
}

/// A value of `k` is withheld until `until`, and no update of `k` is queued.
spec fn held<K, V>(s: State<K, V>, k: K, until: u128) -> bool {
    &&& !holds(s.queue, k)
    &&& value_of(s.slots, k) matches Some(slot) && slot.until == until && slot.withheld is Some
}

/// An update of `k` is queued, and nothing is withheld under `k`.
spec fn queued<K, V>(s: State<K, V>, k: K) -> bool {
    &&& holds(s.queue, k)
    &&& idle_at(s.slots, k)
}

/// What settling does to the window of a key: it stays, or what it withheld is queued.
pub proof fn lemma_settled_key<K, V>(s: State<K, V>, now: u128, k: K)
    requires
        s.valid(),
        in_time_order(s.slots),
    ensures
        match value_of(s.slots, k) {
            Some(slot) => if slot.until <= now {
                &&& !holds(s.settled(now).slots, k)
                &&& value_of(s.settled(now).queue, k) == match slot.withheld {
                    Some(v) => Some(Update::Add(v)),
                    None => value_of(s.queue, k),
                }
            } else {
                &&& value_of(s.settled(now).slots, k) == Some(slot)
                &&& value_of(s.settled(now).queue, k) == value_of(s.queue, k)
            },
            None => {
                &&& !holds(s.settled(now).slots, k)
                &&& value_of(s.settled(now).queue, k) == value_of(s.queue, k)
            },
        },
{
    let n = ripe(s.slots, now) as int;
    lemma_ripe_bound(s.slots, now);
    lemma_take(s.slots, n);
    lemma_skip(s.slots, n);
    lemma_released_holds(s.queue, s.slots.take(n), k);
    if holds(s.slots, k) {
        let p = place_of(s.slots, k);
        assert(s.slots[p].0 == k);
        lemma_all_ripe(s.slots, now, p);
        if p < n {
            assert(holds(s.slots.take(n), s.slots[p].0));
        } else {
            assert(holds(s.slots.skip(n), s.slots[p].0));
            assert(!holds(s.slots.take(n), k));
        }
    }
}

/// An operation changes what is kept under a key only if it sends, clears, or delivers it.
pub proof fn lemma_step_key<K, V>(
    pre: State<K, V>,
    at: u128,
    event: Event<K, V>,
    post: State<K, V>,
    k: K,
)
    requires
        pre.valid(),
        leads(pre, at, event, post),
        !event.sends(k),
        !(event is Cleared),
        !event.delivers(k),
    ensures
        value_of(post.queue, k) == value_of(pre.settled(at).queue, k),
        value_of(post.slots, k) == value_of(pre.settled(at).slots, k),
{
    let m = pre.settled(at);
    lemma_settled(pre, at);
    match event {
        Event::Sent(j, update) => {
            lemma_withholding(m.slots, j, update.carried());
            lemma_put(m.queue, j, update);
            lemma_without(m.queue, j);
        },
        Event::Cleared => {},
        Event::Received(_) | Event::ReceivedNow(_) => {
            let slot = Slot::<V> { until: (at + m.cooldown) as u128, withheld: None };
            let c = idle(m.slots) as int;
            lemma_idle(m.slots);
            if m.queue.len() > 0 {
                lemma_drop_first(m.queue);
                lemma_put(m.slots, m.queue[0].0, slot);
            } else if event is ReceivedNow && c < m.slots.len() {
                lemma_without(m.slots, m.slots[c].0);
                lemma_put(without(m.slots, m.slots[c].0), m.slots[c].0, slot);
            }
        },
    }
}

/// After the delivery of an Add no other update of its key waits.
pub proof fn law_delivered_add_was_alone<K, V>(h: History<K, V>, d: int, k: K)
    requires
        h.valid(),
        0 <= d < h.events.len(),
        h.events[d].1.adds(k),
    ensures
        h.states[d + 1].free(k),
{
    let (at, event) = h.events[d];
    let m = h.states[d].settled(at);
    law_always_valid(h, d);
    lemma_settled(h.states[d], at);
    lemma_idle(m.slots);
    let slot = Slot::<V> { until: (at + m.cooldown) as u128, withheld: None };
    lemma_put(m.slots, k, slot);
    lemma_without(m.slots, k);
    lemma_put(without(m.slots, k), k, slot);
    if m.queue.len() > 0 {
        lemma_found(m.queue, 0);
        lemma_drop_first(m.queue);
    }
}

/// A key of which no update waits is not delivered.
proof fn lemma_free_is_not_delivered<K, V>(
    pre: State<K, V>,
    at: u128,
    event: Event<K, V>,
    post: State<K, V>,
    k: K,
)
    requires
        pre.valid(),
        leads(pre, at, event, post),
        pre.settled(at).free(k),
    ensures
        !event.delivers(k),
{
    let m = pre.settled(at);
    lemma_settled(pre, at);
    lemma_idle(m.slots);
    if m.queue.len() > 0 {
        lemma_found(m.queue, 0);
    } else if idle(m.slots) < m.slots.len() {
        lemma_found(m.slots, idle(m.slots) as int);
    }
}

/// A key of which no update waits stays that way until one is sent or the channel is cleared; and
/// the receiver keeps having it, or not having it.
pub proof fn law_key_stays_free<K, V>(h: History<K, V>, d: int, i: int, k: K)
    requires
        h.valid(),
        h.timely(),
        h.states[0].slots.len() == 0,
        0 <= d <= i < h.events.len(),
        h.states[d].free(k),
        forall|m: int|
            d <= m < i ==> !(#[trigger] h.events[m]).1.sends(k) && !(h.events[m].1 is Cleared),
    ensures
        h.states[i].free(k),
        h.states[i].known.contains(k) == h.states[d].known.contains(k),
        h.states[i].settled(h.events[i].0).free(k),
    decreases i - d,
{
    if d < i {
        law_key_stays_free(h, d, i - 1, k);
        let (at, event) = h.events[i - 1];
        let pre = h.states[i - 1];
        law_always_valid(h, i - 1);
        lemma_free_is_not_delivered(pre, at, event, h.states[i], k);
        lemma_step_key(pre, at, event, h.states[i], k);
        law_known_keys(pre, at, event, h.states[i]);
    }
    law_always_valid(h, i);
    law_windows_end_in_order(h, i);
    lemma_settled_key(h.states[i], h.events[i].0, k);
}

/// An update that is sent when no other of its key waits, and that is not followed by another, is
/// the only one of its key. No other waits on a fresh channel, and none waits after the delivery of
/// an Add, as long as nothing is sent.
pub proof fn law_update_of_free_key<K, V>(h: History<K, V>, d: int, i: int, r: int, k: K)
    requires
        h.valid(),
        h.timely(),
        h.states[0].slots.len() == 0,
        0 <= d <= i < r < h.events.len(),
        h.states[d].free(k),
        h.events[i].1.sends(k),
        h.events[i].1.posted() == Some((k, Update::<V>::Delete)) ==> h.states[d].known.contains(k),
        forall|m: int|
            d <= m < r && m != i ==> !(#[trigger] h.events[m]).1.sends(k) && !(
            h.events[m].1 is Cleared),
    ensures
        h.only_update(i, r, k),
{
    law_key_stays_free(h, d, i, k);
}

/// `update` of `k` is queued, and nothing is withheld under `k`.
spec fn queued_as<K, V>(s: State<K, V>, k: K, update: Update<V>) -> bool {
    &&& value_of(s.queue, k) == Some(update)
    &&& idle_at(s.slots, k)
}

/// The value of `update` is withheld under `k` until `until`. A Delete of `k` may be queued.
spec fn held_as<K, V>(s: State<K, V>, k: K, until: u128, update: Update<V>) -> bool {
    value_of(s.slots, k) matches Some(slot) && {
        &&& slot.until == until
        &&& slot.withheld is Some
        &&& slot.withheld == update.carried()
    }
}

/// `update` of `a` comes before any of `b`: it is queued, and `b` is not queued before it; or both
/// are withheld, and `a` not as long as `b`.
spec fn precedes<K, V>(
    s: State<K, V>,
    a: K,
    update: Update<V>,
    until: u128,
    b: K,
    later: u128,
) -> bool {
    ||| ahead(s.queue, a, b) && queued_as(s, a, update)
    ||| held_as(s, a, until, update) && held(s, b, later)
}

proof fn lemma_precedes_settled<K, V>(
    s: State<K, V>,
    now: u128,
    a: K,
    update: Update<V>,
    until: u128,
    b: K,
    later: u128,
)
    requires
        s.valid(),
        in_time_order(s.slots),
        a != b,
        until < later,
        precedes(s, a, update, until, b, later),
    ensures
        precedes(s.settled(now), a, update, until, b, later),
{
    let n = ripe(s.slots, now) as int;
    let early = s.slots.take(n);
    lemma_ripe_bound(s.slots, now);
    lemma_take(s.slots, n);
    lemma_settled_key(s, now, a);
    lemma_settled_key(s, now, b);
    if held_as(s, a, until, update) && held(s, b, later) {
        if until <= now {
            let p = place_of(s.slots, a);
            let q = place_of(s.slots, b);
            assert(s.slots[p].0 == a && s.slots[q].0 == b);
            lemma_all_ripe(s.slots, now, p);
            assert(early[p] == s.slots[p]);
            lemma_found(early, p);
            if q < n {
                assert(early[q] == s.slots[q]);
                lemma_found(early, q);
            }
            if q <= p {
                assert(s.slots[q].1.until <= s.slots[p].1.until);
            }
            lemma_release_order(s.queue, early, a, b);
        }
    } else {
        if holds(early, a) {
            assert(value_of(early, a) == value_of(s.slots, a));
        }
        lemma_settled_order(s, now, a, b);
    }
}

/// Closing the windows that are over leaves the others in order.
pub proof fn lemma_in_time_order_settled<K, V>(s: State<K, V>, now: u128)
    requires
        in_time_order(s.slots),
    ensures
        in_time_order(s.settled(now).slots),
{
    let n = ripe(s.slots, now) as int;
    let t = s.settled(now).slots;
    lemma_ripe_bound(s.slots, now);
    assert forall|i: int, j: int| 0 <= i <= j < t.len() implies (#[trigger] t[i]).1.until <= (
    #[trigger] t[j]).1.until by {
        assert(t[i] == s.slots[i + n] && t[j] == s.slots[j + n]);
    }
}

proof fn lemma_precedes_step<K, V>(
    pre: State<K, V>,
    at: u128,
    event: Event<K, V>,
    post: State<K, V>,
    a: K,
    update: Update<V>,
    until: u128,
    b: K,
    later: u128,
)
    requires
        pre.valid(),
        in_time_order(pre.slots),
        leads(pre, at, event, post),
        !event.sends(a),
        !event.sends(b),
        !(event is Cleared),
        a != b,
        until < later,
        precedes(pre, a, update, until, b, later),
    ensures
        !event.delivers(b),
        event.delivered() != Some((a, update)) ==> precedes(post, a, update, until, b, later),
{
    let m = pre.settled(at);
    lemma_settled(pre, at);
    lemma_precedes_settled(pre, at, a, update, until, b, later);
    if m.queue.len() > 0 {
        lemma_found(m.queue, 0);
    } else if event is ReceivedNow {
        let c = idle(m.slots) as int;
        let p = place_of(m.slots, a);
        let q = place_of(m.slots, b);
        lemma_idle(m.slots);
        assert(m.slots[p].0 == a && m.slots[q].0 == b);
        lemma_in_time_order_settled(pre, at);
        if q <= p {
            assert(m.slots[q].1.until <= m.slots[p].1.until);
        }
        lemma_found(m.slots, q);
        assert(c <= p);
    }
    if event.delivered() != Some((a, update)) {
        if !event.delivers(a) {
            lemma_step_key(pre, at, event, post, a);
        }
        if ahead(m.queue, a, b) && queued_as(m, a, update) {
            match event {
                Event::Sent(j, sent) => {
                    lemma_put_order(m.queue, j, sent, a, b);
                    lemma_without_order(m.queue, j, a, b);
                },
                _ => {
                    if m.queue.len() > 0 {
                        lemma_drop_first(m.queue);
                        lemma_without_order(m.queue, m.queue[0].0, a, b);
                    }
                },
            }
        } else {
            lemma_step_key(pre, at, event, post, b);
        }
    }
}

/// An update waits, in the queue or in its window, until it is delivered.
proof fn lemma_update_waits<K, V>(
    h: History<K, V>,
    i: int,
    x: int,
    r: int,
    k: K,
    update: Update<V>,
)
    requires
        h.valid(),
        h.timely(),
        h.states[0].slots.len() == 0,
        h.last_update(i, r, k),
        h.events[i].1.posted() == Some((k, update)),
        i < x <= r,
        forall|m: int| i < m < x ==> (#[trigger] h.events[m]).1.delivered() != Some((k, update)),
    ensures
        queued_as(h.states[x], k, update) || held_as(h.states[x], k, h.effective(i), update),
        h.effective(i) >= h.events[i].0,
    decreases x - i,
{
    let (at, event) = h.events[x - 1];
    let pre = h.states[x - 1];
    let m = pre.settled(at);
    law_always_valid(h, x - 1);
    law_windows_end_in_order(h, x - 1);
    lemma_settled(pre, at);
    lemma_settled_key(pre, at, k);
    if x == i + 1 {
        lemma_withholding(m.slots, k, update.carried());
        lemma_put(m.queue, k, update);
    } else {
        lemma_update_waits(h, i, x - 1, r, k, update);
        if event.delivers(k) {
            lemma_idle(m.slots);
            if m.queue.len() > 0 {
                lemma_found(m.queue, 0);
            } else {
                lemma_found(m.slots, idle(m.slots) as int);
            }
        } else {
            lemma_step_key(pre, at, event, h.states[x], k);
        }
    }
}

/// An update that is the only one of its key is queued or withheld until it is delivered.
proof fn lemma_waits_through<K, V>(h: History<K, V>, i: int, x: int, r: int, k: K)
    requires
        h.valid(),
        h.timely(),
        h.states[0].slots.len() == 0,
        h.only_update(i, r, k),
        i < x <= r,
        forall|m: int| i < m < x ==> !(#[trigger] h.events[m]).1.delivers(k),
    ensures
        queued(h.states[x], k) || held(h.states[x], k, h.effective(i)),
        h.effective(i) > h.events[x - 1].0 ==> held(h.states[x], k, h.effective(i)),
        h.effective(i) >= h.events[i].0,
    decreases x - i,
{
    let (at, event) = h.events[x - 1];
    let pre = h.states[x - 1];
    let m = pre.settled(at);
    law_always_valid(h, x - 1);
    law_windows_end_in_order(h, x - 1);
    lemma_settled(pre, at);
    lemma_settled_key(pre, at, k);
    if x == i + 1 {
        if let Event::Sent(_, update) = event {
            lemma_withholding(m.slots, k, update.carried());
            lemma_put(m.queue, k, update);
        }
    } else {
        lemma_waits_through(h, i, x - 1, r, k);
        assert(h.events[x - 2].0 <= h.events[x - 1].0);
        lemma_step_key(pre, at, event, h.states[x], k);
    }
}

/// Updates are delivered in the order of the times at which they take effect. A regular update
/// takes effect when it is sent; an Add of a key that is cooling down takes effect when the window
/// of the key is over.
///
/// In full: if updates of two different keys wait, each the last of its key, and the first takes
/// effect before the second, then the second is not delivered unless the first has been. It does
/// not matter which of them was sent first, nor whether receives respect windows.
///
/// (The second must not take the place of an update of its key that is already queued: it would
/// then come out as early as that one.)
pub proof fn law_effective_order<K, V>(h: History<K, V>, i: int, j: int, r: int, a: K, b: K)
    requires
        h.valid(),
        h.timely(),
        h.states[0].slots.len() == 0,
        a != b,
        h.last_update(i, r, a),
        h.only_update(j, r, b),
        h.effective(i) < h.effective(j),
        h.events[r].1.delivers(b),
    ensures
        exists|m: int|
            i < m < r && (#[trigger] h.events[m]).1.delivered() == h.events[i].1.posted(),
{
    let ea = h.effective(i);
    let eb = h.effective(j);
    let first = (h.events[i].1.posted()->0).1;
    if forall|m: int| i < m < r ==> (#[trigger] h.events[m]).1.delivered() != Some((a, first)) {
        let x = if i < j {
            j
        } else {
            i
        };
        let (at, event) = h.events[x];
        let pre = h.states[x];
        let m = pre.settled(at);
        law_always_valid(h, x);
        law_windows_end_in_order(h, x);
        lemma_settled(pre, at);
        lemma_settled_key(pre, at, a);
        lemma_settled_key(pre, at, b);
        lemma_update_waits(h, i, i + 1, r, a, first);
        lemma_waits_through(h, j, j + 1, r, b);
        if i < j {
            lemma_update_waits(h, i, j, r, a, first);
            if let Event::Sent(_, update) = event {
                lemma_withholding(m.slots, b, update.carried());
                lemma_put(m.queue, b, update);
                if holds(m.queue, a) {
                    lemma_put_order(m.queue, b, update, a, b);
                }
            }
        } else {
            lemma_held_through(h, j, i, r, b);
            lemma_withholding(m.slots, a, first.carried());
            lemma_put(m.queue, a, first);
        }
        assert(precedes(h.states[x + 1], a, first, ea, b, eb));
        lemma_precedes_through(h, x + 1, r, a, first, ea, b, eb);
        law_always_valid(h, r);
        law_windows_end_in_order(h, r);
        lemma_precedes_step(
            h.states[r],
            h.events[r].0,
            h.events[r].1,
            h.states[r + 1],
            a,
            first,
            ea,
            b,
            eb,
        );
    }
}

/// An update that is withheld, and that is delivered in the end, stays withheld until its window is
/// over or it is delivered.
proof fn lemma_held_through<K, V>(h: History<K, V>, j: int, x: int, r: int, k: K)
    requires
        h.valid(),
        h.timely(),
        h.states[0].slots.len() == 0,
        h.only_update(j, r, k),
        j < x <= r,
        h.events[r].1.delivers(k),
        h.effective(j) > h.events[x].0,
    ensures
        held(h.states[x], k, h.effective(j)),
        forall|m: int| j < m < x ==> !(#[trigger] h.events[m]).1.delivers(k),
    decreases x - j,
{
    assert(h.events[x - 1].0 <= h.events[x].0);
    if x > j + 1 {
        lemma_held_through(h, j, x - 1, r, k);
        let (at, event) = h.events[x - 1];
        let m = h.states[x - 1].settled(at);
        law_always_valid(h, x - 1);
        law_windows_end_in_order(h, x - 1);
        lemma_settled_key(h.states[x - 1], at, k);
        if m.queue.len() > 0 {
            assert(m.queue[0].0 != k);
        }
        if event.delivers(k) {
            assert(event.adds(k));
            law_delivered_add_was_alone(h, x - 1, k);
            law_key_stays_free(h, x, r, k);
            law_always_valid(h, r);
            lemma_free_is_not_delivered(
                h.states[r],
                h.events[r].0,
                h.events[r].1,
                h.states[r + 1],
                k,
            );
        }
    }
    lemma_waits_through(h, j, x, r, k);
}

proof fn lemma_precedes_through<K, V>(
    h: History<K, V>,
    x: int,
    r: int,
    a: K,
    update: Update<V>,
    until: u128,
    b: K,
    later: u128,
)
    requires
        h.valid(),
        h.timely(),
        h.states[0].slots.len() == 0,
        0 <= x <= r < h.events.len(),
        a != b,
        until < later,
        precedes(h.states[x], a, update, until, b, later),
        forall|m: int|
            x <= m < r ==> {
                &&& !(#[trigger] h.events[m]).1.sends(a)
                &&& !h.events[m].1.sends(b)
                &&& !(h.events[m].1 is Cleared)
                &&& h.events[m].1.delivered() != Some((a, update))
            },
    ensures
        precedes(h.states[r], a, update, until, b, later),
    decreases r - x,
{
    if x < r {
        let (at, event) = h.events[x];
        law_always_valid(h, x);
        law_windows_end_in_order(h, x);
        assert(!h.events[x].1.sends(a));
        lemma_precedes_step(h.states[x], at, event, h.states[x + 1], a, update, until, b, later);
        lemma_precedes_through(h, x + 1, r, a, update, until, b, later);
    }
}

} // verus!
