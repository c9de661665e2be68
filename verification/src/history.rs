//! What holds of a channel over any sequence of operations.

use vstd::prelude::*;

use crate::assoc::{
    holds, lemma_found, lemma_put, lemma_skip, lemma_without, place_of, value_of, without,
};
use crate::clock::{Clock, MAX_NANOS};
use crate::laws::{
    applied, law_clear_takes_effect, law_draining_ends, law_recv_converges,
    law_recv_now_converges, law_send_takes_effect,
};
use crate::order::{ahead, in_time_order, law_recv_keeps_order, law_send_keeps_order, lemma_ripe};
use crate::state::{
    idle, lemma_after_recv, lemma_after_recv_now, lemma_cleared, lemma_idle, lemma_ripe_bound,
    lemma_sent, lemma_settled, lemma_withholding, ripe, withholding, Slot, State,
};
use crate::Update;

verus! {

/// One operation on a channel, with what it delivered.
pub enum Event<K, V> {
    Sent(K, Update<V>),
    Cleared,
    Received(Option<(K, Update<V>)>),
    /// A receive that ignored windows.
    ReceivedNow(Option<(K, Update<V>)>),
}

impl<K, V> Event<K, V> {
    /// The update that the receiver got.
    pub open spec fn delivered(self) -> Option<(K, Update<V>)> {
        match self {
            Event::Received(got) => got,
            Event::ReceivedNow(got) => got,
            _ => None,
        }
    }

    /// The receiver got an Add of `k`.
    pub open spec fn adds(self, k: K) -> bool {
        self.delivered() matches Some((key, Update::Add(_))) && key == k
    }

    /// The receiver got a Delete of `k`.
    pub open spec fn deletes(self, k: K) -> bool {
        self.delivered() matches Some((key, Update::Delete)) && key == k
    }
}

/// The operation `event` at time `at` leads from `pre` to `post`.
pub open spec fn leads<K, V>(
    pre: State<K, V>,
    at: u128,
    event: Event<K, V>,
    post: State<K, V>,
) -> bool {
    match event {
        Event::Sent(k, update) => post == pre.sent(at, k, update),
        Event::Cleared => pre.cleared(at, post),
        Event::Received(got) => got == pre.next(at) && post == pre.after_recv(at),
        Event::ReceivedNow(got) => got == pre.next_now(at) && post == pre.after_recv_now(at),
    }
}

/// A sequence of operations, and the states before, between and after them.
#[verifier::reject_recursive_types(K)]
pub struct History<K, V> {
    pub states: Seq<State<K, V>>,
    pub events: Seq<(u128, Event<K, V>)>,
}

/// A receiver's store after it has applied what `events` delivered.
pub open spec fn received<K, V>(
    store: Map<K, V>,
    events: Seq<(u128, Event<K, V>)>,
) -> Map<K, V>
    decreases events.len(),
{
    if events.len() == 0 {
        store
    } else {
        let before = received(store, events.drop_last());
        match events.last().1.delivered() {
            Some(entry) => applied(before, entry),
            None => before,
        }
    }
}

/// A store to which everything that was sent in `events` has been applied in order.
pub open spec fn intended<K, V>(
    store: Map<K, V>,
    events: Seq<(u128, Event<K, V>)>,
) -> Map<K, V>
    decreases events.len(),
{
    if events.len() == 0 {
        store
    } else {
        let before = intended(store, events.drop_last());
        match events.last().1 {
            Event::Sent(k, update) => applied(before, (k, update)),
            Event::Cleared => Map::empty(),
            _ => before,
        }
    }
}

impl<K, V> History<K, V> {
    /// The operations lead from each state to the next, from a valid state on.
    pub open spec fn valid(self) -> bool {
        &&& self.states.len() == self.events.len() + 1
        &&& self.states[0].valid()
        &&& forall|i: int|
            0 <= i < self.events.len() ==> (#[trigger] self.events[i]).0 <= MAX_NANOS && leads(
                self.states[i],
                self.events[i].0,
                self.events[i].1,
                self.states[i + 1],
            )
    }

    /// Time does not run backward.
    pub open spec fn timely(self) -> bool {
        forall|i: int, j: int|
            0 <= i <= j < self.events.len() ==> (#[trigger] self.events[i]).0 <= (
            #[trigger] self.events[j]).0
    }

    /// The operation after state `i` does not take a value of `k` out of the window of `k`.
    pub open spec fn heeds_window(self, i: int, k: K) -> bool {
        self.events[i].1 is ReceivedNow && self.events[i].1.adds(k) ==> self.states[i].next(
            self.events[i].0,
        ) is Some
    }

    /// All but the last operation.
    pub open spec fn shorter(self) -> Self {
        History { states: self.states.drop_last(), events: self.events.drop_last() }
    }
}

proof fn lemma_leads_valid<K, V>(pre: State<K, V>, at: u128, event: Event<K, V>, post: State<K, V>)
    requires
        pre.valid(),
        at <= MAX_NANOS,
        leads(pre, at, event, post),
    ensures
        post.valid(),
        post.cooldown == pre.cooldown,
{
    match event {
        Event::Sent(k, update) => {
            lemma_sent(pre, at, k, update);
        },
        Event::Cleared => {
            lemma_cleared(pre, at, post);
        },
        Event::Received(_) => {
            lemma_after_recv(pre, at);
        },
        Event::ReceivedNow(_) => {
            lemma_after_recv_now(pre, at);
        },
    }
}

proof fn lemma_shorter<K, V>(h: History<K, V>)
    requires
        h.valid(),
        h.events.len() > 0,
    ensures
        h.shorter().valid(),
        h.shorter().states.last() == h.states[h.events.len() - 1],
        h.shorter().states[0] == h.states[0],
{
    let t = h.shorter();
    assert forall|i: int| 0 <= i < t.events.len() implies (#[trigger] t.events[i]).0 <= MAX_NANOS
        && leads(t.states[i], t.events[i].0, t.events[i].1, t.states[i + 1]) by {
        assert(h.events[i] == t.events[i]);
    }
}

/// Operations that go by a clock run forward in time: if `clocks` are the states of the channel's
/// clock before, between and after them, each reads no earlier than the one before.
pub proof fn law_clocks_run_forward<K, V>(h: History<K, V>, clocks: Seq<Clock>)
    requires
        clocks.len() == h.events.len() + 1,
        forall|i: int|
            0 <= i < h.events.len() ==> (#[trigger] clocks[i]).runs_to(clocks[i + 1])
                && h.events[i].0 == clocks[i + 1].shown(),
    ensures
        h.timely(),
        forall|i: int|
            0 <= i < clocks.len() ==> (#[trigger] clocks[i]).started() == clocks[0].started(),
{
    assert forall|i: int| 0 <= i < clocks.len() implies (#[trigger] clocks[i]).started()
        == clocks[0].started() by {
        lemma_clock_runs(clocks, 0, i);
    }
    assert forall|i: int, j: int| 0 <= i <= j < h.events.len() implies (#[trigger] h.events[i]).0
        <= (#[trigger] h.events[j]).0 by {
        assert(clocks[i].runs_to(clocks[i + 1]) && clocks[j].runs_to(clocks[j + 1]));
        lemma_clock_runs(clocks, i + 1, j + 1);
    }
}

proof fn lemma_clock_runs(clocks: Seq<Clock>, i: int, j: int)
    requires
        0 <= i <= j < clocks.len(),
        forall|m: int|
            0 <= m < clocks.len() - 1 ==> (#[trigger] clocks[m]).runs_to(clocks[m + 1]),
    ensures
        clocks[i].shown() <= clocks[j].shown(),
        clocks[i].started() == clocks[j].started(),
    decreases j - i,
{
    if i < j {
        lemma_clock_runs(clocks, i, j - 1);
        assert(clocks[j - 1].runs_to(clocks[j]));
    }
}

/// Whatever is done with a channel, it stays valid and keeps its cooldown.
pub proof fn law_always_valid<K, V>(h: History<K, V>, i: int)
    requires
        h.valid(),
        0 <= i < h.states.len(),
    ensures
        h.states[i].valid(),
        h.states[i].cooldown == h.states[0].cooldown,
    decreases i,
{
    if i > 0 {
        law_always_valid(h, i - 1);
        assert(h.events[i - 1].0 <= MAX_NANOS);
        lemma_leads_valid(
            h.states[i - 1],
            h.events[i - 1].0,
            h.events[i - 1].1,
            h.states[i],
        );
    }
}

/// The receiver's store converges to what was sent: whatever was sent, cleared and received, in
/// whatever order and at whatever times, the channel knows which keys the receiver has; delivering
/// what still waits would give the store to which everything sent has been applied; and once
/// nothing waits, the receiver has that store.
pub proof fn law_receiver_converges<K, V>(h: History<K, V>, store: Map<K, V>)
    requires
        h.valid(),
        store.dom() == h.states[0].known,
    ensures
        received(store, h.events).dom() == h.states.last().known,
        h.states.last().outcome(received(store, h.events)) == intended(
            h.states[0].outcome(store),
            h.events,
        ),
        h.states.last().backlog() == 0 ==> received(store, h.events) == intended(
            h.states[0].outcome(store),
            h.events,
        ),
    decreases h.events.len(),
{
    let last = h.events.len() - 1;
    law_always_valid(h, h.events.len() as int);
    if h.events.len() > 0 {
        let t = h.shorter();
        lemma_shorter(h);
        law_receiver_converges(t, store);
        law_always_valid(h, last);
        let pre = h.states[last];
        let post = h.states[last + 1];
        let (at, event) = h.events[last];
        let had = received(store, t.events);
        match event {
            Event::Sent(k, update) => {
                law_send_takes_effect(pre, at, k, update, had);
            },
            Event::Cleared => {
                law_clear_takes_effect(pre, at, post, had);
            },
            Event::Received(_) => {
                law_recv_converges(pre, at, had);
            },
            Event::ReceivedNow(_) => {
                law_recv_now_converges(pre, at, had);
            },
        }
    }
    law_draining_ends(h.states.last(), 0, received(store, h.events));
}

/// On a fresh channel nothing waits: the receiver's store is the one it starts with.
pub proof fn law_fresh_channel<K, V>(cooldown: u128, store: Map<K, V>)
    requires
        cooldown <= MAX_NANOS,
    ensures
        State::<K, V>::fresh(store.dom(), cooldown).valid(),
        State::<K, V>::fresh(store.dom(), cooldown).backlog() == 0,
        State::<K, V>::fresh(store.dom(), cooldown).outcome(store) == store,
{
    let s = State::<K, V>::fresh(store.dom(), cooldown);
    law_draining_ends(s, 0, store);
}

/// A Delete is delivered only for a key that the receiver has, and takes it away; an Add gives it.
/// Nothing else changes which keys the receiver has.
pub proof fn law_known_keys<K, V>(pre: State<K, V>, at: u128, event: Event<K, V>, post: State<K, V>)
    requires
        pre.valid(),
        leads(pre, at, event, post),
    ensures
        match event.delivered() {
            Some((k, Update::Add(_))) => post.known == pre.known.insert(k),
            Some((k, Update::Delete)) => pre.known.contains(k) && post.known == pre.known.remove(k),
            None => post.known == pre.known,
        },
{
    lemma_settled(pre, at);
}

/// At most one Delete per present key: between two deliveries of a Delete for the same key there
/// is the delivery of an Add for it.
pub proof fn law_deletes_are_not_repeated<K, V>(h: History<K, V>, i: int, j: int, k: K)
    requires
        h.valid(),
        0 <= i < j < h.events.len(),
        h.events[i].1.deletes(k),
        h.events[j].1.deletes(k),
    ensures
        exists|m: int| i < m < j && (#[trigger] h.events[m]).1.adds(k),
{
    law_always_valid(h, i);
    law_known_keys(h.states[i], h.events[i].0, h.events[i].1, h.states[i + 1]);
    law_always_valid(h, j);
    law_known_keys(h.states[j], h.events[j].0, h.events[j].1, h.states[j + 1]);
    lemma_key_comes_back(h, i + 1, j, k);
}

/// A key that the receiver gets between two states came with an Add.
proof fn lemma_key_comes_back<K, V>(h: History<K, V>, i: int, j: int, k: K)
    requires
        h.valid(),
        0 <= i <= j < h.states.len(),
        !h.states[i].known.contains(k),
        h.states[j].known.contains(k),
    ensures
        exists|m: int| i <= m < j && (#[trigger] h.events[m]).1.adds(k),
    decreases j - i,
{
    law_always_valid(h, j - 1);
    let (at, event) = h.events[j - 1];
    law_known_keys(h.states[j - 1], at, event, h.states[j]);
    if h.states[j - 1].known.contains(k) {
        lemma_key_comes_back(h, i, j - 1, k);
    } else {
        assert(h.events[j - 1].1.adds(k));
    }
}

/// When the window of `k` is over; `None` if it is not open.
pub open spec fn window<K, V>(s: State<K, V>, k: K) -> Option<u128> {
    match value_of(s.slots, k) {
        Some(slot) => Some(slot.until),
        None => None,
    }
}

/// An operation that does not take a value out of a window closes it only when it is over, and does
/// not move it.
proof fn lemma_window_stays<K, V>(
    pre: State<K, V>,
    at: u128,
    event: Event<K, V>,
    post: State<K, V>,
    k: K,
)
    requires
        pre.valid(),
        at <= MAX_NANOS,
        leads(pre, at, event, post),
        event is ReceivedNow && event.adds(k) ==> pre.next(at) is Some,
        window(pre, k) is Some,
        at < window(pre, k)->0,
    ensures
        window(post, k) == window(pre, k),
{
    let m = pre.settled(at);
    let n = ripe(pre.slots, at) as int;
    lemma_settled(pre, at);
    lemma_ripe_bound(pre.slots, at);
    lemma_skip(pre.slots, n);
    let p = place_of(pre.slots, k);
    assert(pre.slots[p].0 == k);
    if p < n {
        lemma_ripe(pre.slots, at, p);
    }
    assert(holds(m.slots, pre.slots[p].0));
    assert(value_of(m.slots, k) == value_of(pre.slots, k));
    match event {
        Event::Sent(key, update) => {
            lemma_withholding(m.slots, key, update.carried());
        },
        Event::Cleared => {
            let q = place_of(m.slots, k);
            assert(m.slots[q].0 == k);
            lemma_cleared(pre, at, post);
            assert(post.slots[q].0 == k);
            lemma_found(post.slots, q);
        },
        Event::Received(_) | Event::ReceivedNow(_) => {
            if m.queue.len() > 0 && m.queue[0].1 is Add {
                lemma_found(m.queue, 0);
                lemma_put(
                    m.slots,
                    m.queue[0].0,
                    Slot { until: (at + m.cooldown) as u128, withheld: None },
                );
            }
            let c = idle(m.slots) as int;
            lemma_idle(m.slots);
            if event is ReceivedNow && m.queue.len() == 0 && c < m.slots.len() {
                let j = m.slots[c].0;
                lemma_without(m.slots, j);
                lemma_put(
                    without(m.slots, j),
                    j,
                    Slot { until: (at + m.cooldown) as u128, withheld: None },
                );
            }
        },
    }
}

/// Adds of a key are delivered at least a cooldown apart, as long as no receive takes the value of
/// the key out of its window.
pub proof fn law_adds_are_spaced<K, V>(h: History<K, V>, i: int, j: int, k: K)
    requires
        h.valid(),
        h.timely(),
        0 <= i < j < h.events.len(),
        forall|m: int| i < m <= j ==> h.heeds_window(m, k),
        h.events[i].1.adds(k),
        h.events[j].1.adds(k),
    ensures
        h.events[i].0 + h.states[0].cooldown <= h.events[j].0,
{
    let (at, event) = h.events[i];
    let pre = h.states[i];
    law_always_valid(h, i);
    law_always_valid(h, j);
    lemma_settled(pre, at);
    assert(h.heeds_window(j, k));
    lemma_idle(pre.settled(at).slots);
    if pre.cooldown > 0 {
        let m = pre.settled(at);
        let until = (at + pre.cooldown) as u128;
        lemma_put(m.slots, k, Slot { until, withheld: None::<V> });
        lemma_without(m.slots, k);
        lemma_put(without(m.slots, k), k, Slot { until, withheld: None::<V> });
        assert(window(h.states[i + 1], k) == Some(until));
        if h.events[j].0 < until {
            lemma_window_open(h, i + 1, j, k, until);
            let (at2, event2) = h.events[j];
            let m2 = h.states[j].settled(at2);
            lemma_settled(h.states[j], at2);
            assert(m2.queue[0].0 == k);
            lemma_cooling(h.states[j], at2, k);
        }
    } else {
        assert(h.events[i].0 <= h.events[j].0);
    }
}

/// A key whose window is open at `now` is still cooling down after settling.
proof fn lemma_cooling<K, V>(s: State<K, V>, now: u128, k: K)
    requires
        s.valid(),
        window(s, k) is Some,
        now < window(s, k)->0,
    ensures
        holds(s.settled(now).slots, k),
{
    let n = ripe(s.slots, now) as int;
    lemma_ripe_bound(s.slots, now);
    lemma_skip(s.slots, n);
    let p = place_of(s.slots, k);
    assert(s.slots[p].0 == k);
    if p < n {
        lemma_ripe(s.slots, now, p);
    }
    assert(holds(s.slots.skip(n), s.slots[p].0));
}

/// A window stays open as long as its time has not come.
proof fn lemma_window_open<K, V>(h: History<K, V>, i: int, j: int, k: K, until: u128)
    requires
        h.valid(),
        h.timely(),
        0 <= i <= j < h.events.len(),
        forall|m: int| i <= m <= j ==> h.heeds_window(m, k),
        window(h.states[i], k) == Some(until),
        h.events[j].0 < until,
    ensures
        window(h.states[j], k) == Some(until),
    decreases j - i,
{
    if i < j {
        assert(h.events[j - 1].0 <= h.events[j].0);
        assert(h.heeds_window(j - 1, k));
        lemma_window_open(h, i, j - 1, k, until);
        law_always_valid(h, j - 1);
        lemma_window_stays(
            h.states[j - 1],
            h.events[j - 1].0,
            h.events[j - 1].1,
            h.states[j],
            k,
        );
    }
}

/// No window of `slots` ends later than a cooldown after `now`, and they end in order.
spec fn windows_by<K, V>(slots: Seq<(K, Slot<V>)>, latest: int) -> bool {
    &&& in_time_order(slots)
    &&& forall|i: int| 0 <= i < slots.len() ==> (#[trigger] slots[i]).1.until <= latest
}

/// As time does not run backward, windows end in the order in which they were opened.
pub proof fn law_windows_end_in_order<K, V>(h: History<K, V>, i: int)
    requires
        h.valid(),
        h.timely(),
        h.states[0].slots.len() == 0,
        0 <= i < h.states.len(),
    ensures
        in_time_order(h.states[i].slots),
{
    if i > 0 {
        lemma_windows_by(h, i);
    }
}

proof fn lemma_windows_by<K, V>(h: History<K, V>, i: int)
    requires
        h.valid(),
        h.timely(),
        h.states[0].slots.len() == 0,
        0 < i < h.states.len(),
    ensures
        windows_by(h.states[i].slots, h.events[i - 1].0 + h.states[0].cooldown),
    decreases i,
{
    let (at, event) = h.events[i - 1];
    let pre = h.states[i - 1];
    let post = h.states[i];
    let latest = at + h.states[0].cooldown;
    law_always_valid(h, i - 1);
    if i > 1 {
        lemma_windows_by(h, i - 1);
        assert(h.events[i - 2].0 <= h.events[i - 1].0);
    }
    assert(windows_by(pre.slots, latest));
    let n = ripe(pre.slots, at) as int;
    let m = pre.settled(at);
    lemma_settled(pre, at);
    lemma_ripe_bound(pre.slots, at);
    lemma_windows_skip(pre.slots, n, latest);
    match event {
        Event::Sent(k, update) => {
            let w = withholding(m.slots, k, update.carried());
            lemma_withholding(m.slots, k, update.carried());
            assert forall|i: int| 0 <= i < w.len() implies (#[trigger] w[i]).1.until
                == m.slots[i].1.until by {
                if holds(m.slots, k) {
                    assert(m.slots[place_of(m.slots, k)].0 == k);
                }
            }
            assert(windows_by(w, latest));
        },
        Event::Cleared => {},
        Event::Received(_) => {
            if m.queue.len() > 0 && m.queue[0].1 is Add {
                assert(!holds(m.slots, m.queue[0].0));
            }
        },
        Event::ReceivedNow(_) => {
            let c = idle(m.slots) as int;
            lemma_idle(m.slots);
            if m.queue.len() > 0 {
                if m.queue[0].1 is Add {
                    assert(!holds(m.slots, m.queue[0].0));
                }
            } else if c < m.slots.len() {
                lemma_without(m.slots, m.slots[c].0);
                lemma_windows_without(m.slots, m.slots[c].0, latest);
            }
        },
    }
}

proof fn lemma_windows_skip<K, V>(slots: Seq<(K, Slot<V>)>, n: int, latest: int)
    requires
        windows_by(slots, latest),
        0 <= n <= slots.len(),
    ensures
        windows_by(slots.skip(n), latest),
{
    let t = slots.skip(n);
    assert forall|i: int, j: int| 0 <= i <= j < t.len() implies (#[trigger] t[i]).1.until <= (
    #[trigger] t[j]).1.until by {
        assert(t[i] == slots[i + n] && t[j] == slots[j + n]);
    }
}

proof fn lemma_windows_without<K, V>(slots: Seq<(K, Slot<V>)>, k: K, latest: int)
    requires
        windows_by(slots, latest),
    ensures
        windows_by(without(slots, k), latest),
{
    let t = without(slots, k);
    if holds(slots, k) {
        let p = place_of(slots, k);
        assert forall|i: int, j: int| 0 <= i <= j < t.len() implies (#[trigger] t[i]).1.until <= (
        #[trigger] t[j]).1.until by {
            let x = if i < p { i } else { i + 1 };
            let y = if j < p { j } else { j + 1 };
            assert(t[i] == slots[x] && t[j] == slots[y]);
        }
    }
}

/// First in, first out: a key that is ahead of another in the queue is delivered before it, unless
/// it is deleted and the receiver does not have it, or the channel is cleared first, or a withheld
/// value of its own matures.
pub proof fn law_first_in_first_out<K, V>(h: History<K, V>, i: int, j: int, a: K, b: K)
    requires
        h.valid(),
        0 <= i <= j < h.events.len(),
        ahead(h.states[i].queue, a, b),
        h.events[j].1.adds(b) || h.events[j].1.deletes(b),
        forall|m: int| i <= m <= j ==> !h.states[m].matures((#[trigger] h.events[m]).0, a),
    ensures
        exists|m: int|
            i <= m < j && {
                ||| (#[trigger] h.events[m]).1.adds(a)
                ||| h.events[m].1.deletes(a)
                ||| h.events[m].1 == Event::<K, V>::Sent(a, Update::Delete)
                    && !h.states[m].known.contains(a)
                ||| h.events[m].1 is Cleared
            },
    decreases j - i,
{
    let (at, event) = h.events[i];
    let pre = h.states[i];
    law_always_valid(h, i);
    let over = {
        ||| event.adds(a)
        ||| event.deletes(a)
        ||| event == Event::<K, V>::Sent(a, Update::Delete) && !pre.known.contains(a)
        ||| event is Cleared
    };
    if event is Received || event is ReceivedNow {
        law_recv_keeps_order(pre, at, a, b);
    }
    if !over {
        if let Event::Sent(k, update) = event {
            law_send_keeps_order(pre, at, k, update, a, b);
        }
        law_first_in_first_out(h, i + 1, j, a, b);
    } else if i == j {
        assert(event.delivered() is Some);
    }
}

} // verus!
