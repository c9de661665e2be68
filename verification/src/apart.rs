//! What is done with one key leaves the others alone.

use vstd::prelude::*;

use crate::assoc::{
    holds, lemma_drop_first, lemma_found, lemma_front_without, lemma_put_then_without,
    lemma_put_without, lemma_skip, lemma_split_without, lemma_take, lemma_to_back,
    lemma_to_back_without, lemma_without, lemma_without_commutes, place_of, to_back, unique,
    value_of, without,
};
use crate::history::{law_always_valid, law_windows_end_in_order, leads, Event, History};
use crate::laws::law_settling_twice;
use crate::order::{in_time_order, lemma_all_ripe, lemma_ripe};
use crate::state::{
    emptied, idle, lemma_cleared, lemma_idle, lemma_ripe_bound, lemma_settled, released, ripe,
    withholding, Slot, State,
};
use crate::Update;

verus! {

impl<K, V> State<K, V> {
    /// The channel as the other keys see it: without `k`.
    pub open spec fn apart(self, k: K) -> Self {
        State {
            slots: without(self.slots, k),
            queue: without(self.queue, k),
            known: self.known.remove(k),
            ..self
        }
    }
}

/// Releasing windows and taking a key out can be done in either order.
pub proof fn lemma_released_apart<K, V>(
    queue: Seq<(K, Update<V>)>,
    slots: Seq<(K, Slot<V>)>,
    k: K,
)
    requires
        unique(queue),
        unique(slots),
    ensures
        without(released(queue, slots), k) == released(without(queue, k), without(slots, k)),
    decreases slots.len(),
{
    if slots.len() > 0 {
        let rest = slots.drop_first();
        let (k0, slot) = slots[0];
        let joined = match slot.withheld {
            Some(v) => to_back(queue, k0, Update::Add(v)),
            None => queue,
        };
        lemma_drop_first(slots);
        lemma_front_without(slots, k);
        if let Some(v) = slot.withheld {
            lemma_to_back(queue, k0, Update::Add(v));
            if k0 == k {
                lemma_put_then_without(queue, k, Update::Add(v));
            } else {
                lemma_to_back_without(queue, k0, Update::Add(v), k);
            }
        }
        lemma_released_apart(joined, rest, k);
    } else {
        assert(without(slots, k) =~= slots);
    }
}

/// If the windows that are over stand at the front, they are counted.
proof fn lemma_ripe_is<K, V>(slots: Seq<(K, Slot<V>)>, now: u128, n: int)
    requires
        0 <= n <= slots.len(),
        forall|i: int| 0 <= i < n ==> (#[trigger] slots[i]).1.until <= now,
        n < slots.len() ==> slots[n].1.until > now,
    ensures
        ripe(slots, now) == n,
    decreases n,
{
    if n > 0 {
        let rest = slots.drop_first();
        assert(slots[0].1.until <= now);
        assert forall|i: int| 0 <= i < n - 1 implies (#[trigger] rest[i]).1.until <= now by {
            assert(rest[i] == slots[i + 1]);
        }
        lemma_ripe_is(rest, now, n - 1);
    }
}

/// If the windows at the front withhold nothing and the next one does not, they are counted.
proof fn lemma_idle_is<K, V>(slots: Seq<(K, Slot<V>)>, n: int)
    requires
        0 <= n <= slots.len(),
        forall|i: int| 0 <= i < n ==> (#[trigger] slots[i]).1.withheld is None,
        n < slots.len() ==> slots[n].1.withheld is Some,
    ensures
        idle(slots) == n,
    decreases n,
{
    if n > 0 {
        let rest = slots.drop_first();
        assert(slots[0].1.withheld is None);
        assert forall|i: int| 0 <= i < n - 1 implies (#[trigger] rest[i]).1.withheld is None by {
            assert(rest[i] == slots[i + 1]);
        }
        lemma_idle_is(rest, n - 1);
    }
}

/// What is left when a key is taken out was there before.
proof fn lemma_without_entry<K, V>(s: Seq<(K, V)>, k: K, i: int) -> (j: int)
    requires
        0 <= i < without(s, k).len(),
    ensures
        0 <= j < s.len(),
        s[j] == without(s, k)[i],
{
    if holds(s, k) && i >= place_of(s, k) {
        i + 1
    } else {
        i
    }
}

/// Settling and taking a key out can be done in either order.
pub proof fn lemma_settled_apart<K, V>(s: State<K, V>, k: K, now: u128)
    requires
        s.valid(),
        in_time_order(s.slots),
    ensures
        s.settled(now).apart(k) == s.apart(k).settled(now),
{
    let n = ripe(s.slots, now) as int;
    let early = s.slots.take(n);
    let late = s.slots.skip(n);
    lemma_ripe_bound(s.slots, now);
    lemma_take(s.slots, n);
    lemma_skip(s.slots, n);
    lemma_split_without(s.slots, n, k);
    let a = without(early, k);
    let b = without(late, k);
    let both = without(s.slots, k);
    assert forall|i: int| 0 <= i < a.len() implies (#[trigger] both[i]).1.until <= now by {
        assert(both[i] == a[i]);
        let j = lemma_without_entry(early, k, i);
        lemma_ripe(s.slots, now, j);
    }
    if a.len() < both.len() {
        assert(both[a.len() as int] == b[0]);
        let j = lemma_without_entry(late, k, 0);
        lemma_all_ripe(s.slots, now, n + j);
    }
    lemma_ripe_is(both, now, a.len() as int);
    assert(both.take(a.len() as int) =~= a);
    assert(both.skip(a.len() as int) =~= b);
    lemma_released_apart(s.queue, early, k);
}

proof fn lemma_withholding_apart<K, V>(
    slots: Seq<(K, Slot<V>)>,
    j: K,
    withheld: Option<V>,
    k: K,
)
    requires
        unique(slots),
    ensures
        j != k ==> withholding(without(slots, k), j, withheld) == without(
            withholding(slots, j, withheld),
            k,
        ),
        without(withholding(slots, k, withheld), k) == without(slots, k),
{
    lemma_without(slots, k);
    if j != k {
        assert(value_of(without(slots, k), j) == value_of(slots, j));
        if let Some(slot) = value_of(slots, j) {
            lemma_put_without(slots, j, Slot { until: slot.until, withheld }, k);
        }
    }
    if let Some(slot) = value_of(slots, k) {
        lemma_put_then_without(slots, k, Slot { until: slot.until, withheld });
    }
}

/// A send of another key is the same with `k` there or not.
proof fn lemma_sent_apart<K, V>(s: State<K, V>, now: u128, j: K, update: Update<V>, k: K)
    requires
        s.valid(),
        in_time_order(s.slots),
        j != k,
    ensures
        s.sent(now, j, update).apart(k) == s.apart(k).sent(now, j, update),
{
    let m = s.settled(now);
    lemma_settled(s, now);
    lemma_settled_apart(s, k, now);
    lemma_without(m.slots, k);
    lemma_withholding_apart(m.slots, j, update.carried(), k);
    lemma_put_without(m.queue, j, update, k);
    lemma_without_commutes(m.queue, j, k);
    assert(holds(m.slots, j) == holds(without(m.slots, k), j));
}

/// A send of `k` does not show on the other keys: what waits under them, in which order, which of
/// them the receiver has, and when their windows are over is as if the channel had been left alone.
pub proof fn law_send_leaves_others<K, V>(s: State<K, V>, now: u128, k: K, update: Update<V>)
    requires
        s.valid(),
    ensures
        s.sent(now, k, update).apart(k) == s.settled(now).apart(k),
{
    let m = s.settled(now);
    lemma_settled(s, now);
    lemma_withholding_apart(m.slots, k, update.carried(), k);
    lemma_put_then_without(m.queue, k, update);
    lemma_without_commutes(m.queue, k, k);
    lemma_without(m.queue, k);
}

/// Telling the receiver of another key is the same with `k` there or not; telling it of `k` does
/// not show on the other keys.
proof fn lemma_told_apart<K, V>(s: State<K, V>, now: u128, entry: (K, Update<V>), k: K)
    requires
        unique(s.slots),
    ensures
        entry.0 != k ==> s.told(now, entry).apart(k) == s.apart(k).told(now, entry),
        entry.0 == k ==> s.told(now, entry).apart(k) == s.apart(k),
{
    let slot = Slot::<V> { until: (now + s.cooldown) as u128, withheld: None };
    if entry.0 != k {
        lemma_put_without(s.slots, entry.0, slot, k);
        assert(s.known.insert(entry.0).remove(k) =~= s.known.remove(k).insert(entry.0));
        assert(s.known.remove(entry.0).remove(k) =~= s.known.remove(k).remove(entry.0));
    } else {
        lemma_put_then_without(s.slots, k, slot);
        assert(s.known.insert(k).remove(k) =~= s.known.remove(k));
        assert(s.known.remove(k).remove(k) =~= s.known.remove(k));
    }
}

/// A receive that delivers another key is the same with `k` there or not. One that delivers `k`
/// or nothing does not show on the other keys.
proof fn lemma_recv_apart<K, V>(s: State<K, V>, now: u128, k: K)
    requires
        s.valid(),
        in_time_order(s.slots),
    ensures
        s.next(now) is Some && (s.next(now)->0).0 != k ==> {
            &&& s.apart(k).next(now) == s.next(now)
            &&& s.apart(k).after_recv(now) == s.after_recv(now).apart(k)
        },
        s.next(now) is None || (s.next(now)->0).0 == k ==> s.after_recv(now).apart(k) == s.apart(
            k,
        ).settled(now),
{
    let m = s.settled(now);
    lemma_settled(s, now);
    lemma_settled_apart(s, k, now);
    if m.queue.len() > 0 {
        let rest = State { queue: m.queue.drop_first(), ..m };
        lemma_front_without(m.queue, k);
        lemma_drop_first(m.queue);
        lemma_told_apart(rest, now, m.queue[0], k);
    }
}

/// The same of a receive that ignores windows.
proof fn lemma_recv_now_apart<K, V>(s: State<K, V>, now: u128, k: K)
    requires
        s.valid(),
        in_time_order(s.slots),
    ensures
        s.next_now(now) is Some && (s.next_now(now)->0).0 != k ==> {
            &&& s.apart(k).next_now(now) == s.next_now(now)
            &&& s.apart(k).after_recv_now(now) == s.after_recv_now(now).apart(k)
        },
        s.next_now(now) is None || (s.next_now(now)->0).0 == k ==> s.after_recv_now(now).apart(k)
            == s.apart(k).settled(now),
{
    let m = s.settled(now);
    let n = idle(m.slots) as int;
    lemma_settled(s, now);
    lemma_settled_apart(s, k, now);
    lemma_recv_apart(s, now, k);
    lemma_idle(m.slots);
    if m.queue.len() > 0 {
        lemma_front_without(m.queue, k);
    } else if n < m.slots.len() {
        let j = m.slots[n].0;
        let rest = State { slots: without(m.slots, j), ..m };
        lemma_found(m.slots, n);
        lemma_without(m.slots, j);
        lemma_without(m.slots, k);
        lemma_without_commutes(m.slots, j, k);
        lemma_told_apart(rest, now, (j, Update::Add(m.slots[n].1.withheld->0)), k);
        assert(without(m.queue, k) =~= m.queue);
        if j != k {
            let t = without(m.slots, k);
            let n2 = if holds(m.slots, k) && place_of(m.slots, k) < n {
                n - 1
            } else {
                n
            };
            if holds(m.slots, k) {
                assert(m.slots[place_of(m.slots, k)].0 == k);
            }
            assert(t[n2] == m.slots[n]);
            assert forall|i: int| 0 <= i < n2 implies (#[trigger] t[i]).1.withheld is None by {
                if holds(m.slots, k) && i >= place_of(m.slots, k) {
                    assert(t[i] == m.slots[i + 1]);
                } else {
                    assert(t[i] == m.slots[i]);
                }
            }
            lemma_idle_is(t, n2);
        } else {
            assert(without(without(m.slots, k), k) =~= without(m.slots, k));
        }
    }
}

/// Clearing a channel clears it for the other keys.
proof fn lemma_cleared_apart<K, V>(s: State<K, V>, now: u128, post: State<K, V>, k: K)
    requires
        s.valid(),
        in_time_order(s.slots),
        s.cleared(now, post),
    ensures
        post.apart(k).slots == emptied(s.apart(k).settled(now).slots),
        post.apart(k).known == s.apart(k).known,
        post.cooldown == s.cooldown,
{
    let left = s.settled(now).slots;
    lemma_settled(s, now);
    lemma_settled_apart(s, k, now);
    lemma_cleared(s, now, post);
    if holds(left, k) {
        let p = place_of(left, k);
        assert(left[p].0 == k);
        assert(post.slots[p].0 == k);
        lemma_found(post.slots, p);
    } else if holds(post.slots, k) {
        let p = place_of(post.slots, k);
        assert(left[p].0 == k);
    }
    assert(without(emptied(left), k) =~= emptied(without(left, k)));
}

/// An operation as its caller makes it, without what it delivers.
pub enum Call<K, V> {
    Send(K, Update<V>),
    /// The Deletes that a clear queues come in an order of its own.
    Clear(Seq<(K, Update<V>)>),
    Receive,
    ReceiveNow,
}

impl<K, V> State<K, V> {
    /// What `call` at `at` delivers.
    pub open spec fn answer(self, at: u128, call: Call<K, V>) -> Option<(K, Update<V>)> {
        match call {
            Call::Receive => self.next(at),
            Call::ReceiveNow => self.next_now(at),
            _ => None,
        }
    }

    /// What `call` at `at` leaves.
    pub open spec fn after(self, at: u128, call: Call<K, V>) -> Self {
        match call {
            Call::Send(k, update) => self.sent(at, k, update),
            Call::Clear(queue) => State {
                slots: emptied(self.settled(at).slots),
                queue,
                ..self
            },
            Call::Receive => self.after_recv(at),
            Call::ReceiveNow => self.after_recv_now(at),
        }
    }

    /// What `calls` leave.
    pub open spec fn run(self, calls: Seq<(u128, Call<K, V>)>) -> Self
        decreases calls.len(),
    {
        if calls.len() == 0 {
            self
        } else {
            self.run(calls.drop_last()).after(calls.last().0, calls.last().1)
        }
    }

    /// What `calls` deliver, each update with its time.
    pub open spec fn answers(self, calls: Seq<(u128, Call<K, V>)>) -> Seq<
        (u128, (K, Update<V>)),
    >
        decreases calls.len(),
    {
        if calls.len() == 0 {
            Seq::empty()
        } else {
            let before = self.answers(calls.drop_last());
            let (at, call) = calls.last();
            match self.run(calls.drop_last()).answer(at, call) {
                Some(entry) => before.push((at, entry)),
                None => before,
            }
        }
    }
}

impl<K, V> Event<K, V> {
    /// The operation as its caller made it, if it concerns other keys than `k`: a send of another
    /// key, a clear, or a receive that delivered another key. `post` is the state it led to.
    pub open spec fn call_apart(self, post: State<K, V>, k: K) -> Option<Call<K, V>> {
        match self {
            Event::Sent(j, update) => if j != k {
                Some(Call::Send(j, update))
            } else {
                None
            },
            Event::Cleared => Some(Call::Clear(without(post.queue, k))),
            Event::Received(Some((j, _))) => if j != k {
                Some(Call::Receive)
            } else {
                None
            },
            Event::ReceivedNow(Some((j, _))) => if j != k {
                Some(Call::ReceiveNow)
            } else {
                None
            },
            _ => None,
        }
    }
}

impl<K, V> History<K, V> {
    /// What was done with other keys than `k` in the first `n` operations.
    pub open spec fn calls_apart(self, k: K, n: int) -> Seq<(u128, Call<K, V>)>
        decreases n,
    {
        if n <= 0 {
            Seq::empty()
        } else {
            let before = self.calls_apart(k, n - 1);
            let (at, event) = self.events[n - 1];
            match event.call_apart(self.states[n], k) {
                Some(call) => before.push((at, call)),
                None => before,
            }
        }
    }

    /// What the first `n` operations delivered of other keys than `k`, each update with its time.
    pub open spec fn delivered_apart(self, k: K, n: int) -> Seq<(u128, (K, Update<V>))>
        decreases n,
    {
        if n <= 0 {
            Seq::empty()
        } else {
            let before = self.delivered_apart(k, n - 1);
            let (at, event) = self.events[n - 1];
            match event.delivered() {
                Some(entry) => if entry.0 != k {
                    before.push((at, entry))
                } else {
                    before
                },
                None => before,
            }
        }
    }
}

/// An operation that concerns other keys is the same with `k` there or not; one that concerns `k`
/// alone does not show on the other keys.
proof fn lemma_event_apart<K, V>(
    pre: State<K, V>,
    at: u128,
    event: Event<K, V>,
    post: State<K, V>,
    k: K,
)
    requires
        pre.valid(),
        in_time_order(pre.slots),
        leads(pre, at, event, post),
    ensures
        match event.call_apart(post, k) {
            Some(call) => {
                &&& post.apart(k) == pre.apart(k).after(at, call)
                &&& event.delivered() == pre.apart(k).answer(at, call)
            },
            None => {
                &&& post.apart(k) == pre.apart(k).settled(at)
                &&& event.delivered() matches Some(entry) ==> entry.0 == k
            },
        },
{
    match event {
        Event::Sent(j, update) => {
            if j != k {
                lemma_sent_apart(pre, at, j, update, k);
            } else {
                law_send_leaves_others(pre, at, k, update);
                lemma_settled_apart(pre, k, at);
            }
        },
        Event::Cleared => {
            lemma_cleared_apart(pre, at, post, k);
        },
        Event::Received(_) => {
            lemma_recv_apart(pre, at, k);
        },
        Event::ReceivedNow(_) => {
            lemma_recv_now_apart(pre, at, k);
        },
    }
}

/// An operation does not tell a channel from another that is the same once settled.
proof fn lemma_after_settled<K, V>(s: State<K, V>, t: State<K, V>, at: u128, call: Call<K, V>)
    requires
        s.settled(at) == t.settled(at),
    ensures
        s.after(at, call) == t.after(at, call),
        s.answer(at, call) == t.answer(at, call),
{
    law_settling_twice(s, at, at);
    law_settling_twice(t, at, at);
    if let Call::Send(k, update) = call {
        assert(s.settled(at).sent(at, k, update) == s.sent(at, k, update));
        assert(t.settled(at).sent(at, k, update) == t.sent(at, k, update));
    }
}

/// What happens to the keys other than `k` is what the operations on them do to a channel without
/// `k`, as if nothing had ever been done with `k`.
pub proof fn law_other_keys_run_alone<K, V>(h: History<K, V>, k: K, n: int, t: u128)
    requires
        h.valid(),
        h.timely(),
        h.states[0].slots.len() == 0,
        0 <= n <= h.events.len(),
        n > 0 ==> h.events[n - 1].0 <= t,
    ensures
        h.states[n].apart(k).settled(t) == h.states[0].apart(k).run(h.calls_apart(k, n)).settled(
            t,
        ),
        h.delivered_apart(k, n) == h.states[0].apart(k).answers(h.calls_apart(k, n)),
    decreases n,
{
    if n > 0 {
        let (at, event) = h.events[n - 1];
        let pre = h.states[n - 1];
        let post = h.states[n];
        let start = h.states[0].apart(k);
        let before = h.calls_apart(k, n - 1);
        if n > 1 {
            assert(h.events[n - 2].0 <= h.events[n - 1].0);
        }
        law_other_keys_run_alone(h, k, n - 1, at);
        law_always_valid(h, n - 1);
        law_windows_end_in_order(h, n - 1);
        lemma_event_apart(pre, at, event, post, k);
        match event.call_apart(post, k) {
            Some(call) => {
                lemma_after_settled(pre.apart(k), start.run(before), at, call);
                assert(h.calls_apart(k, n) == before.push((at, call)));
                assert(before.push((at, call)).drop_last() =~= before);
            },
            None => {
                law_settling_twice(pre.apart(k), at, t);
                law_settling_twice(start.run(before), at, t);
            },
        }
    }
}

/// What is done with one key leaves the others alone. Take two channels that start alike, with no
/// window open, and on which the same is done with the keys other than `k`, at the same times. In
/// `k` they may differ: in what is sent under it, and in the receives that deliver it or deliver
/// nothing. Then both deliver the same updates of the other keys, with the same values, in the same
/// order and at the same times; and from then on they agree on all the other keys: on what waits
/// under them, on which the receiver has, and on when their windows are over.
///
/// (The order of the Deletes that a clear queues is its own; so it counts as part of what is done.)
pub proof fn law_keys_are_independent<K, V>(g: History<K, V>, h: History<K, V>, k: K, t: u128)
    requires
        g.valid(),
        g.timely(),
        h.valid(),
        h.timely(),
        g.states[0].slots.len() == 0,
        h.states[0].slots.len() == 0,
        g.states[0].apart(k) == h.states[0].apart(k),
        g.calls_apart(k, g.events.len() as int) == h.calls_apart(k, h.events.len() as int),
        g.events.len() > 0 ==> g.events.last().0 <= t,
        h.events.len() > 0 ==> h.events.last().0 <= t,
    ensures
        g.delivered_apart(k, g.events.len() as int) == h.delivered_apart(
            k,
            h.events.len() as int,
        ),
        g.states.last().settled(t).apart(k) == h.states.last().settled(t).apart(k),
{
    let n = g.events.len() as int;
    let m = h.events.len() as int;
    law_other_keys_run_alone(g, k, n, t);
    law_other_keys_run_alone(h, k, m, t);
    law_always_valid(g, n);
    law_always_valid(h, m);
    law_windows_end_in_order(g, n);
    law_windows_end_in_order(h, m);
    lemma_settled_apart(g.states[n], k, t);
    lemma_settled_apart(h.states[m], k, t);
}

} // verus!
