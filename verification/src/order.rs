//! In which order, and when, updates are delivered.

use vstd::prelude::*;

use crate::assoc::{
    holds, lemma_drop_first, lemma_found, lemma_put, lemma_skip, lemma_take, lemma_to_back,
    lemma_without, place_of, put, to_back, unique, value_of, without,
};
use crate::state::{
    lemma_released_holds, lemma_ripe_bound, lemma_settled, lemma_withholding, released, ripe,
    Slot, State,
};
use crate::Update;

verus! {

/// `a` stands in `s` before every place that `b` has or may get: `b` stands behind it or is not
/// there.
pub open spec fn ahead<K, V>(s: Seq<(K, V)>, a: K, b: K) -> bool {
    &&& a != b
    &&& holds(s, a)
    &&& holds(s, b) ==> place_of(s, a) < place_of(s, b)
}

pub proof fn lemma_put_order<K, V>(s: Seq<(K, V)>, k: K, v: V, a: K, b: K)
    requires
        unique(s),
        ahead(s, a, b),
    ensures
        ahead(put(s, k, v), a, b),
{
    let t = put(s, k, v);
    lemma_put(s, k, v);
    let p = place_of(s, a);
    assert(s[p].0 == a);
    assert(t[p].0 == a);
    lemma_found(t, p);
    if holds(t, b) {
        let q = place_of(t, b);
        assert(t[q].0 == b);
        if q < s.len() {
            assert(s[q].0 == b);
            lemma_found(s, q);
        }
    }
}

pub proof fn lemma_without_order<K, V>(s: Seq<(K, V)>, k: K, a: K, b: K)
    requires
        unique(s),
        ahead(s, a, b),
        a != k,
    ensures
        ahead(without(s, k), a, b),
{
    let t = without(s, k);
    lemma_without(s, k);
    if holds(s, k) {
        let at = place_of(s, k);
        assert(s[at].0 == k);
        let p = place_of(s, a);
        assert(s[p].0 == a);
        let p2 = if p < at {
            p
        } else {
            p - 1
        };
        assert(t[p2] == s[p]);
        lemma_found(t, p2);
        if holds(t, b) {
            let q = place_of(t, b);
            assert(t[q].0 == b);
            let q2 = if q < at {
                q
            } else {
                q + 1
            };
            assert(s[q2] == t[q]);
            lemma_found(s, q2);
        }
    }
}

proof fn lemma_to_back_order<K, V>(s: Seq<(K, V)>, k: K, v: V, a: K, b: K)
    requires
        unique(s),
        ahead(s, a, b),
        a != k,
    ensures
        ahead(to_back(s, k, v), a, b),
{
    lemma_without(s, k);
    lemma_without_order(s, k, a, b);
    lemma_put_order(without(s, k), k, v, a, b);
}

/// The window of `k`, if it has one among `slots`, withholds nothing.
pub open spec fn idle_at<K, V>(slots: Seq<(K, Slot<V>)>, k: K) -> bool {
    match value_of(slots, k) {
        Some(slot) => slot.withheld is None,
        None => true,
    }
}

proof fn lemma_released_order<K, V>(
    queue: Seq<(K, Update<V>)>,
    slots: Seq<(K, Slot<V>)>,
    a: K,
    b: K,
)
    requires
        unique(queue),
        unique(slots),
        ahead(queue, a, b),
        idle_at(slots, a),
    ensures
        ahead(released(queue, slots), a, b),
    decreases slots.len(),
{
    if slots.len() > 0 {
        lemma_drop_first(slots);
        lemma_found(slots, 0);
        match slots[0].1.withheld {
            Some(v) => {
                lemma_to_back(queue, slots[0].0, Update::Add(v));
                lemma_to_back_order(queue, slots[0].0, Update::Add(v), a, b);
                lemma_released_order(
                    to_back(queue, slots[0].0, Update::Add(v)),
                    slots.drop_first(),
                    a,
                    b,
                );
            },
            None => {
                lemma_released_order(queue, slots.drop_first(), a, b);
            },
        }
    }
}

impl<K, V> State<K, V> {
    /// The window of `k` is over at `now`, and the value it withheld joins the queue.
    pub open spec fn matures(self, now: u128, k: K) -> bool {
        match value_of(self.slots.take(ripe(self.slots, now) as int), k) {
            Some(slot) => slot.withheld is Some,
            None => false,
        }
    }
}

pub proof fn lemma_settled_order<K, V>(s: State<K, V>, now: u128, a: K, b: K)
    requires
        s.valid(),
        ahead(s.queue, a, b),
        !s.matures(now, a),
    ensures
        ahead(s.settled(now).queue, a, b),
{
    let n = ripe(s.slots, now) as int;
    lemma_ripe_bound(s.slots, now);
    lemma_take(s.slots, n);
    lemma_released_order(s.queue, s.slots.take(n), a, b);
}

/// First in, first out: a key that is queued stays ahead of the keys behind it, and of those that
/// join the queue later, whatever is sent. It leaves its place only if it is deleted itself, or if
/// a withheld value of its own matures.
pub proof fn law_send_keeps_order<K, V>(
    s: State<K, V>,
    now: u128,
    k: K,
    update: Update<V>,
    a: K,
    b: K,
)
    requires
        s.valid(),
        ahead(s.queue, a, b),
        !s.matures(now, a),
        a == k && update is Delete ==> s.known.contains(k),
    ensures
        ahead(s.sent(now, k, update).queue, a, b),
{
    let m = s.settled(now);
    lemma_settled(s, now);
    lemma_settled_order(s, now, a, b);
    lemma_put_order(m.queue, k, update, a, b);
    if a != k {
        lemma_without_order(m.queue, k, a, b);
    }
}

/// What a send queues goes behind everything that is queued or was due by then.
pub proof fn law_send_joins_behind<K, V>(
    s: State<K, V>,
    now: u128,
    k: K,
    update: Update<V>,
    a: K,
)
    requires
        s.valid(),
        holds(s.settled(now).queue, a),
        !holds(s.settled(now).queue, k),
    ensures
        ahead(s.sent(now, k, update).queue, a, k),
{
    let m = s.settled(now);
    lemma_settled(s, now);
    lemma_put_order(m.queue, k, update, a, k);
    lemma_without(m.queue, k);
}

/// A receive delivers the key at the front, and keeps the others in order.
pub proof fn law_recv_keeps_order<K, V>(s: State<K, V>, now: u128, a: K, b: K)
    requires
        s.valid(),
        ahead(s.queue, a, b),
        !s.matures(now, a),
    ensures
        s.next(now) is Some,
        (s.next(now)->0).0 != b,
        (s.next(now)->0).0 != a ==> ahead(s.after_recv(now).queue, a, b),
        s.next_now(now) == s.next(now),
        s.after_recv_now(now) == s.after_recv(now),
{
    let m = s.settled(now);
    lemma_settled(s, now);
    lemma_settled_order(s, now, a, b);
    lemma_found(m.queue, 0);
    let front = m.queue[0].0;
    lemma_drop_first(m.queue);
    if front != a {
        lemma_without_order(m.queue, front, a, b);
    }
}

/// Windows that are over release what they withheld in the order in which they were opened.
pub proof fn law_matured_in_order<K, V>(s: State<K, V>, now: u128, a: K, b: K)
    requires
        s.valid(),
        in_time_order(s.slots),
        ahead(s.slots, a, b),
        holds(s.slots, b),
        value_of(s.slots, b)->0.until <= now,
        value_of(s.slots, a)->0.withheld is Some,
        value_of(s.slots, b)->0.withheld is Some,
    ensures
        holds(s.settled(now).queue, b),
        ahead(s.settled(now).queue, a, b),
{
    let n = ripe(s.slots, now) as int;
    let early = s.slots.take(n);
    lemma_ripe_bound(s.slots, now);
    lemma_take(s.slots, n);
    let p = place_of(s.slots, a);
    let q = place_of(s.slots, b);
    lemma_all_ripe(s.slots, now, q);
    assert(early[p] == s.slots[p] && s.slots[p].0 == a);
    assert(early[q] == s.slots[q] && s.slots[q].0 == b);
    lemma_found(early, p);
    lemma_found(early, q);
    lemma_release_order(s.queue, early, a, b);
    lemma_released_holds(s.queue, early, b);
}

/// A value that is released goes behind what is queued.
proof fn lemma_release_behind<K, V>(
    queue: Seq<(K, Update<V>)>,
    slots: Seq<(K, Slot<V>)>,
    a: K,
    b: K,
)
    requires
        unique(queue),
        unique(slots),
        a != b,
        holds(queue, a),
        idle_at(slots, a),
        holds(slots, b),
        value_of(slots, b)->0.withheld is Some,
    ensures
        ahead(released(queue, slots), a, b),
    decreases slots.len(),
{
    let rest = slots.drop_first();
    let (k0, slot) = slots[0];
    lemma_found(slots, 0);
    lemma_drop_first(slots);
    match slot.withheld {
        Some(v) => {
            let joined = to_back(queue, k0, Update::Add(v));
            lemma_to_back(queue, k0, Update::Add(v));
            if k0 == b {
                lemma_found(joined, joined.len() - 1);
                assert(holds(joined, a));
                assert(joined[place_of(joined, a)].0 == a);
                lemma_released_order(joined, rest, a, b);
            } else {
                lemma_release_behind(joined, rest, a, b);
            }
        },
        None => {
            lemma_release_behind(queue, rest, a, b);
        },
    }
}

/// Values are released in the order of their windows.
pub proof fn lemma_release_order<K, V>(
    queue: Seq<(K, Update<V>)>,
    slots: Seq<(K, Slot<V>)>,
    a: K,
    b: K,
)
    requires
        unique(queue),
        unique(slots),
        ahead(slots, a, b),
        value_of(slots, a)->0.withheld is Some,
        holds(queue, b) ==> holds(slots, b) && value_of(slots, b)->0.withheld is Some,
    ensures
        ahead(released(queue, slots), a, b),
    decreases slots.len(),
{
    let p = place_of(slots, a);
    assert(slots[p].0 == a);
    let rest = slots.drop_first();
    let (k0, slot) = slots[0];
    lemma_found(slots, 0);
    lemma_drop_first(slots);
    if p == 0 {
        let v = slot.withheld->0;
        lemma_to_back(queue, a, Update::Add(v));
        if holds(queue, b) {
            lemma_release_behind(to_back(queue, a, Update::Add(v)), rest, a, b);
        } else {
            lemma_released_order(to_back(queue, a, Update::Add(v)), rest, a, b);
        }
    } else {
        assert(rest[p - 1].0 == a);
        lemma_found(rest, p - 1);
        if holds(rest, b) {
            let q = place_of(rest, b);
            assert(rest[q].0 == b);
            assert(slots[q + 1].0 == b);
            lemma_found(slots, q + 1);
        }
        if holds(slots, b) {
            assert(slots[place_of(slots, b)].0 == b);
        }
        match slot.withheld {
            Some(v) => {
                lemma_to_back(queue, k0, Update::Add(v));
                lemma_release_order(to_back(queue, k0, Update::Add(v)), rest, a, b);
            },
            None => {
                lemma_release_order(queue, rest, a, b);
            },
        }
    }
}

/// Windows that are over stand at the front.
pub proof fn lemma_ripe<K, V>(slots: Seq<(K, Slot<V>)>, now: u128, i: int)
    requires
        0 <= i < ripe(slots, now),
    ensures
        i < slots.len(),
        slots[i].1.until <= now,
    decreases slots.len(),
{
    if i > 0 {
        lemma_ripe(slots.drop_first(), now, i - 1);
    }
}

/// While the window of a key is open, an Add of the key is withheld, in place of the one withheld
/// before; it is not queued, and a receive does not deliver it.
pub proof fn law_cooling_add_is_withheld<K, V>(s: State<K, V>, now: u128, k: K, v: V)
    requires
        s.valid(),
        holds(s.slots, k),
        now < value_of(s.slots, k)->0.until,
    ensures
        value_of(s.sent(now, k, Update::Add(v)).slots, k) == Some(
            Slot { until: value_of(s.slots, k)->0.until, withheld: Some(v) },
        ),
        s.sent(now, k, Update::Add(v)).queue == s.settled(now).queue,
        forall|w: V| s.next(now) != Some((k, Update::Add(w))),
{
    let m = s.settled(now);
    let n = ripe(s.slots, now) as int;
    lemma_settled(s, now);
    lemma_ripe_bound(s.slots, now);
    lemma_skip(s.slots, n);
    let p = place_of(s.slots, k);
    assert(s.slots[p].0 == k);
    if p < n {
        lemma_ripe(s.slots, now, p);
    }
    assert(holds(m.slots, s.slots[p].0));
    lemma_withholding(m.slots, k, Some(v));
    if m.queue.len() > 0 && m.queue[0].0 == k {
        assert(m.queue[0].1 is Delete);
    }
}

/// The windows end in the order in which they stand.
pub open spec fn in_time_order<K, V>(slots: Seq<(K, Slot<V>)>) -> bool {
    forall|i: int, j: int|
        0 <= i <= j < slots.len() ==> (#[trigger] slots[i]).1.until <= (#[trigger] slots[j]).1.until
}

/// With windows in time order, those that are over are exactly those at the front.
pub proof fn lemma_all_ripe<K, V>(slots: Seq<(K, Slot<V>)>, now: u128, i: int)
    requires
        in_time_order(slots),
        0 <= i < slots.len(),
    ensures
        slots[i].1.until <= now <==> i < ripe(slots, now),
    decreases slots.len(),
{
    if i < ripe(slots, now) {
        lemma_ripe(slots, now, i);
    }
    if slots[i].1.until <= now {
        assert(slots[0].1.until <= now);
        let rest = slots.drop_first();
        assert forall|x: int, y: int| 0 <= x <= y < rest.len() implies (#[trigger] rest[x]).1.until
            <= (#[trigger] rest[y]).1.until by {
            assert(rest[x] == slots[x + 1] && rest[y] == slots[y + 1]);
        }
        if i > 0 {
            lemma_all_ripe(rest, now, i - 1);
        }
    }
}

/// Once the window of a key is over, the next operation closes it; the value that it withheld is
/// queued, to be delivered once.
pub proof fn law_matured_add_is_released<K, V>(s: State<K, V>, now: u128, k: K)
    requires
        s.valid(),
        in_time_order(s.slots),
        holds(s.slots, k),
        value_of(s.slots, k)->0.until <= now,
    ensures
        !holds(s.settled(now).slots, k),
        value_of(s.settled(now).queue, k) == match value_of(s.slots, k)->0.withheld {
            Some(v) => Some(Update::Add(v)),
            None => value_of(s.queue, k),
        },
{
    let n = ripe(s.slots, now) as int;
    let p = place_of(s.slots, k);
    assert(s.slots[p].0 == k);
    lemma_ripe_bound(s.slots, now);
    lemma_all_ripe(s.slots, now, p);
    lemma_skip(s.slots, n);
    lemma_take(s.slots, n);
    assert(holds(s.slots.take(n), s.slots[p].0));
    lemma_released_holds(s.queue, s.slots.take(n), k);
}

} // verus!
