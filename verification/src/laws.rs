//! What the operations of a channel promise together.

use vstd::prelude::*;

use crate::apart::lemma_released_apart;
use crate::assoc::{
    holds, lemma_drop_first, lemma_found, lemma_put, lemma_put_then_without, lemma_put_to_back,
    lemma_put_twice, lemma_same_keys, lemma_skip, lemma_take, lemma_to_back, lemma_to_back_put,
    lemma_without, place_of, put, to_back, unique, value_of, without,
};
use crate::clock::MAX_NANOS;
use crate::order::{in_time_order, law_cooling_add_is_withheld, lemma_all_ripe};
use crate::state::{
    front_closed, idle, lemma_backlog, lemma_cleared, lemma_count_idle, lemma_front_closed,
    lemma_front_taken, lemma_idle, lemma_released_holds, lemma_ripe_bound, lemma_sent,
    lemma_settle_done, lemma_settle_step, lemma_settled, lemma_told, lemma_withholding,
    released, ripe, withheld_count, withholding, Slot, State,
};
use crate::Update;

verus! {

/// A receiver's key-value store after it has applied an update.
pub open spec fn applied<K, V>(store: Map<K, V>, entry: (K, Update<V>)) -> Map<K, V> {
    match entry.1 {
        Update::Add(v) => store.insert(entry.0, v),
        Update::Delete => store.remove(entry.0),
    }
}

impl<K, V> State<K, V> {
    /// Where a receiver's store ends up once everything that waits has been delivered. (What is
    /// queued and carries no value is a Delete.)
    pub open spec fn outcome(self, store: Map<K, V>) -> Map<K, V> {
        Map::new(
            |k: K|
                match self.waiting(k) {
                    Some(_) => true,
                    None => store.contains_key(k) && value_of(self.queue, k) is None,
                },
            |k: K|
                match self.waiting(k) {
                    Some(v) => v,
                    None => store[k],
                },
        )
    }
}

/// Settling does not change where the receiver's store ends up.
pub proof fn law_settling_is_invisible<K, V>(s: State<K, V>, now: u128, store: Map<K, V>)
    requires
        s.valid(),
    ensures
        s.settled(now).outcome(store) == s.outcome(store),
    decreases s.slots.len(),
{
    if s.slots.len() > 0 && s.slots[0].1.until <= now {
        let t = front_closed(s);
        lemma_settle_step(s, now);
        lemma_front_closed(s);
        law_settling_is_invisible(t, now, store);
        assert forall|k: K| true implies #[trigger] t.waiting(k) == s.waiting(k) && (t.waiting(
            k,
        ) is None ==> value_of(t.queue, k) == value_of(s.queue, k)) by {
            assert(t.waiting(k) == s.waiting(k));
            if let Some(v) = s.slots[0].1.withheld {
                lemma_to_back(s.queue, s.slots[0].0, Update::Add(v));
                lemma_found(s.slots, 0);
            }
        }
        assert(t.outcome(store) =~= s.outcome(store));
    } else {
        lemma_settle_done(s, now);
    }
}

/// Settling twice is settling once, at the later time. So an operation does not tell a channel from
/// one that was settled before.
pub proof fn law_settling_twice<K, V>(s: State<K, V>, t1: u128, t2: u128)
    requires
        t1 <= t2,
    ensures
        s.settled(t1).settled(t2) == s.settled(t2),
        forall|k: K, update: Update<V>|
            #[trigger] s.settled(t1).sent(t2, k, update) == s.sent(t2, k, update),
        forall|post: State<K, V>|
            #[trigger] s.settled(t1).cleared(t2, post) == s.cleared(t2, post),
        s.settled(t1).next(t2) == s.next(t2),
        s.settled(t1).after_recv(t2) == s.after_recv(t2),
        s.settled(t1).next_now(t2) == s.next_now(t2),
        s.settled(t1).after_recv_now(t2) == s.after_recv_now(t2),
    decreases s.slots.len(),
{
    if s.slots.len() > 0 && s.slots[0].1.until <= t1 {
        lemma_settle_step(s, t1);
        lemma_settle_step(s, t2);
        law_settling_twice(front_closed(s), t1, t2);
    } else {
        lemma_settle_done(s, t1);
    }
}

/// Sending an Add or a Delete inserts or removes its key in the store that the receiver ends up
/// with, and changes no other key.
pub proof fn law_send_takes_effect<K, V>(
    s: State<K, V>,
    now: u128,
    k: K,
    update: Update<V>,
    store: Map<K, V>,
)
    requires
        s.valid(),
        store.dom() == s.known,
    ensures
        s.sent(now, k, update).outcome(store) == applied(s.outcome(store), (k, update)),
{
    let m = s.settled(now);
    let t = s.sent(now, k, update);
    lemma_settled(s, now);
    lemma_sent(s, now, k, update);
    law_settling_is_invisible(s, now, store);
    lemma_put(m.queue, k, update);
    lemma_without(m.queue, k);
    assert forall|other: K| other != k implies #[trigger] t.waiting(other) == m.waiting(other)
        && value_of(t.queue, other) == value_of(m.queue, other) by {
        assert(m.waiting(other) == s.waiting(other));
    }
    assert(t.outcome(store) =~= applied(m.outcome(store), (k, update)));
}

/// Clearing leaves the receiver with an empty store.
pub proof fn law_clear_takes_effect<K, V>(
    s: State<K, V>,
    now: u128,
    post: State<K, V>,
    store: Map<K, V>,
)
    requires
        s.valid(),
        s.cleared(now, post),
        store.dom() == s.known,
    ensures
        post.outcome(store) == Map::<K, V>::empty(),
{
    lemma_cleared(s, now, post);
    assert forall|k: K| !(#[trigger] post.outcome(store).contains_key(k)) by {
        assert(post.waiting(k) is None);
        assert(holds(post.queue, k) <==> s.known.contains(k));
    }
    assert(post.outcome(store) =~= Map::<K, V>::empty());
}

/// Delivering an update moves the receiver's store toward where it ends up, and not elsewhere.
pub proof fn law_recv_converges<K, V>(s: State<K, V>, now: u128, store: Map<K, V>)
    requires
        s.valid(),
        now <= MAX_NANOS,
        store.dom() == s.known,
    ensures
        match s.next(now) {
            Some(entry) => {
                &&& applied(store, entry).dom() == s.after_recv(now).known
                &&& s.after_recv(now).outcome(applied(store, entry)) == s.outcome(store)
            },
            None => {
                &&& s.after_recv(now).known == s.known
                &&& s.after_recv(now).outcome(store) == s.outcome(store)
            },
        },
{
    let m = s.settled(now);
    lemma_settled(s, now);
    law_settling_is_invisible(s, now, store);
    if m.queue.len() > 0 {
        let entry = m.queue[0];
        let rest = State { queue: m.queue.drop_first(), ..m };
        let t = s.after_recv(now);
        lemma_found(m.queue, 0);
        lemma_drop_first(m.queue);
        lemma_front_taken(m);
        lemma_told(rest, now, entry);
        assert(applied(store, entry).dom() =~= t.known);
        assert forall|k: K| k != entry.0 implies #[trigger] t.waiting(k) == m.waiting(k)
            && value_of(t.queue, k) == value_of(m.queue, k) by {
            assert(t.waiting(k) == rest.waiting(k));
        }
        assert(t.waiting(entry.0) == rest.waiting(entry.0));
        assert(t.outcome(applied(store, entry)) =~= m.outcome(store));
    }
}

/// Delivering without regard to windows does the same.
pub proof fn law_recv_now_converges<K, V>(s: State<K, V>, now: u128, store: Map<K, V>)
    requires
        s.valid(),
        now <= MAX_NANOS,
        store.dom() == s.known,
    ensures
        match s.next_now(now) {
            Some(entry) => {
                &&& applied(store, entry).dom() == s.after_recv_now(now).known
                &&& s.after_recv_now(now).outcome(applied(store, entry)) == s.outcome(store)
            },
            None => {
                &&& s.after_recv_now(now).known == s.known
                &&& s.after_recv_now(now).outcome(store) == s.outcome(store)
            },
        },
{
    let m = s.settled(now);
    let t = s.after_recv_now(now);
    lemma_settled(s, now);
    law_settling_is_invisible(s, now, store);
    law_recv_converges(s, now, store);
    lemma_idle(m.slots);
    let n = idle(m.slots) as int;
    if m.queue.len() > 0 {
    } else if n < m.slots.len() {
        let entry = (m.slots[n].0, Update::Add(m.slots[n].1.withheld->0));
        let rest = State { slots: without(m.slots, entry.0), ..m };
        lemma_without(m.slots, entry.0);
        lemma_found(m.slots, n);
        lemma_told(rest, now, entry);
        assert(applied(store, entry).dom() =~= t.known);
        assert forall|k: K| k != entry.0 implies #[trigger] t.waiting(k) == m.waiting(k) by {
            assert(t.waiting(k) == rest.waiting(k));
        }
        assert(t.waiting(entry.0) == rest.waiting(entry.0));
        assert(t.outcome(applied(store, entry)) =~= m.outcome(store));
    }
}

/// Draining ends: each delivery leaves fewer updates waiting, and a receive that ignores windows
/// delivers nothing exactly when none waits. Once none waits, the receiver's store is where it
/// ends up.
pub proof fn law_draining_ends<K, V>(s: State<K, V>, now: u128, store: Map<K, V>)
    requires
        s.valid(),
        now <= MAX_NANOS,
        store.dom() == s.known,
    ensures
        s.next(now) is Some ==> s.after_recv(now).backlog() < s.backlog(),
        s.next_now(now) is Some ==> s.after_recv_now(now).backlog() < s.backlog(),
        s.next_now(now) is None <==> s.backlog() == 0,
        s.backlog() == 0 ==> s.outcome(store) == store,
{
    lemma_backlog(s, now);
    if s.backlog() == 0 {
        lemma_count_idle(s.slots);
        lemma_idle(s.slots);
        assert forall|k: K| #[trigger] s.waiting(k) is None by {
            if holds(s.slots, k) {
                assert(s.slots[place_of(s.slots, k)].1.withheld is None);
            }
        }
        assert(s.outcome(store) =~= store);
    }
}

/// Replacing the value of a queued key commutes with releasing windows of other keys.
proof fn lemma_release_commutes<K, V>(
    queue: Seq<(K, Update<V>)>,
    slots: Seq<(K, Slot<V>)>,
    k: K,
    update: Update<V>,
)
    requires
        unique(queue),
        unique(slots),
        holds(queue, k),
        match value_of(slots, k) {
            Some(slot) => slot.withheld is None,
            None => true,
        },
    ensures
        unique(released(queue, slots)),
        put(released(queue, slots), k, update) == released(put(queue, k, update), slots),
    decreases slots.len(),
{
    lemma_put(queue, k, update);
    if slots.len() > 0 {
        let rest = slots.drop_first();
        let (k0, slot) = slots[0];
        lemma_found(slots, 0);
        lemma_drop_first(slots);
        match slot.withheld {
            Some(v) => {
                lemma_to_back(queue, k0, Update::Add(v));
                lemma_put_to_back(queue, k, update, k0, Update::Add(v));
                lemma_release_commutes(to_back(queue, k0, Update::Add(v)), rest, k, update);
            },
            None => {
                lemma_release_commutes(queue, rest, k, update);
            },
        }
    }
}

/// Releasing a window and then replacing the released value is releasing the other value.
proof fn lemma_release_replaced<K, V>(
    queue: Seq<(K, Update<V>)>,
    slots: Seq<(K, Slot<V>)>,
    k: K,
    a: V,
    b: V,
)
    requires
        unique(queue),
        unique(slots),
        holds(slots, k),
    ensures
        put(released(queue, withholding(slots, k, Some(a))), k, Update::Add(b)) == released(
            queue,
            withholding(slots, k, Some(b)),
        ),
    decreases slots.len(),
{
    let sa = withholding(slots, k, Some(a));
    let sb = withholding(slots, k, Some(b));
    lemma_withholding(slots, k, Some(a));
    lemma_withholding(slots, k, Some(b));
    let rest = slots.drop_first();
    lemma_found(slots, 0);
    lemma_drop_first(slots);
    let p = place_of(slots, k);
    assert(slots[p].0 == k);
    if p == 0 {
        assert(sa.drop_first() =~= rest);
        assert(sb.drop_first() =~= rest);
        lemma_to_back(queue, k, Update::Add(a));
        lemma_to_back_put(queue, k, Update::Add(a), Update::Add(b));
        lemma_release_commutes(to_back(queue, k, Update::Add(a)), rest, k, Update::Add(b));
    } else {
        assert(rest[p - 1].0 == k);
        lemma_found(rest, p - 1);
        assert(sa.drop_first() =~= withholding(rest, k, Some(a)));
        assert(sb.drop_first() =~= withholding(rest, k, Some(b)));
        match slots[0].1.withheld {
            Some(v) => {
                lemma_to_back(queue, slots[0].0, Update::Add(v));
                lemma_release_replaced(to_back(queue, slots[0].0, Update::Add(v)), rest, k, a, b);
            },
            None => {
                lemma_release_replaced(queue, rest, k, a, b);
            },
        }
    }
}

/// What windows withhold has no part in when they are over.
proof fn lemma_ripe_withholding<K, V>(
    slots: Seq<(K, Slot<V>)>,
    k: K,
    withheld: Option<V>,
    now: u128,
)
    requires
        unique(slots),
    ensures
        ripe(withholding(slots, k, withheld), now) == ripe(slots, now),
    decreases slots.len(),
{
    let t = withholding(slots, k, withheld);
    lemma_withholding(slots, k, withheld);
    if slots.len() > 0 && slots[0].1.until <= now {
        let rest = slots.drop_first();
        lemma_found(slots, 0);
        lemma_drop_first(slots);
        lemma_ripe_withholding(rest, k, withheld, now);
        if holds(slots, k) {
            let p = place_of(slots, k);
            assert(slots[p].0 == k);
            if p > 0 {
                assert(rest[p - 1].0 == k);
                lemma_found(rest, p - 1);
            }
        }
        assert(t.drop_first() =~= withholding(rest, k, withheld));
    } else if slots.len() > 0 && holds(slots, k) {
        assert(slots[place_of(slots, k)].0 == k);
    }
}

/// The last of two Adds wins: a channel that was sent two values of a key, with no receive
/// between, is the channel that was sent the second value in place of the first.
pub proof fn law_adds_coalesce<K, V>(s: State<K, V>, t1: u128, t2: u128, k: K, a: V, b: V)
    requires
        s.valid(),
    ensures
        s.sent(t1, k, Update::Add(a)).sent(t2, k, Update::Add(b)) == s.sent(
            t1,
            k,
            Update::Add(b),
        ).settled(t2),
{
    let m = s.settled(t1);
    let sa = s.sent(t1, k, Update::Add(a));
    let sb = s.sent(t1, k, Update::Add(b));
    lemma_settled(s, t1);
    lemma_sent(s, t1, k, Update::Add(a));
    lemma_sent(s, t1, k, Update::Add(b));
    lemma_settled(sa, t2);
    lemma_settled(sb, t2);
    let n = ripe(m.slots, t2) as int;
    lemma_ripe_bound(m.slots, t2);
    let early = m.slots.take(n);
    let late = m.slots.skip(n);
    lemma_take(m.slots, n);
    lemma_skip(m.slots, n);
    if holds(m.slots, k) {
        lemma_ripe_withholding(m.slots, k, Some(a), t2);
        lemma_ripe_withholding(m.slots, k, Some(b), t2);
        let p = place_of(m.slots, k);
        assert(m.slots[p].0 == k);
        lemma_withholding_split(m.slots, k, Some(a), n);
        lemma_withholding_split(m.slots, k, Some(b), n);
        if p < n {
            assert(!holds(late, m.slots[p].0));
            lemma_release_replaced(m.queue, early, k, a, b);
        } else {
            assert(holds(late, m.slots[p].0));
            assert(!holds(early, k));
            let until = m.slots[p].1.until;
            lemma_put_twice(
                late,
                k,
                Slot { until, withheld: Some(a) },
                Slot { until, withheld: Some(b) },
            );
            lemma_put(late, k, Slot { until, withheld: Some(a) });
        }
    } else {
        lemma_put(m.queue, k, Update::Add(a));
        lemma_put_twice(m.queue, k, Update::Add(a), Update::Add(b));
        if holds(early, k) {
            let p = place_of(early, k);
            assert(m.slots[p] == early[p]);
        }
        lemma_release_commutes(put(m.queue, k, Update::Add(a)), early, k, Update::Add(b));
    }
}

impl<K, V> State<K, V> {
    /// The channel after Adds of `k` have been sent, each with its time.
    pub open spec fn added(self, k: K, adds: Seq<(u128, V)>) -> Self
        decreases adds.len(),
    {
        if adds.len() == 0 {
            self
        } else {
            self.added(k, adds.drop_last()).sent(adds.last().0, k, Update::Add(adds.last().1))
        }
    }
}

/// The times of `adds` do not run backward.
pub open spec fn forward<V>(adds: Seq<(u128, V)>) -> bool {
    forall|i: int, j: int|
        0 <= i <= j < adds.len() ==> (#[trigger] adds[i]).0 <= (#[trigger] adds[j]).0
}

/// After a send nothing is left to settle at that time.
pub proof fn lemma_sent_is_settled<K, V>(s: State<K, V>, now: u128, k: K, update: Update<V>)
    requires
        s.valid(),
    ensures
        s.sent(now, k, update).settled(now) == s.sent(now, k, update),
{
    let m = s.settled(now);
    let t = s.sent(now, k, update);
    lemma_settled(s, now);
    lemma_withholding(m.slots, k, update.carried());
    if m.slots.len() > 0 {
        assert(t.slots[0].1.until == m.slots[0].1.until) by {
            if holds(m.slots, k) {
                assert(m.slots[place_of(m.slots, k)].0 == k);
            }
        }
    }
    lemma_settle_done(t, now);
}

/// Of any number of Adds of a key, with no receive between, only the last is ever seen: the channel
/// is the one that was sent the last value in place of the first, and nothing after it.
pub proof fn law_adds_collapse<K, V>(s: State<K, V>, k: K, adds: Seq<(u128, V)>)
    requires
        s.valid(),
        adds.len() > 0,
        forward(adds),
    ensures
        s.added(k, adds) == s.sent(adds[0].0, k, Update::Add(adds.last().1)).settled(
            adds.last().0,
        ),
    decreases adds.len(),
{
    let (t, v) = adds.last();
    let before = adds.drop_last();
    if before.len() == 0 {
        assert(s.added(k, before) == s);
        lemma_sent_is_settled(s, t, k, Update::Add(v));
    } else {
        assert forall|i: int, j: int| 0 <= i <= j < before.len() implies (#[trigger] before[i]).0
            <= (#[trigger] before[j]).0 by {
            assert(adds[i].0 <= adds[j].0);
        }
        law_adds_collapse(s, k, before);
        assert(adds[adds.len() - 2].0 <= adds[adds.len() - 1].0);
        let first = s.sent(adds[0].0, k, Update::Add(before.last().1));
        law_settling_twice(first, before.last().0, t);
        law_adds_coalesce(s, adds[0].0, t, k, before.last().1, v);
    }
}

/// Nothing waits but `v`, withheld in the window of `k`, which is over at `until`.
spec fn waits_alone<K, V>(s: State<K, V>, k: K, until: u128, v: V) -> bool {
    &&& s.queue.len() == 0
    &&& value_of(s.slots, k) == Some(Slot { until, withheld: Some(v) })
    &&& forall|i: int|
        0 <= i < s.slots.len() && (#[trigger] s.slots[i]).0 != k ==> s.slots[i].1.withheld is None
}

/// While the windows that are over withhold nothing, settling queues nothing.
proof fn lemma_nothing_released<K, V>(queue: Seq<(K, Update<V>)>, slots: Seq<(K, Slot<V>)>)
    requires
        forall|i: int| 0 <= i < slots.len() ==> (#[trigger] slots[i]).1.withheld is None,
    ensures
        released(queue, slots) == queue,
    decreases slots.len(),
{
    if slots.len() > 0 {
        assert(slots[0].1.withheld is None);
        lemma_nothing_released(queue, slots.drop_first());
    }
}

proof fn lemma_waits_alone<K, V>(s: State<K, V>, k: K, until: u128, v: V, t: u128)
    requires
        s.valid(),
        in_time_order(s.slots),
        waits_alone(s, k, until, v),
    ensures
        t < until ==> waits_alone(s.settled(t), k, until, v) && in_time_order(s.settled(t).slots),
        t >= until ==> {
            &&& s.settled(t).queue == seq![(k, Update::Add(v))]
            &&& forall|i: int|
                0 <= i < s.settled(t).slots.len() ==> (#[trigger] s.settled(t).slots[i]).1.withheld
                    is None
        },
{
    let m = s.settled(t);
    let n = ripe(s.slots, t) as int;
    let early = s.slots.take(n);
    lemma_settled(s, t);
    lemma_ripe_bound(s.slots, t);
    lemma_skip(s.slots, n);
    lemma_take(s.slots, n);
    let p = place_of(s.slots, k);
    assert(s.slots[p].0 == k);
    lemma_all_ripe(s.slots, t, p);
    if t < until {
        assert forall|i: int| 0 <= i < early.len() implies (
        #[trigger] early[i]).1.withheld is None by {
            assert(early[i] == s.slots[i]);
        }
        lemma_nothing_released(s.queue, early);
        assert(holds(m.slots, s.slots[p].0));
    } else {
        assert(holds(early, s.slots[p].0));
        assert forall|i: int| 0 <= i < m.queue.len() implies (#[trigger] m.queue[i]) == (
            k,
            Update::Add(v),
        ) by {
            let x = m.queue[i].0;
            lemma_released_holds(s.queue, early, x);
            lemma_found(m.queue, i);
            if x != k {
                if holds(early, x) {
                    let q = place_of(early, x);
                    assert(early[q].0 == x && early[q] == s.slots[q]);
                }
            }
        }
        lemma_released_holds(s.queue, early, k);
        assert(m.queue.len() >= 1);
        if m.queue.len() > 1 {
            assert(m.queue[0].0 == m.queue[1].0);
        }
        assert(m.queue =~= seq![(k, Update::Add(v))]);
        assert forall|i: int| 0 <= i < m.slots.len() implies (
        #[trigger] m.slots[i]).1.withheld is None by {
            assert(m.slots[i] == s.slots[i + n]);
        }
    }
}

/// Of any number of Adds of a key that is cooling down, one is received, and it is the last: with
/// nothing else waiting, nothing is received until the window of the key is over, then the last
/// value, and nothing after it.
pub proof fn law_cooling_adds_collapse<K, V>(s: State<K, V>, k: K, adds: Seq<(u128, V)>)
    requires
        s.valid(),
        in_time_order(s.slots),
        s.backlog() == 0,
        holds(s.slots, k),
        adds.len() > 0,
        forward(adds),
        adds.last().0 < value_of(s.slots, k)->0.until,
    ensures
        forall|t: u128|
            t < value_of(s.slots, k)->0.until ==> #[trigger] s.added(k, adds).next(t) is None,
        forall|t: u128|
            t >= value_of(s.slots, k)->0.until ==> #[trigger] s.added(k, adds).next(t) == Some(
                (k, Update::Add(adds.last().1)),
            ),
        forall|t: u128, later: u128|
            t >= value_of(s.slots, k)->0.until ==> #[trigger] s.added(k, adds).after_recv(t).next(
                later,
            ) is None,
{
    let until = value_of(s.slots, k)->0.until;
    let v = adds.last().1;
    let t0 = adds[0].0;
    let first = s.sent(t0, k, Update::Add(v));
    let m = s.settled(t0);
    let n = ripe(s.slots, t0) as int;
    let r = s.added(k, adds);
    assert(adds[0].0 <= adds[adds.len() - 1].0);
    law_adds_collapse(s, k, adds);
    lemma_count_idle(s.slots);
    lemma_idle(s.slots);
    lemma_settled(s, t0);
    lemma_sent(s, t0, k, Update::Add(v));
    lemma_ripe_bound(s.slots, t0);
    lemma_nothing_released(s.queue, s.slots.take(n));
    law_cooling_add_is_withheld(s, t0, k, v);
    lemma_withholding(m.slots, k, Some(v));
    if holds(m.slots, k) {
        assert(m.slots[place_of(m.slots, k)].0 == k);
    }
    assert forall|i: int| 0 <= i < first.slots.len() implies {
        &&& (#[trigger] first.slots[i]).1.until == s.slots[i + n].1.until
        &&& first.slots[i].0 != k ==> first.slots[i].1.withheld is None
    } by {
        assert(m.slots[i] == s.slots[i + n]);
    }
    assert(in_time_order(first.slots));
    assert(waits_alone(first, k, until, v));
    lemma_waits_alone(first, k, until, v, adds.last().0);
    lemma_settled(first, adds.last().0);
    assert forall|t: u128| t < until implies #[trigger] r.next(t) is None by {
        lemma_waits_alone(r, k, until, v, t);
    }
    assert forall|t: u128| t >= until implies #[trigger] r.next(t) == Some((k, Update::Add(v))) by {
        lemma_waits_alone(r, k, until, v, t);
    }
    assert forall|t: u128, later: u128| t >= until implies #[trigger] r.after_recv(t).next(
        later,
    ) is None by {
        lemma_waits_alone(r, k, until, v, t);
        let a = r.after_recv(t);
        let slot = Slot::<V> { until: (t + r.cooldown) as u128, withheld: None };
        lemma_settled(r, t);
        lemma_put(r.settled(t).slots, k, slot);
        lemma_ripe_bound(a.slots, later);
        lemma_nothing_released(a.queue, a.slots.take(ripe(a.slots, later) as int));
    }
}

/// A change to one window shows in the part in which the window stands.
proof fn lemma_withholding_split<K, V>(
    slots: Seq<(K, Slot<V>)>,
    k: K,
    withheld: Option<V>,
    n: int,
)
    requires
        unique(slots),
        0 <= n <= slots.len(),
    ensures
        withholding(slots, k, withheld).take(n) == withholding(slots.take(n), k, withheld),
        withholding(slots, k, withheld).skip(n) == withholding(slots.skip(n), k, withheld),
{
    lemma_take(slots, n);
    lemma_skip(slots, n);
    if holds(slots, k) {
        let p = place_of(slots, k);
        assert(slots[p].0 == k);
        lemma_found(slots, p);
        if p < n {
            assert(slots.take(n)[p] == slots[p]);
            lemma_found(slots.take(n), p);
        } else {
            assert(slots.skip(n)[p - n] == slots[p]);
            lemma_found(slots.skip(n), p - n);
        }
    }
    assert(withholding(slots, k, withheld).take(n) =~= withholding(slots.take(n), k, withheld));
    assert(withholding(slots, k, withheld).skip(n) =~= withholding(slots.skip(n), k, withheld));
}

/// A Delete is never held back: a key that the receiver has is queued for deletion at once,
/// whether or not it is cooling down. What waited under the key is cancelled. For a key that the
/// receiver does not have nothing is queued.
pub proof fn law_delete_is_prompt<K, V>(s: State<K, V>, now: u128, k: K)
    requires
        s.valid(),
    ensures
        s.sent(now, k, Update::Delete).waiting(k) is None,
        value_of(s.sent(now, k, Update::Delete).queue, k) == if s.known.contains(k) {
            Some(Update::<V>::Delete)
        } else {
            None
        },
{
    let m = s.settled(now);
    lemma_settled(s, now);
    lemma_sent(s, now, k, Update::Delete);
    lemma_put(m.queue, k, Update::Delete);
    lemma_without(m.queue, k);
}

/// A second Delete of a key, with no receive between, changes nothing.
pub proof fn law_deletes_coalesce<K, V>(s: State<K, V>, t1: u128, t2: u128, k: K)
    requires
        s.valid(),
    ensures
        s.sent(t1, k, Update::Delete).sent(t2, k, Update::Delete) == s.sent(
            t1,
            k,
            Update::Delete,
        ).settled(t2),
{
    let d = s.sent(t1, k, Update::Delete);
    let m = d.settled(t2);
    let n = ripe(d.slots, t2) as int;
    lemma_sent(s, t1, k, Update::Delete);
    law_delete_is_prompt(s, t1, k);
    lemma_settled(d, t2);
    lemma_ripe_bound(d.slots, t2);
    lemma_take(d.slots, n);
    lemma_skip(d.slots, n);
    lemma_released_holds(d.queue, d.slots.take(n), k);
    if holds(m.slots, k) {
        let p = place_of(m.slots, k);
        assert(m.slots[p].0 == k);
        lemma_found(m.slots, p);
        assert(m.waiting(k) == d.waiting(k));
        assert(withholding(m.slots, k, None) =~= m.slots);
    }
    if holds(m.queue, k) {
        let p = place_of(m.queue, k);
        assert(m.queue[p].0 == k);
        lemma_found(m.queue, p);
        assert(put(m.queue, k, Update::Delete) =~= m.queue);
    }
}

/// An Add that is followed at once by a Delete leaves no trace.
pub proof fn law_delete_cancels_add<K, V>(s: State<K, V>, now: u128, k: K, v: V)
    requires
        s.valid(),
    ensures
        s.sent(now, k, Update::Add(v)).sent(now, k, Update::Delete) == s.sent(
            now,
            k,
            Update::Delete,
        ),
{
    let m = s.settled(now);
    let a = s.sent(now, k, Update::Add(v));
    lemma_settled(s, now);
    lemma_withholding(m.slots, k, Some(v));
    if m.slots.len() > 0 {
        assert(a.slots[0].1.until == m.slots[0].1.until) by {
            if holds(m.slots, k) {
                assert(m.slots[place_of(m.slots, k)].0 == k);
            }
        }
    }
    lemma_settle_done(a, now);
    if holds(m.slots, k) {
        let p = place_of(m.slots, k);
        assert(m.slots[p].0 == k);
        lemma_found(a.slots, p);
        assert(withholding(a.slots, k, None) =~= withholding(m.slots, k, None));
    } else {
        lemma_put(m.queue, k, Update::Add(v));
        lemma_put_twice(m.queue, k, Update::Add(v), Update::Delete);
        if holds(m.queue, k) {
            let p = place_of(m.queue, k);
            assert(m.queue[p].0 == k);
            lemma_found(a.queue, p);
        } else {
            lemma_found(a.queue, m.queue.len() as int);
        }
        assert(without(a.queue, k) =~= without(m.queue, k));
    }
}

/// An Add that is followed by a Delete, with no receive between, leaves no trace if the receiver
/// does not have the key: the channel is the one that was sent the Delete alone.
pub proof fn law_delete_cancels_earlier_add<K, V>(s: State<K, V>, t1: u128, t2: u128, k: K, v: V)
    requires
        s.valid(),
        t1 <= t2,
        !s.known.contains(k),
    ensures
        s.sent(t1, k, Update::Add(v)).sent(t2, k, Update::Delete) == s.sent(
            t2,
            k,
            Update::Delete,
        ),
{
    let m = s.settled(t1);
    let a = s.sent(t1, k, Update::Add(v));
    let n = ripe(m.slots, t2) as int;
    lemma_settled(s, t1);
    lemma_sent(s, t1, k, Update::Add(v));
    law_settling_twice(s, t1, t2);
    lemma_ripe_bound(m.slots, t2);
    lemma_ripe_withholding(m.slots, k, Some(v), t2);
    lemma_withholding(m.slots, k, Some(v));
    lemma_withholding_split(m.slots, k, Some(v), n);
    lemma_take(m.slots, n);
    lemma_skip(m.slots, n);
    lemma_take(a.slots, n);
    lemma_released_apart(m.queue, m.slots.take(n), k);
    lemma_released_apart(a.queue, a.slots.take(n), k);
    lemma_put_then_without(m.queue, k, Update::Add(v));
    if let Some(slot) = value_of(m.slots.take(n), k) {
        lemma_put_then_without(m.slots.take(n), k, Slot { until: slot.until, withheld: Some(v) });
    }
    assert(without(a.queue, k) == without(m.queue, k));
    assert(without(a.slots.take(n), k) == without(m.slots.take(n), k));
    lemma_withheld_twice(m.slots.skip(n), k, Some(v), None);
}

/// Of two changes to one window the second stays.
proof fn lemma_withheld_twice<K, V>(
    slots: Seq<(K, Slot<V>)>,
    k: K,
    first: Option<V>,
    second: Option<V>,
)
    requires
        unique(slots),
    ensures
        withholding(withholding(slots, k, first), k, second) == withholding(slots, k, second),
{
    lemma_withholding(slots, k, first);
    if let Some(slot) = value_of(slots, k) {
        lemma_put_twice(
            slots,
            k,
            Slot { until: slot.until, withheld: first },
            Slot { until: slot.until, withheld: second },
        );
    }
}

/// A second clear, with no receive between, queues the same Deletes.
pub proof fn law_clears_coalesce<K, V>(
    s: State<K, V>,
    t1: u128,
    mid: State<K, V>,
    t2: u128,
    post: State<K, V>,
)
    requires
        s.valid(),
        s.cleared(t1, mid),
        mid.cleared(t2, post),
    ensures
        post.known == mid.known,
        post.queue.len() == mid.queue.len(),
        forall|k: K| #[trigger] value_of(post.queue, k) == value_of(mid.queue, k),
        post.slots == mid.slots.skip(ripe(mid.slots, t2) as int),
{
    lemma_ripe_bound(s.slots, t1);
    lemma_ripe_bound(mid.slots, t2);
    assert(post.slots =~= mid.slots.skip(ripe(mid.slots, t2) as int)) by {
        let left = mid.slots.skip(ripe(mid.slots, t2) as int);
        assert(forall|i: int| 0 <= i < left.len() ==> (#[trigger] left[i]) == post.slots[i]);
    }
    assert forall|k: K| #[trigger] value_of(post.queue, k) == value_of(mid.queue, k) by {
        assert(holds(post.queue, k) <==> mid.known.contains(k));
        assert(holds(mid.queue, k) <==> s.known.contains(k));
        if holds(post.queue, k) {
            assert(post.queue[place_of(post.queue, k)].1 is Delete);
            assert(mid.queue[place_of(mid.queue, k)].1 is Delete);
        }
    }
    lemma_same_keys(mid.queue, post.queue);
    lemma_same_keys(post.queue, mid.queue);
}

/// Without a cooldown nothing is ever withheld: every Add is queued.
pub proof fn law_no_cooldown_no_delay<K, V>(s: State<K, V>, now: u128, k: K, v: V)
    requires
        s.valid(),
        s.cooldown == 0,
    ensures
        s.sent(now, k, Update::Add(v)) == (State {
            queue: put(s.queue, k, Update::Add(v)),
            ..s
        }),
{
    lemma_settle_done(s, now);
}

/// A channel that starts with some keys has nothing to deliver and no window open. A Delete of one
/// of these keys is the next update that is delivered; a Delete of another key is not delivered.
pub proof fn law_starting_keys_can_be_deleted<K, V>(
    keys: Set<K>,
    cooldown: u128,
    sent: u128,
    now: u128,
    k: K,
)
    requires
        cooldown <= MAX_NANOS,
    ensures
        State::<K, V>::fresh(keys, cooldown).next_now(now) is None,
        State::<K, V>::fresh(keys, cooldown).wake() is None,
        State::<K, V>::fresh(keys, cooldown).sent(sent, k, Update::Delete).next(now)
            == if keys.contains(k) {
            Some((k, Update::<V>::Delete))
        } else {
            None
        },
{
    let s = State::<K, V>::fresh(keys, cooldown);
    let d = s.sent(sent, k, Update::Delete);
    lemma_settle_done(s, sent);
    lemma_settle_done(s, now);
    assert(!holds(s.queue, k) && !holds(s.slots, k));
    lemma_settle_done(d, now);
}

/// No more values are withheld than there are windows.
proof fn lemma_count_bound<K, V>(slots: Seq<(K, Slot<V>)>)
    ensures
        withheld_count(slots) <= slots.len(),
    decreases slots.len(),
{
    if slots.len() > 0 {
        lemma_count_bound(slots.drop_first());
    }
}

/// There is room as long as the entries can be numbered in 32 bits: no operation is refused for
/// want of it while windows and queued updates together are fewer than that, nor a clear while the
/// receiver has no more keys; and none goes ahead with a map that is full.
pub proof fn law_room_is_32_bits<K, V>(s: State<K, V>)
    ensures
        s.slots.len() + s.queue.len() < u32::MAX ==> s.has_room() && s.fits(),
        s.has_room() ==> s.queue.len() < u32::MAX,
        s.fits() ==> s.queue.len() <= u32::MAX && s.slots.len() < u32::MAX,
        s.can_clear() <==> s.known.len() <= u32::MAX,
{
    lemma_count_bound(s.slots);
}

} // verus!
