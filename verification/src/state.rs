//! What a channel holds, and what each operation makes of it.

use vstd::prelude::*;

use crate::assoc::{
    holds, lemma_drop_first, lemma_found, lemma_put, lemma_skip, lemma_to_back, lemma_without,
    place_of, put, to_back, unique, value_of, without,
};
use crate::clock::MAX_NANOS;
use crate::ordered_map::MAX_ENTRIES;
use crate::Update;

verus! {

/// The cooldown window of one key.
pub struct Slot<V> {
    /// When the window is over, in nanoseconds since the channel was made.
    pub until: u128,
    /// The latest value that was added while the window was open.
    pub withheld: Option<V>,
}

impl<V> Slot<V> {
    /// Drops the withheld value; the window stays open.
    pub fn forget(&mut self)
        ensures
            *final(self) == (Slot { until: old(self).until, withheld: None::<V> }),
    {
        self.withheld = None;
    }
}

/// The contents of a channel.
#[verifier::ext_equal]
#[verifier::reject_recursive_types(K)]
pub struct State<K, V> {
    /// Length of a cooldown window, in nanoseconds.
    pub cooldown: u128,
    /// Open windows, in the order in which they were opened.
    pub slots: Seq<(K, Slot<V>)>,
    /// Updates that can be delivered, front first.
    pub queue: Seq<(K, Update<V>)>,
    /// The keys that the receiver has.
    pub known: Set<K>,
}

/// How many windows at the front of `slots` are over at `now`.
pub open spec fn ripe<K, V>(slots: Seq<(K, Slot<V>)>, now: u128) -> nat
    decreases slots.len(),
{
    if slots.len() == 0 || slots[0].1.until > now {
        0
    } else {
        1 + ripe(slots.drop_first(), now)
    }
}

/// How many windows at the front of `slots` withhold nothing.
pub open spec fn idle<K, V>(slots: Seq<(K, Slot<V>)>) -> nat
    decreases slots.len(),
{
    if slots.len() == 0 || slots[0].1.withheld is Some {
        0
    } else {
        1 + idle(slots.drop_first())
    }
}

/// How many of `slots` withhold a value.
pub open spec fn withheld_count<K, V>(slots: Seq<(K, Slot<V>)>) -> nat
    decreases slots.len(),
{
    if slots.len() == 0 {
        0
    } else {
        (if slots[0].1.withheld is Some {
            1nat
        } else {
            0nat
        }) + withheld_count(slots.drop_first())
    }
}

/// `queue` after the values withheld in `slots` have joined it at the end, front first. A Delete of
/// the same key that is still queued gives way.
pub open spec fn released<K, V>(
    queue: Seq<(K, Update<V>)>,
    slots: Seq<(K, Slot<V>)>,
) -> Seq<(K, Update<V>)>
    decreases slots.len(),
{
    if slots.len() == 0 {
        queue
    } else {
        released(
            match slots[0].1.withheld {
                Some(v) => to_back(queue, slots[0].0, Update::Add(v)),
                None => queue,
            },
            slots.drop_first(),
        )
    }
}

/// `slots` with the same windows and nothing withheld.
pub open spec fn emptied<K, V>(slots: Seq<(K, Slot<V>)>) -> Seq<(K, Slot<V>)> {
    Seq::new(
        slots.len(),
        |i: int| (slots[i].0, Slot { until: slots[i].1.until, withheld: None }),
    )
}

/// `slots` with `withheld` kept in the window of `k`, if `k` has one.
pub open spec fn withholding<K, V>(
    slots: Seq<(K, Slot<V>)>,
    k: K,
    withheld: Option<V>,
) -> Seq<(K, Slot<V>)> {
    match value_of(slots, k) {
        Some(slot) => put(slots, k, Slot { until: slot.until, withheld }),
        None => slots,
    }
}

impl<K, V> State<K, V> {
    /// A channel before its first operation.
    pub open spec fn fresh(known: Set<K>, cooldown: u128) -> Self {
        State { cooldown, slots: Seq::empty(), queue: Seq::empty(), known }
    }

    /// What holds of every channel:
    /// each key has at most one window and at most one update in the queue;
    /// a Delete is queued only for a key that the receiver has;
    /// an Add is queued only for a key that is not cooling down;
    /// without a cooldown there are no windows.
    pub open spec fn valid(self) -> bool {
        &&& self.cooldown <= MAX_NANOS
        &&& unique(self.slots)
        &&& unique(self.queue)
        &&& forall|i: int|
            0 <= i < self.queue.len() && (#[trigger] self.queue[i]).1 is Delete
                ==> self.known.contains(self.queue[i].0)
        &&& forall|i: int|
            0 <= i < self.queue.len() && (#[trigger] self.queue[i]).1 is Add ==> !holds(
                self.slots,
                self.queue[i].0,
            )
        &&& self.cooldown == 0 ==> self.slots.len() == 0
    }

    /// Each map has room for what a receive may add to it: the queue for everything that is
    /// withheld, the windows for one more.
    pub open spec fn fits(self) -> bool {
        &&& self.backlog() <= MAX_ENTRIES
        &&& self.slots.len() < MAX_ENTRIES
    }

    /// The queue has room for one more update, and for everything that is withheld.
    pub open spec fn has_room(self) -> bool {
        self.backlog() < MAX_ENTRIES
    }

    /// There is room for a Delete of every key that the receiver has.
    pub open spec fn can_clear(self) -> bool {
        self.known.len() <= MAX_ENTRIES
    }

    /// The windows that are over at `now` are closed; what they withheld joins the queue.
    pub open spec fn settled(self, now: u128) -> Self {
        let n = ripe(self.slots, now) as int;
        State {
            slots: self.slots.skip(n),
            queue: released(self.queue, self.slots.take(n)),
            ..self
        }
    }

    /// The value that waits for delivery under `k`.
    pub open spec fn waiting(self, k: K) -> Option<V> {
        match value_of(self.slots, k) {
            Some(Slot { until: _, withheld: Some(v) }) => Some(v),
            _ => match value_of(self.queue, k) {
                Some(update) => update.carried(),
                None => None,
            },
        }
    }

    /// How many updates wait.
    pub open spec fn backlog(self) -> nat {
        self.queue.len() + withheld_count(self.slots)
    }

    /// An update of `k` has been sent at `now`.
    ///
    /// An Add goes into the window of its key if one is open, else into the queue. A Delete
    /// cancels what waits under its key and is queued if the receiver has the key.
    pub open spec fn sent(self, now: u128, k: K, update: Update<V>) -> Self {
        let s = self.settled(now);
        match update {
            Update::Add(v) => if holds(s.slots, k) {
                State { slots: withholding(s.slots, k, Some(v)), ..s }
            } else {
                State { queue: put(s.queue, k, update), ..s }
            },
            Update::Delete => State {
                slots: withholding(s.slots, k, None),
                queue: if s.known.contains(k) {
                    put(s.queue, k, update)
                } else {
                    without(s.queue, k)
                },
                ..s
            },
        }
    }

    /// `post` is `self` cleared at `now`: nothing is withheld, and the queue holds one Delete for
    /// each key that the receiver has, in some order.
    pub open spec fn cleared(self, now: u128, post: Self) -> bool {
        &&& post.cooldown == self.cooldown
        &&& post.known == self.known
        &&& post.slots == emptied(self.slots.skip(ripe(self.slots, now) as int))
        &&& unique(post.queue)
        &&& forall|i: int| 0 <= i < post.queue.len() ==> (#[trigger] post.queue[i]).1 is Delete
        &&& forall|k: K| #[trigger] holds(post.queue, k) <==> self.known.contains(k)
    }

    /// The receiver has been told of `entry` at `now`.
    pub open spec fn told(self, now: u128, entry: (K, Update<V>)) -> Self {
        match entry.1 {
            Update::Add(_) => State {
                slots: if self.cooldown > 0 {
                    put(
                        self.slots,
                        entry.0,
                        Slot { until: (now + self.cooldown) as u128, withheld: None },
                    )
                } else {
                    self.slots
                },
                known: self.known.insert(entry.0),
                ..self
            },
            Update::Delete => State { known: self.known.remove(entry.0), ..self },
        }
    }

    /// What a receive at `now` delivers: the front of the queue.
    pub open spec fn next(self, now: u128) -> Option<(K, Update<V>)> {
        let s = self.settled(now);
        if s.queue.len() > 0 {
            Some(s.queue[0])
        } else {
            None
        }
    }

    /// What a receive at `now` leaves.
    pub open spec fn after_recv(self, now: u128) -> Self {
        let s = self.settled(now);
        if s.queue.len() > 0 {
            State { queue: s.queue.drop_first(), ..s }.told(now, s.queue[0])
        } else {
            s
        }
    }

    /// What a receive at `now` delivers when windows are ignored: the front of the queue, or else
    /// the first value that is withheld.
    pub open spec fn next_now(self, now: u128) -> Option<(K, Update<V>)> {
        let s = self.settled(now);
        let n = idle(s.slots) as int;
        if s.queue.len() > 0 {
            Some(s.queue[0])
        } else if n < s.slots.len() {
            Some((s.slots[n].0, Update::Add(s.slots[n].1.withheld->0)))
        } else {
            None
        }
    }

    /// What a receive at `now` leaves when windows are ignored: the window of a key whose value
    /// was withheld gives way to a new one. The other windows stay.
    pub open spec fn after_recv_now(self, now: u128) -> Self {
        let s = self.settled(now);
        let n = idle(s.slots) as int;
        if s.queue.len() > 0 {
            self.after_recv(now)
        } else if n < s.slots.len() {
            State { slots: without(s.slots, s.slots[n].0), ..s }.told(
                now,
                (s.slots[n].0, Update::Add(s.slots[n].1.withheld->0)),
            )
        } else {
            s
        }
    }

    /// What a receive at `now` delivers from an open or a closed channel: a closed one ignores
    /// windows.
    pub open spec fn offer(self, now: u128, closed: bool) -> Option<(K, Update<V>)> {
        if closed {
            self.next_now(now)
        } else {
            self.next(now)
        }
    }

    /// What a receive at `now` leaves of an open or a closed channel.
    pub open spec fn after_offer(self, now: u128, closed: bool) -> Self {
        if closed {
            self.after_recv_now(now)
        } else {
            self.after_recv(now)
        }
    }

    /// When the first window is over, if one is open.
    pub open spec fn wake(self) -> Option<u128> {
        if self.slots.len() > 0 {
            Some(self.slots[0].1.until)
        } else {
            None
        }
    }
}

/// One window fewer: the first is closed, and what it withheld joins the queue.
pub open spec fn front_closed<K, V>(s: State<K, V>) -> State<K, V> {
    State {
        slots: s.slots.drop_first(),
        queue: match s.slots[0].1.withheld {
            Some(v) => to_back(s.queue, s.slots[0].0, Update::Add(v)),
            None => s.queue,
        },
        ..s
    }
}

/// Closing the first window, if it is over, is the first step of settling.
pub proof fn lemma_settle_step<K, V>(s: State<K, V>, now: u128)
    requires
        s.slots.len() > 0,
        s.slots[0].1.until <= now,
    ensures
        s.settled(now) == front_closed(s).settled(now),
{
    let rest = s.slots.drop_first();
    let n = ripe(rest, now) as int;
    lemma_ripe_bound(rest, now);
    assert(ripe(s.slots, now) == n + 1);
    assert(s.slots.skip(n + 1) =~= rest.skip(n));
    assert(s.slots.take(n + 1).drop_first() =~= rest.take(n));
    assert(s.slots.take(n + 1)[0] == s.slots[0]);
}

/// With no window over, settling changes nothing.
pub proof fn lemma_settle_done<K, V>(s: State<K, V>, now: u128)
    requires
        s.slots.len() == 0 || s.slots[0].1.until > now,
    ensures
        s.settled(now) == s,
{
    assert(s.slots.skip(0) =~= s.slots);
    assert(s.slots.take(0).len() == 0);
}

/// No more windows are over than there are.
pub proof fn lemma_ripe_bound<K, V>(slots: Seq<(K, Slot<V>)>, now: u128)
    ensures
        ripe(slots, now) <= slots.len(),
    decreases slots.len(),
{
    if slots.len() > 0 && slots[0].1.until <= now {
        lemma_ripe_bound(slots.drop_first(), now);
    }
}

/// What `valid` says of the queue, key by key.
spec fn queue_is_sound<K, V>(s: State<K, V>) -> bool {
    forall|k: K|
        match #[trigger] value_of(s.queue, k) {
            Some(Update::Delete) => s.known.contains(k),
            Some(Update::Add(_)) => !holds(s.slots, k),
            None => true,
        }
}

proof fn lemma_queue_is_sound<K, V>(s: State<K, V>)
    requires
        s.valid(),
    ensures
        queue_is_sound(s),
{
    assert forall|k: K|
        match #[trigger] value_of(s.queue, k) {
            Some(Update::Delete) => s.known.contains(k),
            Some(Update::Add(_)) => !holds(s.slots, k),
            None => true,
        } by {
        if holds(s.queue, k) {
            assert(s.queue[place_of(s.queue, k)].0 == k);
        }
    }
}

proof fn lemma_queue_is_valid<K, V>(s: State<K, V>)
    requires
        unique(s.queue),
        queue_is_sound(s),
    ensures
        forall|i: int|
            0 <= i < s.queue.len() ==> {
                &&& (#[trigger] s.queue[i]).1 is Delete ==> s.known.contains(s.queue[i].0)
                &&& s.queue[i].1 is Add ==> !holds(s.slots, s.queue[i].0)
            },
{
    assert forall|i: int| 0 <= i < s.queue.len() implies {
        &&& (#[trigger] s.queue[i]).1 is Delete ==> s.known.contains(s.queue[i].0)
        &&& s.queue[i].1 is Add ==> !holds(s.slots, s.queue[i].0)
    } by {
        lemma_found(s.queue, i);
    }
}

/// Closing the first window keeps a channel valid, and adds to nothing that waits.
pub proof fn lemma_front_closed<K, V>(s: State<K, V>)
    requires
        s.valid(),
        s.slots.len() > 0,
    ensures
        front_closed(s).valid(),
        front_closed(s).backlog() <= s.backlog(),
        forall|k: K| #[trigger] front_closed(s).waiting(k) == s.waiting(k),
{
    let t = front_closed(s);
    let k0 = s.slots[0].0;
    lemma_found(s.slots, 0);
    lemma_drop_first(s.slots);
    match s.slots[0].1.withheld {
        Some(v) => {
            lemma_to_back(s.queue, k0, Update::Add(v));
        },
        None => {},
    }
    lemma_queue_is_sound(s);
    lemma_queue_is_valid(t);
    assert forall|k: K| #[trigger] t.waiting(k) == s.waiting(k) by {
        if k == k0 {
            assert(value_of(t.slots, k) is None);
        } else {
            assert(value_of(t.slots, k) == value_of(s.slots, k));
            assert(value_of(t.queue, k) == value_of(s.queue, k));
        }
    }
}

/// Settling keeps a channel valid, and adds to nothing that waits.
pub proof fn lemma_settled<K, V>(s: State<K, V>, now: u128)
    requires
        s.valid(),
    ensures
        s.settled(now).valid(),
        s.settled(now).backlog() <= s.backlog(),
        s.settled(now).slots.len() <= s.slots.len(),
        s.settled(now).slots.len() == 0 || s.settled(now).slots[0].1.until > now,
        forall|k: K| #[trigger] s.settled(now).waiting(k) == s.waiting(k),
    decreases s.slots.len(),
{
    if s.slots.len() > 0 && s.slots[0].1.until <= now {
        lemma_settle_step(s, now);
        lemma_front_closed(s);
        lemma_settled(front_closed(s), now);
        assert forall|k: K| #[trigger] s.settled(now).waiting(k) == s.waiting(k) by {
            assert(front_closed(s).waiting(k) == s.waiting(k));
        }
    } else {
        lemma_settle_done(s, now);
    }
}

/// Changing what a window withholds changes no other window.
pub proof fn lemma_withholding<K, V>(slots: Seq<(K, Slot<V>)>, k: K, withheld: Option<V>)
    requires
        unique(slots),
    ensures
        unique(withholding(slots, k, withheld)),
        withholding(slots, k, withheld).len() == slots.len(),
        forall|other: K|
            #[trigger] holds(withholding(slots, k, withheld), other) <==> holds(slots, other),
        forall|other: K|
            other != k ==> #[trigger] value_of(withholding(slots, k, withheld), other) == value_of(
                slots,
                other,
            ),
        holds(slots, k) ==> value_of(withholding(slots, k, withheld), k) == Some(
            Slot { until: value_of(slots, k)->0.until, withheld },
        ),
{
    if let Some(slot) = value_of(slots, k) {
        lemma_put(slots, k, Slot { until: slot.until, withheld });
    }
}

/// Sending keeps a channel valid: what waits under the key is then what the update carries, and
/// nothing changes under other keys.
pub proof fn lemma_sent<K, V>(s: State<K, V>, now: u128, k: K, update: Update<V>)
    requires
        s.valid(),
    ensures
        s.sent(now, k, update).valid(),
        s.sent(now, k, update).waiting(k) == update.carried(),
        forall|other: K|
            other != k ==> #[trigger] s.sent(now, k, update).waiting(other) == s.waiting(other),
{
    let m = s.settled(now);
    let t = s.sent(now, k, update);
    lemma_settled(s, now);
    lemma_withholding(m.slots, k, update.carried());
    lemma_put(m.queue, k, update);
    lemma_without(m.queue, k);
    lemma_queue_is_sound(m);
    assert(forall|other: K| #[trigger] holds(t.slots, other) == holds(m.slots, other));
    lemma_queue_is_valid(t);
    if holds(m.queue, k) {
        let j = place_of(m.queue, k);
        assert(m.queue[j].0 == k);
        lemma_found(m.queue, j);
    }
    assert forall|other: K| other != k implies #[trigger] t.waiting(other) == s.waiting(other) by {
        assert(m.waiting(other) == s.waiting(other));
        assert(value_of(t.slots, other) == value_of(m.slots, other));
        assert(value_of(t.queue, other) == value_of(m.queue, other));
    }
}

/// Telling the receiver of an update that waits nowhere any more keeps a channel valid.
pub proof fn lemma_told<K, V>(s: State<K, V>, now: u128, entry: (K, Update<V>))
    requires
        s.valid(),
        now <= MAX_NANOS,
        !holds(s.queue, entry.0),
        entry.1 is Add ==> !holds(s.slots, entry.0),
    ensures
        s.told(now, entry).valid(),
        forall|k: K| #[trigger] s.told(now, entry).waiting(k) == s.waiting(k),
{
    let t = s.told(now, entry);
    let slot = Slot::<V> { until: (now + s.cooldown) as u128, withheld: None };
    lemma_put(s.slots, entry.0, slot);
    lemma_queue_is_sound(s);
    lemma_queue_is_valid(t);
    assert forall|k: K| #[trigger] t.waiting(k) == s.waiting(k) by {
        if k == entry.0 && entry.1 is Add && s.cooldown > 0 {
            assert(value_of(t.slots, k) == Some(slot));
            assert(value_of(s.slots, k) is None);
        } else if entry.1 is Add && s.cooldown > 0 {
            assert(value_of(t.slots, k) == value_of(s.slots, k));
        }
    }
}

/// Taking the front of the queue off keeps a channel valid.
pub proof fn lemma_front_taken<K, V>(m: State<K, V>)
    requires
        m.valid(),
        m.queue.len() > 0,
    ensures
        (State { queue: m.queue.drop_first(), ..m }).valid(),
{
    let rest = State { queue: m.queue.drop_first(), ..m };
    lemma_drop_first(m.queue);
    lemma_queue_is_sound(m);
    lemma_queue_is_valid(rest);
}

/// Receiving keeps a channel valid.
pub proof fn lemma_after_recv<K, V>(s: State<K, V>, now: u128)
    requires
        s.valid(),
        now <= MAX_NANOS,
    ensures
        s.after_recv(now).valid(),
{
    let m = s.settled(now);
    lemma_settled(s, now);
    if m.queue.len() > 0 {
        let rest = State { queue: m.queue.drop_first(), ..m };
        lemma_drop_first(m.queue);
        lemma_front_taken(m);
        lemma_told(rest, now, m.queue[0]);
    }
}

/// No more windows are idle than there are; the first that is not withholds a value.
pub proof fn lemma_idle<K, V>(slots: Seq<(K, Slot<V>)>)
    ensures
        idle(slots) <= slots.len(),
        forall|i: int| 0 <= i < idle(slots) ==> (#[trigger] slots[i]).1.withheld is None,
        idle(slots) < slots.len() ==> slots[idle(slots) as int].1.withheld is Some,
    decreases slots.len(),
{
    if slots.len() > 0 && slots[0].1.withheld is None {
        let rest = slots.drop_first();
        lemma_idle(rest);
        assert forall|i: int| 0 <= i < idle(slots) implies (
        #[trigger] slots[i]).1.withheld is None by {
            if i > 0 {
                assert(slots[i] == rest[i - 1]);
            }
        }
        if idle(rest) < rest.len() {
            assert(slots[idle(slots) as int] == rest[idle(rest) as int]);
        }
    }
}

/// Receiving without regard to windows keeps a channel valid.
pub proof fn lemma_after_recv_now<K, V>(s: State<K, V>, now: u128)
    requires
        s.valid(),
        now <= MAX_NANOS,
    ensures
        s.after_recv_now(now).valid(),
{
    let m = s.settled(now);
    lemma_settled(s, now);
    lemma_after_recv(s, now);
    lemma_idle(m.slots);
    let n = idle(m.slots) as int;
    if m.queue.len() == 0 && n < m.slots.len() {
        lemma_without(m.slots, m.slots[n].0);
        let rest = State { slots: without(m.slots, m.slots[n].0), ..m };
        lemma_told(rest, now, (m.slots[n].0, Update::Add(m.slots[n].1.withheld->0)));
    }
}

/// Clearing keeps a channel valid.
pub proof fn lemma_cleared<K, V>(s: State<K, V>, now: u128, post: State<K, V>)
    requires
        s.valid(),
        s.cleared(now, post),
    ensures
        post.valid(),
        forall|k: K| #[trigger] post.waiting(k) is None,
{
    let n = ripe(s.slots, now) as int;
    lemma_ripe_bound(s.slots, now);
    lemma_skip(s.slots, n);
    assert forall|i: int| 0 <= i < post.queue.len() implies s.known.contains(
        (#[trigger] post.queue[i]).0,
    ) by {
        lemma_found(post.queue, i);
    }
    assert forall|k: K| #[trigger] post.waiting(k) is None by {
        if holds(post.slots, k) {
            assert(post.slots[place_of(post.slots, k)].1.withheld is None);
        }
        if holds(post.queue, k) {
            assert(post.queue[place_of(post.queue, k)].1 is Delete);
        }
    }
}

/// If all windows are idle, nothing is withheld.
pub proof fn lemma_count_idle<K, V>(slots: Seq<(K, Slot<V>)>)
    ensures
        idle(slots) >= slots.len() <==> withheld_count(slots) == 0,
    decreases slots.len(),
{
    if slots.len() > 0 {
        lemma_idle(slots);
        lemma_idle(slots.drop_first());
        lemma_count_idle(slots.drop_first());
    }
}

/// A window that is replaced takes along what it withheld.
pub proof fn lemma_count_update<K, V>(slots: Seq<(K, Slot<V>)>, i: int, k: K, slot: Slot<V>)
    requires
        0 <= i < slots.len(),
    ensures
        withheld_count(slots.update(i, (k, slot))) + (if slots[i].1.withheld is Some {
            1nat
        } else {
            0nat
        }) == withheld_count(slots) + (if slot.withheld is Some {
            1nat
        } else {
            0nat
        }),
    decreases slots.len(),
{
    let t = slots.update(i, (k, slot));
    if i == 0 {
        assert(t.drop_first() =~= slots.drop_first());
    } else {
        lemma_count_update(slots.drop_first(), i - 1, k, slot);
        assert(t.drop_first() =~= slots.drop_first().update(i - 1, (k, slot)));
    }
}

/// With nothing withheld, nothing is counted.
pub proof fn lemma_count_emptied<K, V>(slots: Seq<(K, Slot<V>)>)
    ensures
        withheld_count(emptied(slots)) == 0,
    decreases slots.len(),
{
    if slots.len() > 0 {
        lemma_count_emptied(slots.drop_first());
        assert(emptied(slots).drop_first() =~= emptied(slots.drop_first()));
    }
}

/// A window that is taken out takes along what it withheld.
pub proof fn lemma_count_remove<K, V>(slots: Seq<(K, Slot<V>)>, i: int)
    requires
        0 <= i < slots.len(),
    ensures
        withheld_count(slots) == withheld_count(slots.remove(i)) + if slots[i].1.withheld is Some {
            1nat
        } else {
            0nat
        },
    decreases slots.len(),
{
    let rest = slots.drop_first();
    if i == 0 {
        assert(slots.remove(0) =~= rest);
    } else {
        lemma_count_remove(rest, i - 1);
        assert(slots.remove(i).drop_first() =~= rest.remove(i - 1));
        assert(slots.remove(i)[0] == slots[0]);
    }
}

/// A window that withholds nothing does not count.
pub proof fn lemma_count_push<K, V>(slots: Seq<(K, Slot<V>)>, k: K, until: u128)
    ensures
        withheld_count(slots.push((k, Slot { until, withheld: None }))) == withheld_count(slots),
    decreases slots.len(),
{
    let longer = slots.push((k, Slot::<V> { until, withheld: None }));
    if slots.len() > 0 {
        lemma_count_push(slots.drop_first(), k, until);
        assert(longer.drop_first() =~= slots.drop_first().push(
            (k, Slot { until, withheld: None }),
        ));
    } else {
        assert(longer.drop_first() =~= slots);
    }
}

/// An update that waits still waits after settling.
proof fn lemma_nothing_settles<K, V>(s: State<K, V>, now: u128)
    requires
        s.valid(),
        s.settled(now).backlog() == 0,
    ensures
        s.backlog() == 0,
    decreases s.slots.len(),
{
    if s.slots.len() > 0 && s.slots[0].1.until <= now {
        lemma_settle_step(s, now);
        lemma_front_closed(s);
        lemma_nothing_settles(front_closed(s), now);
    } else {
        lemma_settle_done(s, now);
    }
}

/// Each delivery leaves fewer updates waiting. With windows ignored nothing is delivered exactly
/// when no update waits; with windows respected nothing is delivered only while the queue is empty.
pub proof fn lemma_backlog<K, V>(s: State<K, V>, now: u128)
    requires
        s.valid(),
    ensures
        s.next(now) is Some ==> s.after_recv(now).backlog() < s.backlog(),
        s.next_now(now) is Some ==> s.after_recv_now(now).backlog() < s.backlog(),
        s.next_now(now) is None <==> s.backlog() == 0,
        s.queue.len() > 0 ==> s.next(now) is Some,
        s.backlog() == 0 ==> s.next(now) is None,
{
    let m = s.settled(now);
    lemma_settled(s, now);
    lemma_count_idle(m.slots);
    lemma_idle(m.slots);
    let n = idle(m.slots) as int;
    if m.queue.len() > 0 {
        let rest = State { queue: m.queue.drop_first(), ..m };
        let entry = m.queue[0];
        if entry.1 is Add {
            lemma_count_push(m.slots, entry.0, (now + m.cooldown) as u128);
        }
    } else if n < m.slots.len() {
        lemma_found(m.slots, n);
        lemma_without(m.slots, m.slots[n].0);
        lemma_count_remove(m.slots, n);
        lemma_count_push(m.slots.remove(n), m.slots[n].0, (now + m.cooldown) as u128);
    }
    if m.backlog() == 0 {
        lemma_nothing_settles(s, now);
    }
    lemma_queue_grows(s, now);
}

/// Settling takes nothing out of the queue.
proof fn lemma_queue_grows<K, V>(s: State<K, V>, now: u128)
    requires
        s.valid(),
    ensures
        s.queue.len() <= s.settled(now).queue.len(),
    decreases s.slots.len(),
{
    if s.slots.len() > 0 && s.slots[0].1.until <= now {
        lemma_settle_step(s, now);
        lemma_front_closed(s);
        lemma_queue_grows(front_closed(s), now);
        if let Some(v) = s.slots[0].1.withheld {
            lemma_to_back(s.queue, s.slots[0].0, Update::Add(v));
        }
    } else {
        lemma_settle_done(s, now);
    }
}

/// Releasing windows does not queue a key whose window withholds nothing, and forgets no key.
pub proof fn lemma_released_holds<K, V>(
    queue: Seq<(K, Update<V>)>,
    slots: Seq<(K, Slot<V>)>,
    k: K,
)
    requires
        unique(queue),
        unique(slots),
    ensures
        unique(released(queue, slots)),
        value_of(released(queue, slots), k) == match value_of(slots, k) {
            Some(Slot { until: _, withheld: Some(v) }) => Some(Update::Add(v)),
            _ => value_of(queue, k),
        },
    decreases slots.len(),
{
    if slots.len() > 0 {
        let rest = slots.drop_first();
        let (k0, slot) = slots[0];
        lemma_found(slots, 0);
        lemma_drop_first(slots);
        match slot.withheld {
            Some(v) => {
                lemma_to_back(queue, k0, Update::Add(v));
                lemma_released_holds(to_back(queue, k0, Update::Add(v)), rest, k);
            },
            None => {
                lemma_released_holds(queue, rest, k);
            },
        }
    }
}

} // verus!
