//! The channel's bookkeeping: cooldown windows, queued updates, and the keys the receiver has.

use std::collections::HashSet;
use std::hash::Hash;
use tokio::time::Instant;
use vstd::prelude::*;
use vstd::std_specs::hash::obeys_key_model;

use crate::assoc::{
    holds, lemma_drop_first, lemma_found, lemma_put, lemma_without, place_of, unique, without,
};
use crate::clock::{Clock, MAX_NANOS};
use crate::ordered_map::{OrderedMap, MAX_ENTRIES};
use crate::state::{
    emptied, front_closed, idle, lemma_after_recv, lemma_after_recv_now, lemma_backlog,
    lemma_cleared, lemma_count_emptied, lemma_count_idle, lemma_count_push, lemma_count_remove,
    lemma_count_update, lemma_front_closed, lemma_idle, lemma_ripe_bound, lemma_sent,
    lemma_settle_done, lemma_settle_step, lemma_settled, ripe, withheld_count, withholding, Slot,
    State,
};
use crate::Update;

verus! {

/// `K` can serve as a key: it hashes deterministically, its `==` and its `clone` mean identity.
pub open spec fn key_type<K: Clone>() -> bool {
    &&& obeys_key_model::<K>()
    &&& forall|a: K, b: K| #[trigger] cloned(a, b) ==> a == b
}

/// `slots` after the first `i` of them have gone to the back, but for the one at `n`, which is
/// taken out when its turn comes.
spec fn turned<K, V>(slots: Seq<(K, Slot<V>)>, i: int, n: int) -> Seq<(K, Slot<V>)> {
    slots.skip(i) + if i <= n {
        slots.take(i)
    } else {
        slots.take(i).remove(n)
    }
}

proof fn lemma_turned<K, V>(slots: Seq<(K, Slot<V>)>, i: int, n: int)
    requires
        unique(slots),
        0 <= i <= slots.len(),
        0 <= n <= slots.len(),
    ensures
        unique(turned(slots, i, n)),
        turned(slots, 0, n) == slots,
        turned(slots, slots.len() as int, n) == if n < slots.len() {
            slots.remove(n)
        } else {
            slots
        },
        i < slots.len() ==> {
            let t = turned(slots, i, n);
            &&& t.len() > 0
            &&& t.len() <= slots.len()
            &&& t[0] == slots[i]
            &&& !holds(t.drop_first(), slots[i].0)
            &&& turned(slots, i + 1, n) == if i == n {
                t.drop_first()
            } else {
                t.drop_first().push(slots[i])
            }
        },
{
    let t = turned(slots, i, n);
    let rest = slots.len() - i;
    assert forall|x: int| 0 <= x < t.len() implies #[trigger] t[x] == slots[if x < rest {
        i + x
    } else if i <= n || x - rest < n {
        x - rest
    } else {
        x - rest + 1
    }] by {}
    assert(turned(slots, 0, n) =~= slots);
    if n < slots.len() {
        assert(turned(slots, slots.len() as int, n) =~= slots.remove(n));
    } else {
        assert(turned(slots, slots.len() as int, n) =~= slots);
    }
    if i < slots.len() {
        if i == n {
            assert(turned(slots, i + 1, n) =~= t.drop_first());
        } else {
            assert(turned(slots, i + 1, n) =~= t.drop_first().push(slots[i]));
        }
        lemma_drop_first(t);
    }
}

/// Cooldown windows, queued updates and the keys that the receiver has.
#[verifier::reject_recursive_types(K)]
#[verifier::reject_recursive_types(V)]
pub struct Raw<K, V> {
    clock: Clock,
    cooldown: u128,
    cooldown_keys: OrderedMap<K, Slot<V>>,
    withheld: u64,
    pending_updates: OrderedMap<K, Update<V>>,
    keys_receiver_has: HashSet<K>,
}

impl<K, V> View for Raw<K, V> {
    type V = State<K, V>;

    closed spec fn view(&self) -> State<K, V> {
        State {
            cooldown: self.cooldown,
            slots: self.cooldown_keys@,
            queue: self.pending_updates@,
            known: self.keys_receiver_has@,
        }
    }
}

impl<K, V> Raw<K, V> {
    /// A channel with nothing to deliver, whose receiver has `starting_keys`. Its clock starts
    /// now; `cooldown` is in nanoseconds.
    pub fn new(starting_keys: HashSet<K>, cooldown: u128) -> (raw: Self)
        ensures
            raw@ == State::<K, V>::fresh(starting_keys@, cooldown),
            raw@.known == starting_keys@,
            raw@.cooldown == cooldown,
            raw@.slots.len() == 0,
            raw@.queue.len() == 0,
            cooldown <= MAX_NANOS ==> raw@.valid(),
            raw.clock().shown() == 0,
            raw.counted(),
    {
        Raw {
            clock: Clock::start(),
            cooldown,
            cooldown_keys: OrderedMap::new(),
            withheld: 0,
            pending_updates: OrderedMap::new(),
            keys_receiver_has: starting_keys,
        }
    }

    /// The instant from which the channel counts its nanoseconds.
    pub fn origin(&self) -> (origin: Instant)
        ensures
            origin == self.clock().started(),
    {
        self.clock.origin()
    }

    /// The number of values that are withheld is known.
    pub closed spec fn counted(&self) -> bool {
        self.withheld == withheld_count(self.cooldown_keys@)
    }

    /// The clock by which the channel goes.
    pub closed spec fn clock(&self) -> Clock {
        self.clock
    }

    /// Reads the clock, in nanoseconds.
    pub fn now(&mut self) -> (nanos: u128)
        ensures
            final(self)@ == old(self)@,
            final(self).counted() == old(self).counted(),
            old(self).clock().ticks_to(final(self).clock()),
            nanos == final(self).clock().shown(),
    {
        self.clock.now()
    }

    /// When the first cooldown window is over; `None` if no window is open.
    pub fn wait_next_cooldown(&self) -> (until: Option<u128>)
        ensures
            until == self@.wake(),
            match until {
                Some(t) => self@.slots.len() > 0 && t == self@.slots[0].1.until,
                None => self@.slots.len() == 0,
            },
    {
        match self.cooldown_keys.front() {
            Some(slot) => Some(slot.until),
            None => None,
        }
    }
}

impl<K: Clone + Eq + Hash, V> Raw<K, V> {
    /// The contents are valid and counted, and keys can be told apart.
    pub open spec fn wf(&self) -> bool {
        &&& key_type::<K>()
        &&& self@.valid()
        &&& self.counted()
    }

    /// Whether one more update fits in the queue.
    pub fn has_room(&self) -> (room: bool)
        requires
            self.wf(),
        ensures
            room == self@.has_room(),
    {
        let queued: u64 = self.pending_updates.len() as u64;
        queued < MAX_ENTRIES && self.withheld < MAX_ENTRIES - queued
    }

    /// Whether each map has room for what a receive may add to it.
    pub fn fits(&self) -> (room: bool)
        requires
            self.wf(),
        ensures
            room == self@.fits(),
    {
        let queued: u64 = self.pending_updates.len() as u64;
        let cooling: u64 = self.cooldown_keys.len() as u64;
        queued <= MAX_ENTRIES && self.withheld <= MAX_ENTRIES - queued && cooling < MAX_ENTRIES
    }

    /// Whether a Delete of every key that the receiver has fits.
    pub fn can_clear(&self) -> (room: bool)
        requires
            self.wf(),
        ensures
            room == self@.can_clear(),
    {
        self.keys_receiver_has.len() as u64 <= MAX_ENTRIES
    }

    /// Sends an update of `key` at `now`. Gives back the value that was waiting under `key` and
    /// that this update displaces.
    pub fn send_at(&mut self, now: u128, key: K, update: Update<V>) -> (replaced: Option<V>)
        requires
            old(self).wf(),
            old(self)@.has_room(),
        ensures
            final(self).wf(),
            final(self).clock() == old(self).clock(),
            final(self)@ == old(self)@.sent(now, key, update),
            replaced == old(self)@.waiting(key),
    {
        proof {
            lemma_settled(self@, now);
            lemma_sent(self@, now, key, update);
            assert(self@.settled(now).waiting(key) == self@.waiting(key));
        }
        self.process_cooldown_keys(now);
        let ghost settled = self@;
        proof {
            lemma_put(settled.queue, key, update);
            if holds(settled.queue, key) {
                lemma_found(settled.queue, place_of(settled.queue, key));
            }
        }
        match update {
            Update::Add(v) => {
                match self.cooldown_keys.get_mut(&key) {
                    Some(slot) => {
                        let replaced = slot.withheld.take();
                        slot.withheld = Some(v);
                        proof {
                            let p = place_of(settled.slots, key);
                            lemma_count_update(settled.slots, p, key, self@.slots[p].1);
                        }
                        if replaced.is_none() {
                            self.withheld = self.withheld + 1;
                        }
                        assert(self@ =~= old(self)@.sent(now, key, update));
                        replaced
                    },
                    None => match self.pending_updates.insert(key, Update::Add(v)) {
                        Some(queued) => queued.into_option(),
                        None => None,
                    },
                }
            },
            Update::Delete => {
                let withheld = match self.cooldown_keys.get_mut(&key) {
                    Some(slot) => slot.withheld.take(),
                    None => None,
                };
                assert(self@.slots =~= withholding(settled.slots, key, None));
                proof {
                    if holds(settled.slots, key) {
                        let p = place_of(settled.slots, key);
                        lemma_count_update(settled.slots, p, key, self@.slots[p].1);
                    }
                }
                if withheld.is_some() {
                    self.withheld = self.withheld - 1;
                }
                let queued = if self.keys_receiver_has.contains(&key) {
                    self.pending_updates.insert(key, Update::Delete)
                } else {
                    self.pending_updates.remove(&key)
                };
                match withheld {
                    Some(v) => Some(v),
                    None => match queued {
                        Some(queued) => queued.into_option(),
                        None => None,
                    },
                }
            },
        }
    }

    /// Sends an update of `key` at the time the clock shows.
    pub fn send(&mut self, key: K, update: Update<V>) -> (replaced: Option<V>)
        requires
            old(self).wf(),
            old(self)@.has_room(),
        ensures
            final(self).wf(),
            old(self).clock().ticks_to(final(self).clock()),
            final(self)@ == old(self)@.sent(final(self).clock().shown(), key, update),
            replaced == old(self)@.waiting(key),
    {
        let now = self.now();
        self.send_at(now, key, update)
    }

    /// Queues a Delete for every key that the receiver has, at `now`, and cancels whatever else
    /// waits.
    pub fn clear_at(&mut self, now: u128)
        requires
            old(self).wf(),
            old(self)@.can_clear(),
        ensures
            final(self).wf(),
            final(self).clock() == old(self).clock(),
            old(self)@.cleared(now, final(self)@),
    {
        let ghost slots = self@.slots;
        let ghost mut closed: int = 0;
        proof {
            lemma_ripe_bound(slots, now);
            assert(slots.skip(0) =~= slots);
        }
        loop
            invariant
                key_type::<K>(),
                self@.valid(),
                0 <= closed <= slots.len(),
                slots == old(self)@.slots,
                self@ == (State { slots: slots.skip(closed), ..old(self)@ }),
                self.clock() == old(self).clock(),
                closed + ripe(self@.slots, now) == ripe(slots, now),
                old(self)@.can_clear(),
            ensures
                key_type::<K>(),
                self@.valid(),
                self@ == (State { slots: slots.skip(ripe(slots, now) as int), ..old(self)@ }),
                self.clock() == old(self).clock(),
            decreases slots.len() - closed,
        {
            let over = match self.cooldown_keys.front() {
                Some(slot) => slot.until <= now,
                None => false,
            };
            if !over {
                break;
            }
            let ghost before = self@;
            proof {
                lemma_drop_first(before.slots);
                assert(before.slots.drop_first() =~= slots.skip(closed + 1));
                closed = closed + 1;
            }
            self.cooldown_keys.pop_front();
        }
        self.cooldown_keys.forget_all();
        self.withheld = 0;
        self.pending_updates.clear();
        let ghost known = self.keys_receiver_has@;
        for k in keys: self.keys_receiver_has.iter()
            invariant
                key_type::<K>(),
                self.keys_receiver_has@ == known,
                known == old(self)@.known,
                known.len() <= MAX_ENTRIES,
                keys.seq().unref().to_set() == known,
                keys.seq().no_duplicates(),
                keys.seq().len() == known.len(),
                self.cooldown == old(self)@.cooldown,
                self.clock() == old(self).clock(),
                self.cooldown_keys@ == emptied(slots.skip(ripe(slots, now) as int)),
                self.withheld == 0,
                self.pending_updates@.len() == keys.index(),
                forall|i: int|
                    0 <= i < keys.index() ==> #[trigger] self.pending_updates@[i] == (
                        *keys.seq()[i],
                        Update::<V>::Delete,
                    ),
                keys.index() == keys.seq().len() ==> forall|x: K| #[trigger]
                    holds(self.pending_updates@, x) <==> known.contains(x),
        {
            let key = k.clone();
            proof {
                assert(cloned(*k, key));
                if holds(self.pending_updates@, key) {
                    let p = place_of(self.pending_updates@, key);
                    assert(self.pending_updates@[p].0 == key);
                    assert(keys.seq()[p] == keys.seq()[keys.index()]);
                }
            }
            self.pending_updates.insert(key, Update::Delete);
            assert forall|x: K| keys.index() + 1 == keys.seq().len() implies (#[trigger] holds(
                self.pending_updates@,
                x,
            ) <==> known.contains(x)) by {
                let order = keys.seq().unref();
                if holds(self.pending_updates@, x) {
                    let p = place_of(self.pending_updates@, x);
                    assert(order[p] == x);
                }
                if known.contains(x) {
                    let p = choose|p: int| 0 <= p < order.len() && order[p] == x;
                    assert(self.pending_updates@[p].0 == x);
                }
            }
        }
        proof {
            lemma_count_emptied(slots.skip(ripe(slots, now) as int));
            lemma_cleared(old(self)@, now, self@);
        }
    }

    /// Clears the channel at the time the clock shows.
    pub fn clear(&mut self)
        requires
            old(self).wf(),
            old(self)@.can_clear(),
        ensures
            final(self).wf(),
            old(self).clock().ticks_to(final(self).clock()),
            old(self)@.cleared(final(self).clock().shown(), final(self)@),
    {
        let now = self.now();
        self.clear_at(now)
    }

    /// Delivers the front of the queue at `now`.
    pub fn try_recv_at(&mut self, now: u128) -> (update: Option<(K, Update<V>)>)
        requires
            old(self).wf(),
            old(self)@.fits(),
            now <= MAX_NANOS,
        ensures
            final(self).wf(),
            final(self).clock() == old(self).clock(),
            final(self)@ == old(self)@.after_recv(now),
            update == old(self)@.next(now),
    {
        proof {
            lemma_settled(self@, now);
            lemma_after_recv(self@, now);
        }
        self.process_cooldown_keys(now);
        match self.pending_updates.pop_front() {
            Some(update) => {
                self.update_receiver(&update, now);
                Some(update)
            },
            None => None,
        }
    }

    /// Delivers the front of the queue at the time the clock shows.
    pub fn try_recv(&mut self) -> (update: Option<(K, Update<V>)>)
        requires
            old(self).wf(),
            old(self)@.fits(),
        ensures
            final(self).wf(),
            old(self).clock().ticks_to(final(self).clock()),
            final(self)@ == old(self)@.after_recv(final(self).clock().shown()),
            update == old(self)@.next(final(self).clock().shown()),
            old(self)@.queue.len() > 0 ==> update is Some,
            old(self)@.backlog() == 0 ==> update is None,
    {
        let now = self.now();
        proof {
            lemma_backlog(self@, now);
        }
        self.try_recv_at(now)
    }

    /// Delivers the front of the queue at `now`, or else the first withheld value.
    pub fn try_recv_now_at(&mut self, now: u128) -> (update: Option<(K, Update<V>)>)
        requires
            old(self).wf(),
            old(self)@.fits(),
            now <= MAX_NANOS,
        ensures
            final(self).wf(),
            final(self).clock() == old(self).clock(),
            final(self)@ == old(self)@.after_recv_now(now),
            update == old(self)@.next_now(now),
    {
        proof {
            lemma_settled(self@, now);
            lemma_after_recv(self@, now);
            lemma_after_recv_now(self@, now);
        }
        self.process_cooldown_keys(now);
        if let Some(update) = self.pending_updates.pop_front() {
            self.update_receiver(&update, now);
            return Some(update);
        }
        match self.take_withheld() {
            Some((k, v)) => {
                let update = (k, Update::Add(v));
                self.update_receiver(&update, now);
                Some(update)
            },
            None => None,
        }
    }

    /// Delivers the front of the queue at the time the clock shows, or else the first withheld
    /// value.
    pub fn try_recv_now(&mut self) -> (update: Option<(K, Update<V>)>)
        requires
            old(self).wf(),
            old(self)@.fits(),
        ensures
            final(self).wf(),
            old(self).clock().ticks_to(final(self).clock()),
            final(self)@ == old(self)@.after_recv_now(final(self).clock().shown()),
            update == old(self)@.next_now(final(self).clock().shown()),
            update is None <==> old(self)@.backlog() == 0,
    {
        let now = self.now();
        proof {
            lemma_backlog(self@, now);
        }
        self.try_recv_now_at(now)
    }

    /// Records that the receiver has been told of `update` at `now`.
    fn update_receiver(&mut self, update: &(K, Update<V>), now: u128)
        requires
            key_type::<K>(),
            unique(old(self)@.slots),
            old(self)@.slots.len() < MAX_ENTRIES,
            update.1 is Add ==> !holds(old(self)@.slots, update.0),
            old(self)@.cooldown <= MAX_NANOS,
            now <= MAX_NANOS,
        ensures
            final(self)@ == old(self)@.told(now, *update),
            final(self).counted() == old(self).counted(),
            final(self).clock() == old(self).clock(),
    {
        match &update.1 {
            Update::Add(_) => {
                if self.cooldown > 0 {
                    let key = update.0.clone();
                    assert(cloned(update.0, key));
                    proof {
                        lemma_count_push(self@.slots, key, (now + self.cooldown) as u128);
                    }
                    self.cooldown_keys.insert(
                        key,
                        Slot { until: now + self.cooldown, withheld: None },
                    );
                }
                let key = update.0.clone();
                assert(cloned(update.0, key));
                self.keys_receiver_has.insert(key);
            },
            Update::Delete => {
                self.keys_receiver_has.remove(&update.0);
            },
        }
    }

    /// Takes the first window that withholds a value out, and hands its key and its value back. The
    /// windows make one full turn, from the front to the back, so that the others keep their order.
    fn take_withheld(&mut self) -> (taken: Option<(K, V)>)
        requires
            old(self).wf(),
            old(self)@.slots.len() <= MAX_ENTRIES,
        ensures
            final(self).clock() == old(self).clock(),
            final(self).counted(),
            match taken {
                Some((k, v)) => {
                    let n = idle(old(self)@.slots) as int;
                    &&& n < old(self)@.slots.len()
                    &&& k == old(self)@.slots[n].0
                    &&& Some(v) == old(self)@.slots[n].1.withheld
                    &&& final(self)@ == (State {
                        slots: without(old(self)@.slots, k),
                        ..old(self)@
                    })
                },
                None => idle(old(self)@.slots) == old(self)@.slots.len() && final(self)@ == old(
                    self,
                )@,
            },
    {
        let ghost slots = self@.slots;
        let ghost n = idle(slots) as int;
        if self.withheld == 0 {
            proof {
                lemma_idle(slots);
                lemma_count_idle(slots);
            }
            return None;
        }
        let count: usize = self.cooldown_keys.len();
        let mut taken: Option<(K, V)> = None;
        let mut turns: usize = 0;
        proof {
            lemma_idle(slots);
            lemma_turned(slots, 0, n);
        }
        while turns < count
            invariant
                key_type::<K>(),
                unique(slots),
                slots == old(self)@.slots,
                n == idle(slots),
                n <= slots.len() <= MAX_ENTRIES,
                count == slots.len(),
                turns <= count,
                self@ == (State { slots: turned(slots, turns as int, n), ..old(self)@ }),
                self.clock() == old(self).clock(),
                self.withheld == withheld_count(slots),
                taken == if n < turns {
                    Some((slots[n].0, slots[n].1.withheld->0))
                } else {
                    None
                },
            decreases count - turns,
        {
            proof {
                lemma_idle(slots);
                lemma_turned(slots, turns as int, n);
                lemma_turned(slots, turns + 1, n);
            }
            if let Some((k, slot)) = self.cooldown_keys.pop_front() {
                match (&taken, slot.withheld) {
                    (None, Some(v)) => {
                        taken = Some((k, v));
                    },
                    (_, withheld) => {
                        self.cooldown_keys.insert(k, Slot { until: slot.until, withheld });
                    },
                }
            }
            turns = turns + 1;
        }
        proof {
            lemma_turned(slots, turns as int, n);
            if n < slots.len() {
                lemma_found(slots, n);
                lemma_count_remove(slots, n);
            }
        }
        if taken.is_some() {
            self.withheld = self.withheld - 1;
        }
        taken
    }

    /// Closes the windows that are over at `now` and queues what they withheld.
    fn process_cooldown_keys(&mut self, now: u128)
        requires
            old(self).wf(),
            old(self)@.backlog() <= MAX_ENTRIES,
        ensures
            final(self).wf(),
            final(self)@ == old(self)@.settled(now),
            final(self).clock() == old(self).clock(),
    {
        loop
            invariant
                self.wf(),
                self@.settled(now) == old(self)@.settled(now),
                self.clock() == old(self).clock(),
                self@.backlog() <= MAX_ENTRIES,
            ensures
                self.wf(),
                self@ == old(self)@.settled(now),
                self.clock() == old(self).clock(),
            decreases self@.slots.len(),
        {
            let ghost before = self@;
            let over = match self.cooldown_keys.front() {
                Some(slot) => slot.until <= now,
                None => false,
            };
            if !over {
                proof {
                    lemma_settle_done(self@, now);
                }
                break;
            }
            proof {
                lemma_settle_step(before, now);
                lemma_front_closed(before);
                lemma_without(before.queue, before.slots[0].0);
            }
            if let Some((k, slot)) = self.cooldown_keys.pop_front() {
                if let Some(v) = slot.withheld {
                    self.withheld = self.withheld - 1;
                    self.pending_updates.remove(&k);
                    self.pending_updates.insert(k, Update::Add(v));
                }
            }
            assert(self@ =~= front_closed(before));
        }
    }
}

/// Integers can serve as keys.
pub proof fn law_integers_are_keys()
    ensures
        key_type::<u64>(),
        key_type::<u32>(),
{
    broadcast use vstd::std_specs::hash::group_hash_axioms;

}

} // verus!