//! A channel as its two ends share it: the bookkeeping, and whether an end is gone.

use std::collections::HashSet;
use std::hash::Hash;
use tokio::time::Instant;
use vstd::prelude::*;

use crate::assoc::{holds, value_of};
use crate::clock::{Clock, MAX_NANOS};
use crate::laws::{applied, law_recv_now_converges};
use crate::order::law_cooling_add_is_withheld;
use crate::raw::{key_type, Raw};
use crate::session::{follows, Step};
use crate::state::{lemma_backlog, State};
use crate::{SendError, TryRecvError, Update};

verus! {

/// What a receiver that can wait is to do.
pub enum Polled<K, V> {
    /// Hand out this update.
    Ready((K, Update<V>)),
    /// Report the end: the channel is closed and drained.
    Finished,
    /// Wait for a change, but no longer than until this time; `None` sets no limit. The time is in
    /// nanoseconds since the channel was made.
    Wait(Option<u128>),
}

/// What a receive reports when `next` is what the channel had to deliver.
pub open spec fn report<K, V>(next: Option<(K, Update<V>)>, closed: bool) -> Result<
    (K, Update<V>),
    TryRecvError,
> {
    match next {
        Some(update) => Ok(update),
        None => Err(
            if closed {
                TryRecvError::Disconnected
            } else {
                TryRecvError::Empty
            },
        ),
    }
}

/// What a receiver that can wait is to do at `now`.
pub open spec fn plan<K, V>(s: State<K, V>, now: u128, closed: bool) -> Polled<K, V> {
    match s.offer(now, closed) {
        Some(update) => Polled::Ready(update),
        None => if closed {
            Polled::Finished
        } else {
            Polled::Wait(s.settled(now).wake())
        },
    }
}

/// A receive that can wait agrees with one that cannot: it hands out the update that the other
/// would hand out, and reports the end when the other would. It waits only when there is nothing
/// yet.
pub proof fn law_recv_agrees_with_try_recv<K, V>(s: State<K, V>, now: u128, closed: bool)
    ensures
        match report(s.offer(now, closed), closed) {
            Ok(update) => plan(s, now, closed) == Polled::Ready(update),
            Err(TryRecvError::Disconnected) => plan(s, now, closed) is Finished,
            Err(TryRecvError::Empty) => plan(s, now, closed) is Wait,
        },
{
}

/// The end is reported if and only if the channel is closed and no update is left, a withheld one
/// included. While the channel is open it is not reported.
pub proof fn law_end_means_drained<K, V>(s: State<K, V>, now: u128, closed: bool)
    requires
        s.valid(),
    ensures
        plan(s, now, closed) is Finished <==> closed && s.backlog() == 0,
        report(s.offer(now, closed), closed) == Err::<(K, Update<V>), _>(
            TryRecvError::Disconnected,
        ) <==> closed && s.backlog() == 0,
{
    lemma_backlog(s, now);
}

/// A receive on an open channel respects windows: while the window of a key is open, it does not
/// hand out an Add of that key. It delivers and leaves what a receive that respects windows does.
pub proof fn law_open_receive_respects_windows<K, V>(s: State<K, V>, now: u128, k: K, v: V)
    requires
        s.valid(),
    ensures
        s.offer(now, false) == s.next(now),
        s.after_offer(now, false) == s.after_recv(now),
        holds(s.slots, k) && now < value_of(s.slots, k)->0.until ==> {
            &&& report(s.offer(now, false), false) != Ok::<_, TryRecvError>((k, Update::Add(v)))
            &&& plan(s, now, false) != Polled::Ready((k, Update::Add(v)))
        },
{
    if holds(s.slots, k) && now < value_of(s.slots, k)->0.until {
        law_cooling_add_is_withheld(s, now, k, v);
    }
}

/// A receive on a closed channel loses nothing: what it hands out brings the receiver's store
/// closer to where it ends up, and it is the front of the queue as long as there is one. It gives
/// nothing only when nothing waits.
pub proof fn law_closed_receive_loses_nothing<K, V>(s: State<K, V>, now: u128, store: Map<K, V>)
    requires
        s.valid(),
        now <= MAX_NANOS,
        store.dom() == s.known,
    ensures
        match s.offer(now, true) {
            Some(entry) => {
                &&& applied(store, entry).dom() == s.after_offer(now, true).known
                &&& s.after_offer(now, true).outcome(applied(store, entry)) == s.outcome(store)
                &&& s.settled(now).queue.len() > 0 ==> entry == s.settled(now).queue[0]
            },
            None => s.backlog() == 0 && s.after_offer(now, true).outcome(store) == s.outcome(store),
        },
{
    law_recv_now_converges(s, now, store);
    lemma_backlog(s, now);
}

/// What the two ends of a channel share.
#[verifier::reject_recursive_types(K)]
#[verifier::reject_recursive_types(V)]
pub struct Inner<K, V> {
    raw: Raw<K, V>,
    dropped: bool,
}

impl<K, V> View for Inner<K, V> {
    type V = State<K, V>;

    closed spec fn view(&self) -> State<K, V> {
        self.raw@
    }
}

impl<K, V> Inner<K, V> {
    /// One of the two ends is gone.
    pub closed spec fn closed(&self) -> bool {
        self.dropped
    }

    /// A channel with both ends, nothing to deliver, and a receiver that has `starting_keys`.
    /// `cooldown` is in nanoseconds.
    pub fn new(starting_keys: HashSet<K>, cooldown: u128) -> (inner: Self)
        ensures
            inner@ == State::<K, V>::fresh(starting_keys@, cooldown),
            inner@.known == starting_keys@,
            inner@.cooldown == cooldown,
            inner@.slots.len() == 0,
            inner@.queue.len() == 0,
            cooldown <= MAX_NANOS ==> inner@.valid(),
            !inner.closed(),
            inner.clock().shown() == 0,
            inner.counted(),
    {
        Inner { raw: Raw::new(starting_keys, cooldown), dropped: false }
    }

    /// Records that one of the two ends is gone.
    pub fn close(&mut self)
        ensures
            final(self).closed(),
            final(self)@ == old(self)@,
            final(self).clock() == old(self).clock(),
            final(self).counted() == old(self).counted(),
    {
        self.dropped = true;
    }

    /// Whether one of the two ends is gone.
    pub fn is_closed(&self) -> (closed: bool)
        ensures
            closed == self.closed(),
    {
        self.dropped
    }

    /// The instant from which the channel counts its nanoseconds.
    pub fn origin(&self) -> (origin: Instant)
        ensures
            origin == self.clock().started(),
    {
        self.raw.origin()
    }

    /// The number of values that are withheld is known.
    pub closed spec fn counted(&self) -> bool {
        self.raw.counted()
    }

    /// The clock by which the channel goes.
    pub closed spec fn clock(&self) -> Clock {
        self.raw.clock()
    }
}

impl<K: Clone + Eq + Hash, V> Inner<K, V> {
    /// The contents are valid and counted, and keys can be told apart.
    pub open spec fn wf(&self) -> bool {
        &&& key_type::<K>()
        &&& self@.valid()
        &&& self.counted()
    }

    /// Whether one more update fits in the queue.
    pub fn has_room(&self) -> (room: bool)
        requires
            self.wf(),
        ensures
            room == self@.has_room(),
    {
        self.raw.has_room()
    }

    /// Whether each map has room for what a receive may add to it.
    pub fn fits(&self) -> (room: bool)
        requires
            self.wf(),
        ensures
            room == self@.fits(),
    {
        self.raw.fits()
    }

    /// Whether a Delete of every key that the receiver has fits.
    pub fn can_clear(&self) -> (room: bool)
        requires
            self.wf(),
        ensures
            room == self@.can_clear(),
    {
        self.raw.can_clear()
    }

    /// Sends an update at `now`, unless the channel is closed. Gives back the value that was
    /// waiting under `key`, or the update that could not be sent.
    pub fn send_at(&mut self, now: u128, key: K, update: Update<V>) -> (result: Result<
        Option<V>,
        SendError<V>,
    >)
        requires
            old(self).wf(),
            !old(self).closed() ==> old(self)@.has_room(),
        ensures
            final(self).wf(),
            final(self).closed() == old(self).closed(),
            final(self).clock() == old(self).clock(),
            old(self).closed() ==> result == Err::<Option<V>, _>(SendError(update)) && final(self)@
                == old(self)@,
            !old(self).closed() ==> result == Ok::<_, SendError<V>>(old(self)@.waiting(key))
                && final(self)@ == old(self)@.sent(now, key, update),
            result matches Ok(displaced) ==> follows(
                old(self)@,
                now,
                old(self).closed(),
                Step::Send(key, update, displaced),
                final(self)@,
            ),
    {
        if self.dropped {
            return Err(SendError(update));
        }
        Ok(self.raw.send_at(now, key, update))
    }

    /// Clears the channel at `now`, unless it is closed.
    pub fn clear_at(&mut self, now: u128) -> (result: Result<(), SendError<V>>)
        requires
            old(self).wf(),
            !old(self).closed() ==> old(self)@.can_clear(),
        ensures
            final(self).wf(),
            final(self).closed() == old(self).closed(),
            final(self).clock() == old(self).clock(),
            old(self).closed() ==> result == Err::<(), _>(SendError(Update::<V>::Delete))
                && final(self)@ == old(self)@,
            !old(self).closed() ==> result == Ok::<_, SendError<V>>(()) && old(self)@.cleared(
                now,
                final(self)@,
            ),
            result is Ok ==> follows(
                old(self)@,
                now,
                old(self).closed(),
                Step::<K, V>::Clear,
                final(self)@,
            ),
    {
        if self.dropped {
            return Err(SendError(Update::Delete));
        }
        self.raw.clear_at(now);
        Ok(())
    }

    /// Delivers the next update at `now`. On a closed channel nothing more can replace a withheld
    /// value, so windows are ignored.
    pub fn try_recv_at(&mut self, now: u128) -> (result: Result<(K, Update<V>), TryRecvError>)
        requires
            old(self).wf(),
            old(self)@.fits(),
            now <= MAX_NANOS,
        ensures
            final(self).wf(),
            final(self).closed() == old(self).closed(),
            final(self).clock() == old(self).clock(),
            final(self)@ == old(self)@.after_offer(now, old(self).closed()),
            result == report(old(self)@.offer(now, old(self).closed()), old(self).closed()),
            follows(old(self)@, now, old(self).closed(), Step::TryRecv(result), final(self)@),
    {
        let next = if self.dropped {
            self.raw.try_recv_now_at(now)
        } else {
            self.raw.try_recv_at(now)
        };
        match next {
            Some(update) => Ok(update),
            None => Err(TryRecvError::from_dropped(self.dropped)),
        }
    }

    /// Delivers the next update at `now` without regard to windows.
    pub fn try_recv_now_at(&mut self, now: u128) -> (result: Result<(K, Update<V>), TryRecvError>)
        requires
            old(self).wf(),
            old(self)@.fits(),
            now <= MAX_NANOS,
        ensures
            final(self).wf(),
            final(self).closed() == old(self).closed(),
            final(self).clock() == old(self).clock(),
            final(self)@ == old(self)@.after_recv_now(now),
            result == report(old(self)@.next_now(now), old(self).closed()),
            follows(old(self)@, now, old(self).closed(), Step::TryRecvNow(result), final(self)@),
    {
        match self.raw.try_recv_now_at(now) {
            Some(update) => Ok(update),
            None => Err(TryRecvError::from_dropped(self.dropped)),
        }
    }

    /// Decides at `now` what a receiver that can wait is to do, and delivers the next update if
    /// there is one.
    pub fn poll_recv_at(&mut self, now: u128) -> (polled: Polled<K, V>)
        requires
            old(self).wf(),
            old(self)@.fits(),
            now <= MAX_NANOS,
        ensures
            final(self).wf(),
            final(self).closed() == old(self).closed(),
            final(self).clock() == old(self).clock(),
            final(self)@ == old(self)@.after_offer(now, old(self).closed()),
            polled == plan(old(self)@, now, old(self).closed()),
            follows(old(self)@, now, old(self).closed(), Step::Poll(polled), final(self)@),
    {
        match self.try_recv_at(now) {
            Ok(update) => Polled::Ready(update),
            Err(TryRecvError::Disconnected) => Polled::Finished,
            Err(TryRecvError::Empty) => Polled::Wait(self.raw.wait_next_cooldown()),
        }
    }

    /// Sends an update at the time the clock shows, unless the channel is closed.
    pub fn send(&mut self, key: K, update: Update<V>) -> (result: Result<Option<V>, SendError<V>>)
        requires
            old(self).wf(),
            !old(self).closed() ==> old(self)@.has_room(),
        ensures
            final(self).wf(),
            final(self).closed() == old(self).closed(),
            old(self).clock().ticks_to(final(self).clock()),
            old(self).closed() ==> result == Err::<Option<V>, _>(SendError(update)) && final(self)@
                == old(self)@,
            !old(self).closed() ==> result == Ok::<_, SendError<V>>(old(self)@.waiting(key))
                && final(self)@ == old(self)@.sent(final(self).clock().shown(), key, update),
    {
        let now = self.raw.now();
        self.send_at(now, key, update)
    }

    /// Clears the channel at the time the clock shows, unless it is closed.
    pub fn clear(&mut self) -> (result: Result<(), SendError<V>>)
        requires
            old(self).wf(),
            !old(self).closed() ==> old(self)@.can_clear(),
        ensures
            final(self).wf(),
            final(self).closed() == old(self).closed(),
            old(self).clock().ticks_to(final(self).clock()),
            old(self).closed() ==> result == Err::<(), _>(SendError(Update::<V>::Delete))
                && final(self)@ == old(self)@,
            !old(self).closed() ==> result == Ok::<_, SendError<V>>(()) && old(self)@.cleared(
                final(self).clock().shown(),
                final(self)@,
            ),
    {
        let now = self.raw.now();
        self.clear_at(now)
    }

    /// Delivers the next update at the time the clock shows.
    pub fn try_recv(&mut self) -> (result: Result<(K, Update<V>), TryRecvError>)
        requires
            old(self).wf(),
            old(self)@.fits(),
        ensures
            final(self).wf(),
            final(self).closed() == old(self).closed(),
            old(self).clock().ticks_to(final(self).clock()),
            final(self)@ == old(self)@.after_offer(
                final(self).clock().shown(),
                old(self).closed(),
            ),
            result == report(
                old(self)@.offer(final(self).clock().shown(), old(self).closed()),
                old(self).closed(),
            ),
            old(self)@.queue.len() > 0 ==> result is Ok,
            old(self)@.backlog() == 0 ==> result is Err,
            old(self).closed() && old(self)@.backlog() > 0 ==> result is Ok,
    {
        let now = self.raw.now();
        proof {
            lemma_backlog(self@, now);
        }
        self.try_recv_at(now)
    }

    /// Delivers the next update at the time the clock shows, without regard to windows.
    pub fn try_recv_now(&mut self) -> (result: Result<(K, Update<V>), TryRecvError>)
        requires
            old(self).wf(),
            old(self)@.fits(),
        ensures
            final(self).wf(),
            final(self).closed() == old(self).closed(),
            old(self).clock().ticks_to(final(self).clock()),
            final(self)@ == old(self)@.after_recv_now(final(self).clock().shown()),
            result == report(
                old(self)@.next_now(final(self).clock().shown()),
                old(self).closed(),
            ),
            result is Err <==> old(self)@.backlog() == 0,
    {
        let now = self.raw.now();
        proof {
            lemma_backlog(self@, now);
        }
        self.try_recv_now_at(now)
    }

    /// Decides, at the time the clock shows, what a receiver that can wait is to do.
    pub fn poll_recv(&mut self) -> (polled: Polled<K, V>)
        requires
            old(self).wf(),
            old(self)@.fits(),
        ensures
            final(self).wf(),
            final(self).closed() == old(self).closed(),
            old(self).clock().ticks_to(final(self).clock()),
            final(self)@ == old(self)@.after_offer(
                final(self).clock().shown(),
                old(self).closed(),
            ),
            polled == plan(old(self)@, final(self).clock().shown(), old(self).closed()),
            old(self)@.queue.len() > 0 ==> polled is Ready,
            polled is Finished <==> old(self).closed() && old(self)@.backlog() == 0,
    {
        let now = self.raw.now();
        proof {
            lemma_backlog(self@, now);
        }
        self.poll_recv_at(now)
    }
}

} // verus!
