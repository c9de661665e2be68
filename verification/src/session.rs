//! What those see who call a channel: the results of their calls, told from the record of what was
//! done with it.

use vstd::prelude::*;

use crate::assoc::{holds, lemma_found, place_of};
use crate::clock::MAX_NANOS;
use crate::history::{
    intended, law_adds_are_spaced, law_always_valid, law_fresh_channel, law_receiver_converges,
    law_windows_end_in_order, leads, received, Event, History,
};
use crate::inner::{plan, report, Polled};
use crate::record::{
    law_record_tells_contents, law_record_tells_deliveries, law_record_tells_displaced,
    lemma_last_add, Record,
};
use crate::state::{lemma_backlog, lemma_settled, State};
use crate::timing::lemma_in_time_order_settled;
use crate::{TryRecvError, Update};

verus! {

/// A call that a channel did not refuse, with what it gave back.
pub enum Step<K, V> {
    /// The value that was displaced comes back.
    Send(K, Update<V>, Option<V>),
    Clear,
    TryRecv(Result<(K, Update<V>), TryRecvError>),
    TryRecvNow(Result<(K, Update<V>), TryRecvError>),
    Poll(Polled<K, V>),
}

/// What the call `step` at `at`, on a channel that is closed or open, gives back and leaves.
pub open spec fn follows<K, V>(
    pre: State<K, V>,
    at: u128,
    closed: bool,
    step: Step<K, V>,
    post: State<K, V>,
) -> bool {
    match step {
        Step::Send(k, update, displaced) => {
            &&& !closed
            &&& displaced == pre.waiting(k)
            &&& post == pre.sent(at, k, update)
        },
        Step::Clear => !closed && pre.cleared(at, post),
        Step::TryRecv(result) => {
            &&& result == report(pre.offer(at, closed), closed)
            &&& post == pre.after_offer(at, closed)
        },
        Step::TryRecvNow(result) => {
            &&& result == report(pre.next_now(at), closed)
            &&& post == pre.after_recv_now(at)
        },
        Step::Poll(polled) => {
            &&& polled == plan(pre, at, closed)
            &&& post == pre.after_offer(at, closed)
        },
    }
}

impl<K, V> Step<K, V> {
    /// The update that the receiver got.
    pub open spec fn got(self) -> Option<(K, Update<V>)> {
        match self {
            Step::TryRecv(Ok(update)) => Some(update),
            Step::TryRecvNow(Ok(update)) => Some(update),
            Step::Poll(Polled::Ready(update)) => Some(update),
            _ => None,
        }
    }

    /// The end was reported.
    pub open spec fn ends(self) -> bool {
        match self {
            Step::TryRecv(Err(TryRecvError::Disconnected)) => true,
            Step::TryRecvNow(Err(TryRecvError::Disconnected)) => true,
            Step::Poll(Polled::Finished) => true,
            _ => false,
        }
    }

    /// What the call did. A closed channel ignores windows.
    pub open spec fn event(self, closed: bool) -> Event<K, V> {
        match self {
            Step::Send(k, update, _) => Event::Sent(k, update),
            Step::Clear => Event::Cleared,
            Step::TryRecvNow(_) => Event::ReceivedNow(self.got()),
            _ => if closed {
                Event::ReceivedNow(self.got())
            } else {
                Event::Received(self.got())
            },
        }
    }
}

/// The calls on a channel, each with its time and whether the channel was closed, and the states
/// before, between and after them.
#[verifier::reject_recursive_types(K)]
pub struct Session<K, V> {
    pub states: Seq<State<K, V>>,
    pub steps: Seq<(u128, bool, Step<K, V>)>,
}

impl<K, V> Session<K, V> {
    /// Each call gives back and leaves what it should, and time does not run backward.
    pub open spec fn valid(self) -> bool {
        &&& self.states.len() == self.steps.len() + 1
        &&& self.states[0].valid()
        &&& forall|i: int|
            0 <= i < self.steps.len() ==> (#[trigger] self.steps[i]).0 <= MAX_NANOS && follows(
                self.states[i],
                self.steps[i].0,
                self.steps[i].1,
                self.steps[i].2,
                self.states[i + 1],
            )
        &&& forall|i: int, j: int|
            0 <= i <= j < self.steps.len() ==> (#[trigger] self.steps[i]).0 <= (
            #[trigger] self.steps[j]).0
    }

    /// What was done, call by call.
    pub open spec fn events(self) -> Seq<(u128, Event<K, V>)> {
        Seq::new(
            self.steps.len(),
            |i: int| (self.steps[i].0, self.steps[i].2.event(self.steps[i].1)),
        )
    }

    pub open spec fn history(self) -> History<K, V> {
        History { states: self.states, events: self.events() }
    }

    /// The session of a channel from its start, as `record` tells it.
    pub open spec fn told_by(self, record: Record<K, V>) -> bool {
        &&& self.valid()
        &&& self.events() == record.events
        &&& self.states[0] == State::<K, V>::fresh(record.start, record.cooldown)
    }
}

/// Each call does one thing: a receive on an open channel respects windows; one on a closed channel
/// ignores them, and so does one that asks for it. What is delivered is what the caller gets.
pub proof fn law_call_is_operation<K, V>(
    pre: State<K, V>,
    at: u128,
    closed: bool,
    step: Step<K, V>,
    post: State<K, V>,
)
    requires
        follows(pre, at, closed, step, post),
    ensures
        leads(pre, at, step.event(closed), post),
        step.event(closed).delivered() == step.got(),
{
}

/// A session is a history.
pub proof fn law_session_is_history<K, V>(s: Session<K, V>)
    requires
        s.valid(),
    ensures
        s.history().valid(),
        s.history().timely(),
{
    let h = s.history();
    assert forall|i: int| 0 <= i < h.events.len() implies (#[trigger] h.events[i]).0 <= MAX_NANOS
        && leads(h.states[i], h.events[i].0, h.events[i].1, h.states[i + 1]) by {
        let (at, closed, step) = s.steps[i];
        law_call_is_operation(s.states[i], at, closed, step, s.states[i + 1]);
    }
    assert forall|i: int, j: int| 0 <= i <= j < h.events.len() implies (#[trigger] h.events[i]).0
        <= (#[trigger] h.events[j]).0 by {
        assert(s.steps[i].0 <= s.steps[j].0);
    }
}

/// How long a receiver that finds nothing at `now` is to wait: until the first window is over; with
/// no window open there is no limit.
pub open spec fn waits_until<K, V>(
    r: Record<K, V>,
    n: int,
    now: u128,
    limit: Option<u128>,
) -> bool {
    match limit {
        Some(t) => {
            &&& now < t
            &&& exists|k: K| #[trigger] r.cooling(n, k, now) && r.cool_end(n, k) == t
            &&& forall|k: K| #[trigger] r.cooling(n, k, now) ==> t <= r.cool_end(n, k)
        },
        None => forall|k: K| !(#[trigger] r.cooling(n, k, now)),
    }
}

/// The record tells the result of every call. A send gives back the value that it displaces. A
/// receive on an open channel gives an update that is due, or tells that there is none yet; one
/// that waits is told until when. A receive on a closed channel, or one that ignores windows, gives
/// an update as long as any is left; then a closed channel reports the end, and an open one that
/// there is none yet.
pub proof fn law_record_tells_results<K, V>(s: Session<K, V>, r: Record<K, V>, n: int)
    requires
        s.told_by(r),
        0 <= n < s.steps.len(),
    ensures
        ({
            let (at, closed, step) = s.steps[n];
            match step {
                Step::Send(k, _, displaced) => displaced == r.wanted(n, k),
                Step::Clear => true,
                Step::TryRecv(Ok((k, update))) => if closed {
                    r.up_for_grabs(n, k, update, at)
                } else {
                    r.due(n, k, at) == Some(update)
                },
                Step::TryRecv(Err(error)) => if closed {
                    error is Disconnected && r.nothing_left(n, at)
                } else {
                    error is Empty && r.nothing_due(n, at)
                },
                Step::TryRecvNow(Ok((k, update))) => r.up_for_grabs(n, k, update, at),
                Step::TryRecvNow(Err(error)) => {
                    &&& error is Disconnected <==> closed
                    &&& r.nothing_left(n, at)
                },
                Step::Poll(Polled::Ready((k, update))) => if closed {
                    r.up_for_grabs(n, k, update, at)
                } else {
                    r.due(n, k, at) == Some(update)
                },
                Step::Poll(Polled::Finished) => closed && r.nothing_left(n, at),
                Step::Poll(Polled::Wait(limit)) => {
                    &&& !closed
                    &&& r.nothing_due(n, at)
                    &&& waits_until(r, n, at, limit)
                },
            }
        }),
{
    let (at, closed, step) = s.steps[n];
    let h = s.history();
    law_session_is_history(s);
    assert(h.told_by(r));
    assert(r.events[n] == (at, step.event(closed)));
    law_record_tells_deliveries(h, r, n);
    law_call_is_operation(s.states[n], at, closed, step, s.states[n + 1]);
    match step {
        Step::Send(k, _, _) => {
            law_record_tells_displaced(h, r, n, k);
        },
        Step::Poll(Polled::Wait(limit)) => {
            lemma_wait(h, r, n, at);
        },
        _ => {},
    }
}

/// The first window that is open is that of the key that cools down the shortest.
proof fn lemma_wait<K, V>(h: History<K, V>, r: Record<K, V>, n: int, now: u128)
    requires
        h.told_by(r),
        0 <= n < h.events.len(),
        now == h.events[n].0,
    ensures
        waits_until(r, n, now, h.states[n].settled(now).wake()),
{
    let m = h.states[n].settled(now);
    if n > 0 {
        assert(h.events[n - 1].0 <= h.events[n].0);
    }
    law_always_valid(h, n);
    law_windows_end_in_order(h, n);
    lemma_settled(h.states[n], now);
    lemma_in_time_order_settled(h.states[n], now);
    assert forall|k: K| #[trigger] r.cooling(n, k, now) implies {
        &&& holds(m.slots, k)
        &&& m.slots[place_of(m.slots, k)].1.until == r.cool_end(n, k)
        &&& m.slots.len() > 0
        &&& m.slots[0].1.until <= r.cool_end(n, k)
    } by {
        law_record_tells_contents(h, r, n, k, now);
        lemma_cool_end(h, r, n, k);
        assert(m.slots[0].1.until <= m.slots[place_of(m.slots, k)].1.until);
    }
    if m.slots.len() > 0 {
        let k = m.slots[0].0;
        lemma_found(m.slots, 0);
        law_record_tells_contents(h, r, n, k, now);
        assert(r.cooling(n, k, now));
    }
}

/// The end of a window is a time that can be told.
proof fn lemma_cool_end<K, V>(h: History<K, V>, r: Record<K, V>, n: int, k: K)
    requires
        h.told_by(r),
        0 <= n <= h.events.len(),
        r.last_add(n, k) >= 0,
    ensures
        0 <= r.cool_end(n, k) <= u128::MAX,
{
    lemma_last_add(r, n, k);
    assert(h.events[r.last_add(n, k)].0 <= MAX_NANOS);
}

/// A receiver that waits as long as it is told misses nothing and does not wait in vain: if nothing
/// else is done, no update can be delivered before the limit is over; the limit is not later than
/// the end of any window that withholds a value, and at that end the value can be delivered. If
/// there is no limit, no value is withheld.
pub proof fn law_wait_is_right<K, V>(s: Session<K, V>, r: Record<K, V>, n: int, limit: Option<u128>)
    requires
        s.told_by(r),
        0 <= n < s.steps.len(),
        s.steps[n].2 == Step::<K, V>::Poll(Polled::Wait(limit)),
    ensures
        forall|k: K, t: u128|
            s.steps[n].0 <= t && (limit matches Some(end) ==> t < end) ==> (#[trigger] r.due(
                n + 1,
                k,
                t,
            )) is None,
        forall|k: K|
            (#[trigger] r.wanted(n + 1, k)) is Some ==> {
                &&& limit matches Some(end) && end <= r.cool_end(n + 1, k) <= u128::MAX
                &&& r.due(n + 1, k, r.cool_end(n + 1, k) as u128) == Some(
                    Update::Add(r.wanted(n + 1, k)->0),
                )
            },
{
    let (at, closed, step) = s.steps[n];
    law_session_is_history(s);
    law_record_tells_results(s, r, n);
    assert(s.history().told_by(r));
    assert(r.events[n] == (at, step.event(closed)));
    assert forall|k: K, t: u128|
        at <= t && (limit matches Some(end) ==> t < end) implies (#[trigger] r.due(
        n + 1,
        k,
        t,
    )) is None by {
        assert(r.due(n, k, at) is None);
        assert(r.cooling(n, k, at) ==> limit is Some);
    }
    assert forall|k: K| (#[trigger] r.wanted(n + 1, k)) is Some implies {
        &&& limit matches Some(end) && end <= r.cool_end(n + 1, k) <= u128::MAX
        &&& r.due(n + 1, k, r.cool_end(n + 1, k) as u128) == Some(
            Update::Add(r.wanted(n + 1, k)->0),
        )
    } by {
        assert(r.due(n, k, at) is None);
        assert(r.cooling(n, k, at));
        lemma_cool_end(s.history(), r, n, k);
    }
}

/// On an open channel Adds of a key are at least a cooldown apart, as long as no receive is asked
/// to ignore windows.
pub proof fn law_open_channel_spaces_adds<K, V>(s: Session<K, V>, i: int, j: int, k: K)
    requires
        s.valid(),
        0 <= i < j < s.steps.len(),
        forall|m: int|
            i < m <= j ==> !(#[trigger] s.steps[m]).1 && !(s.steps[m].2 is TryRecvNow),
        s.steps[i].2.got() matches Some((key, Update::Add(_))) && key == k,
        s.steps[j].2.got() matches Some((key, Update::Add(_))) && key == k,
    ensures
        s.steps[i].0 + s.states[0].cooldown <= s.steps[j].0,
{
    let h = s.history();
    law_session_is_history(s);
    law_call_is_operation(
        s.states[i],
        s.steps[i].0,
        s.steps[i].1,
        s.steps[i].2,
        s.states[i + 1],
    );
    law_call_is_operation(
        s.states[j],
        s.steps[j].0,
        s.steps[j].1,
        s.steps[j].2,
        s.states[j + 1],
    );
    assert forall|m: int| i < m <= j implies h.heeds_window(m, k) by {
        assert(!s.steps[m].1 && !(s.steps[m].2 is TryRecvNow));
    }
    law_adds_are_spaced(h, i, j, k);
}

/// A receiver that has drained a closed channel has everything: once the end is reported, its store
/// is the one to which all that was sent has been applied.
pub proof fn law_drained_receiver_has_everything<K, V>(
    s: Session<K, V>,
    r: Record<K, V>,
    store: Map<K, V>,
)
    requires
        s.told_by(r),
        store.dom() == r.start,
        s.steps.len() > 0,
        s.steps.last().2.ends(),
    ensures
        received(store, r.events) == intended(store, r.events),
{
    let h = s.history();
    let n = s.steps.len() - 1;
    let (at, closed, step) = s.steps[n];
    law_session_is_history(s);
    law_always_valid(h, n);
    law_fresh_channel(r.cooldown, store);
    law_receiver_converges(h, store);
    law_call_is_operation(s.states[n], at, closed, step, s.states[n + 1]);
    lemma_backlog(s.states[n], at);
    lemma_settled(s.states[n], at);
}

} // verus!
