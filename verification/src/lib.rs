//! Key-aware update channel with cooldown coalescing and minimal diff delivery.
//!
//! A channel keeps a conceptual key -> value store on a receiver in sync with a sender by
//! delivering only the changes that are needed for convergence. A change is an
//! [`Update`] of one key: `Add(value)` inserts or replaces, `Delete` removes.
//!
//! * Adds of a key that were sent before the first of them is received collapse into the last.
//! * After an Add has been delivered, its key cools down: further Adds are withheld, only the most
//!   recent is kept, and it is released when the cooldown window is over.
//! * Deletes are not delayed by a cooldown. A Delete cancels any Add of its key that waits.
//! * A Delete is delivered only for a key that the receiver has.
//! * Clearing queues one Delete for each key that the receiver has and cancels everything else.
//! * Updates are delivered in the order of the times at which they take effect: when they are sent,
//!   or, for a withheld Add, when its window is over. It then joins the queue at the end.
//! * A receive that ignores cooldowns delivers the front of the queue, or else takes the first
//!   withheld Add out of its window. It leaves the windows of all other keys open.
//!
//! [`state::State`] is the mathematical model: what a channel holds, and what each operation makes
//! of it. [`raw::Raw`] implements it, [`inner::Inner`] adds what happens when an end of the channel
//! is gone. The modules [`laws`], [`order`], [`history`], [`timing`] and [`apart`] prove what the
//! operations promise together, above all that the receiver's store converges to what was sent.
//! [`record`] and [`session`] say from outside what a channel does: what it holds, and what every
//! call gives back, follows from what was sent, cleared and delivered before, and when.
//!
//! Functions that end in `_at` take the time as an argument; their namesakes read the clock.

use vstd::prelude::*;

pub mod apart;
pub mod assoc;
pub mod clock;
pub mod history;
pub mod inner;
pub mod laws;
pub mod order;
pub mod ordered_map;
pub mod raw;
pub mod record;
pub mod session;
pub mod state;
pub mod timing;

verus! {

/// A change notification for a key.
#[derive(Clone, Copy, Debug, PartialEq, Eq, Hash)]
pub enum Update<V> {
    /// Insert / upsert value for the key.
    Add(V),
    /// Remove the key; future redundant Deletes are suppressed until an Add occurs.
    Delete,
}

impl<V> Update<V> {
    /// The value an `Add` carries; a `Delete` carries none.
    pub open spec fn carried(self) -> Option<V> {
        match self {
            Update::Add(v) => Some(v),
            Update::Delete => None,
        }
    }

    /// Takes the value out of an `Add`.
    pub fn into_option(self) -> (value: Option<V>)
        ensures
            value == self.carried(),
            match self {
                Update::Add(v) => value == Some(v),
                Update::Delete => value is None,
            },
    {
        match self {
            Update::Add(v) => Some(v),
            Update::Delete => None,
        }
    }
}

/// The update that could not be sent, because the channel is closed.
#[derive(Debug)]
pub struct SendError<V>(pub Update<V>);

/// Why nothing was received.
#[derive(Debug, PartialEq, Eq)]
pub enum TryRecvError {
    /// Nothing is left and the channel is closed.
    Disconnected,
    /// Nothing can be delivered yet.
    Empty,
}

impl TryRecvError {
    /// The reason on a channel that is closed (`dropped`) or open.
    pub fn from_dropped(dropped: bool) -> (error: Self)
        ensures
            error == if dropped {
                TryRecvError::Disconnected
            } else {
                TryRecvError::Empty
            },
    {
        if dropped {
            Self::Disconnected
        } else {
            Self::Empty
        }
    }
}

} // verus!
