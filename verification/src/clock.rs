//! Time as the channel sees it: nanoseconds since the channel was made.

use tokio::time::Instant;
use vstd::prelude::*;

verus! {

/// The longest span of time that `std::time::Duration` can express, in nanoseconds.
pub const MAX_NANOS: u128 = 18446744073709551615999999999;

/// The instant type of `tokio`, opaque to proofs.
#[verifier::external_type_specification]
#[verifier::external_body]
pub struct ExInstant(Instant);

/// Calls `Instant::now`. Which instant it gives depends on the machine's clock, so nothing is
/// claimed of it.
#[verifier::external_body]
fn instant_now() -> Instant {
    Instant::now()
}

/// Calls `Instant::elapsed`: the whole seconds since `start` and the nanoseconds of the fraction,
/// which are less than a second. How many there are depends on the machine's clock.
#[verifier::external_body]
fn instant_elapsed(start: &Instant) -> (span: (u64, u32))
    ensures
        span.1 < 1_000_000_000,
{
    let span = start.elapsed();
    (span.as_secs(), span.subsec_nanos())
}

/// Asks `clock` about `start`.
fn ask<F: Fn(&Instant) -> (u64, u32)>(clock: F, start: &Instant) -> (span: (u64, u32))
    requires
        call_requires(clock, (start,)),
    ensures
        call_ensures(clock, (start,), span),
{
    clock(start)
}

/// A clock that starts at zero and does not run backward.
pub struct Clock {
    origin: Instant,
    shown: u128,
}

impl Clock {
    #[verifier::type_invariant]
    spec fn in_range(self) -> bool {
        self.shown <= MAX_NANOS
    }

    /// The instant at which the clock started.
    pub closed spec fn started(&self) -> Instant {
        self.origin
    }

    /// What the clock showed last, in nanoseconds since it started.
    pub closed spec fn shown(&self) -> u128 {
        self.shown
    }

    /// `span` is what the machine's clock gave when it was asked how long ago this clock started.
    pub closed spec fn reads(&self, span: (u64, u32)) -> bool {
        call_ensures(instant_elapsed, (&self.origin,), span)
    }

    /// `later` is this clock after the machine's clock was read: it shows that reading, or still
    /// what it showed before, whichever is later.
    pub open spec fn ticks_to(self, later: Clock) -> bool {
        &&& self.runs_to(later)
        &&& exists|span: (u64, u32)| #[trigger]
            self.reads(span) && later.shown() == if self.shown() < span.0 * 1_000_000_000
                + span.1 {
                span.0 * 1_000_000_000 + span.1
            } else {
                self.shown() as int
            }
    }

    /// `later` is this clock at a later reading, or at the same.
    pub open spec fn runs_to(self, later: Clock) -> bool {
        &&& later.started() == self.started()
        &&& self.shown() <= later.shown() <= MAX_NANOS
    }

    /// Starts a clock.
    pub fn start() -> (clock: Self)
        ensures
            clock.shown() == 0,
    {
        Clock { origin: instant_now(), shown: 0 }
    }

    /// The instant at which the clock started.
    pub fn origin(&self) -> (origin: Instant)
        ensures
            origin == self.started(),
    {
        self.origin
    }

    /// Moves the clock on to `secs` seconds and `fraction` nanoseconds after its start, and tells
    /// what it shows. A clock that is already past that time stays where it is.
    pub fn advance(&mut self, secs: u64, fraction: u32) -> (nanos: u128)
        requires
            fraction < 1_000_000_000,
        ensures
            old(self).runs_to(*final(self)),
            final(self).started() == old(self).started(),
            old(self).shown() <= nanos <= MAX_NANOS,
            nanos == final(self).shown(),
            nanos == if old(self).shown() < secs * 1_000_000_000 + fraction {
                secs * 1_000_000_000 + fraction
            } else {
                old(self).shown() as int
            },
    {
        proof {
            use_type_invariant(&*self);
        }
        let nanos = nanos_of(secs, fraction);
        if self.shown < nanos {
            self.shown = nanos;
        }
        self.shown
    }

    /// Nanoseconds since the clock was started, never fewer than it showed before. How far it has
    /// come since then depends on the machine's clock.
    pub fn now(&mut self) -> (nanos: u128)
        ensures
            old(self).ticks_to(*final(self)),
            final(self).started() == old(self).started(),
            old(self).shown() <= nanos <= MAX_NANOS,
            nanos == final(self).shown(),
    {
        let (secs, fraction) = ask(instant_elapsed, &self.origin);
        assert(self.reads((secs, fraction)));
        self.advance(secs, fraction)
    }
}

/// A span of time in nanoseconds.
pub fn nanos_of(secs: u64, fraction: u32) -> (nanos: u128)
    requires
        fraction < 1_000_000_000,
    ensures
        nanos == secs * 1_000_000_000 + fraction,
        nanos <= MAX_NANOS,
{
    secs as u128 * 1_000_000_000 + fraction as u128
}

} // verus!
