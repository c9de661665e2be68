# keywatch

A channel that keeps a key -> value store on a receiver in sync with a sender. It delivers only the
changes that are needed: Adds of a key collapse into the last one, an Add that was delivered starts
a cooldown during which further Adds of the key are withheld, and Deletes are neither delayed nor
repeated.

## Layout

- `src/state.rs`: the model. What a channel holds, and what each operation makes of it.
- `src/raw.rs`: the bookkeeping that implements the model.
- `src/inner.rs`: what the two ends of a channel share, and what happens once one of them is gone.
- `src/laws.rs`, `src/order.rs`, `src/history.rs`: proofs of what the operations promise together,
  for one step, for the order of delivery, and for any sequence of operations.
- `src/timing.rs`: proof that updates come out in the order of the times at which they take effect.
- `src/apart.rs`: proof that what is done with one key leaves the others alone.
- `src/assoc.rs`: ordered maps as sequences of entries.
- `src/ordered_map.rs`: the ordered map of `list_ordered_hashmap`.
- `src/clock.rs`: the clock of `tokio`, in nanoseconds.
- `app/`: the two ends themselves, with their lock and their waiting.

## What is trusted

The contracts of the functions marked `external_body` in `src/ordered_map.rs` and `src/clock.rs` are
taken from the crates they call. Everything else in `src/` is proved.

Keys have to satisfy `raw::key_type`: `==` and `clone` mean identity, and hashing is deterministic.
The maps number their entries in 32 bits; `has_room`, `fits` and `can_clear` tell whether an
operation stays within that.
