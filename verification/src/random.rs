//! Random draws: the election timeouts that keep replicas from starting
//! elections in lockstep, and the dropping of messages to simulate an
//! unreliable network.
use rand::rngs::{OsRng, StdRng};
use rand::{Rng, SeedableRng};
use vstd::prelude::*;

verus! {

/// The standard pseudo-random generator of rand, carried through as an
/// opaque value.
#[verifier::external_type_specification]
#[verifier::external_body]
pub struct ExStdRng(StdRng);

/// `rand::SeedableRng::from_rng(rand::rngs::OsRng)` for `StdRng`: a generator
/// seeded from the operating system's random source. That source can fail,
/// and `from_rng` then returns an error, which comes back as `None`; nothing
/// is claimed of when it fails.
#[verifier::external_body]
fn seeded_rng() -> (r: Option<StdRng>) {
    match StdRng::from_rng(OsRng) {
        Ok(rng) => Some(rng),
        Err(_) => None,
    }
}

/// `rand::Rng::gen_range(low..=high)`: a value drawn from the inclusive range.
/// Claims only that the value lies in the range, not how it is distributed;
/// the range must not be empty, on which gen_range panics.
#[verifier::external_body]
fn draw_inclusive(rng: &mut StdRng, low: u64, high: u64) -> (r: u64)
    requires
        low <= high,
    ensures
        low <= r <= high,
{
    rng.gen_range(low..=high)
}

/// Draws a value between low and high, both included, from a freshly seeded
/// generator: `None` when the operating system's random source fails.
pub fn draw_in_range(low: u64, high: u64) -> (r: Option<u64>)
    requires
        low <= high,
    ensures
        r matches Some(v) ==> low <= v <= high,
{
    match seeded_rng() {
        Some(mut rng) => Some(draw_inclusive(&mut rng, low, high)),
        None => None,
    }
}

/// Draws an election timeout between min and max, both included. Election
/// duration is randomized to avoid perpetual election cycles. `None` when no
/// random value could be drawn.
pub fn election_timeout(min: u64, max: u64) -> (t: Option<u64>)
    requires
        min <= max,
    ensures
        t matches Some(v) ==> min <= v <= max,
{
    draw_in_range(min, max)
}

/// Whether a message survives a drawn value val in 0..=99 when messages are
/// dropped with a probability of drop_percent percent: it does when the
/// value is at least drop_percent.
pub fn survives_drop(val: u64, drop_percent: u64) -> (b: bool)
    ensures
        b == (val >= drop_percent),
{
    val >= drop_percent
}

/// Decides whether to deliver a message that is dropped with a probability
/// of drop_percent percent, drawing a value in 0..=99: a message is always
/// delivered when drop_percent is 0 and never when it is 100 or more.
/// `None` when no random value could be drawn.
pub fn should_deliver(drop_percent: u64) -> (b: Option<bool>)
    ensures
        b matches Some(d) ==> (drop_percent == 0 ==> d) && (drop_percent >= 100 ==> !d),
{
    match draw_in_range(0, 99) {
        Some(val) => Some(survives_drop(val, drop_percent)),
        None => None,
    }
}

} // verus!
