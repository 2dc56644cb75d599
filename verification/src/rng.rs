//! Trusted access to the process-wide random number generator.
//!
//! Everything random the game needs passes through the few wrappers here:
//! shuffling the candidate directions of one carving step, drawing a colour
//! component, and drawing a fresh player identifier. The rest of the crate
//! is verified for every value these calls can hand back.

use vstd::prelude::*;

use rand::Rng;
use rand::prelude::SliceRandom;

use crate::direction::Direction;

verus! {

/// Relies on rand's `SliceRandom::shuffle` (with `rand::thread_rng` as the
/// generator): a Fisher-Yates shuffle permutes the slice in place, so the
/// vector afterwards holds exactly the elements it held before.
#[verifier::external_body]
pub fn shuffle_directions(v: &mut Vec<Direction>)
    ensures
        final(v)@.to_multiset() == old(v)@.to_multiset(),
        final(v)@.len() == old(v)@.len(),
{
    v.shuffle(&mut rand::thread_rng());
}

/// Relies on rand's `Rng::gen_range` (with `rand::thread_rng` as the
/// generator): a sample from the half-open range `0..255` is below 255.
#[verifier::external_body]
pub fn random_color_component() -> (r: u8)
    ensures
        r < 255,
{
    rand::thread_rng().gen_range(0..255u8)
}

/// Relies on uuid's `Uuid::new_v4` and `Uuid::as_u128`: a freshly drawn
/// random identifier, handed out as its 128-bit value. Nothing is promised
/// of the draw.
#[verifier::external_body]
pub fn random_player_id() -> u128 {
    uuid::Uuid::new_v4().as_u128()
}

} // verus!
