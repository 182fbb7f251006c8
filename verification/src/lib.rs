//! Authoritative movement replication for a small client/server demo.
//!
//! A server owns one player record per connected client, consumes movement
//! intents tagged with their sender's connection id, and integrates positions;
//! clients capture keyboard state into intents and mirror the replicated
//! records into visual transforms. Positions are held in thousandths of a
//! world unit and tick durations in milliseconds, so that integrating a unit
//! intent for `d` milliseconds at `SPEED` units per second moves the record by
//! exactly `SPEED * d` thousandths.

pub mod client;
pub mod components;
pub mod input;
pub mod server;

use vstd::prelude::*;

verus! {

/// Movement speed of every player, in world units per second.
pub const SPEED: i64 = 25;

} // verus!
