//! Walking transfers between nearby stop points of a transit network.
//!
//! A [`model::Model`] holds stop points and the transfers between them.
//! [`engine::generate_transfers`] adds the transfers that are missing: one in
//! each direction between any two stop points that lie within a distance
//! threshold of each other, timed by the walking speed and a waiting time,
//! and, where asked for, one from each stop point to itself. Transfers that
//! the model holds already are never changed, and [`rules::TransferRules`]
//! can forbid a transfer or give its timing.
//!
//! Lengths are whole millimetres and times whole seconds throughout, so that
//! every result is exact.

pub mod candidates;
pub mod engine;
pub mod error;
pub mod geometry;
pub mod model;
mod occupancy;
pub mod params;
pub mod rules;
pub mod sweep;
pub mod synthesizer;
