//! A single-day work scheduler: packs a pool of flexible work tasks into the
//! free time left between fixed mandatory events.
//!
//! The day is bounded by a start and an end time and carved into fixed-size
//! timeslots. Non-divisible tasks expand into atomic units of one whole
//! timeslot each; divisible tasks expand into remnants that may be split
//! across non-contiguous gaps. `config::Config::build_schedule` walks the
//! mandatory events in start order and fills each gap greedily, atomic units
//! first, longest remnant next, and returns the resulting ordered sequence
//! of events. Its result is pinned exactly to the mathematical model in
//! `model`; the guarantees of the algorithm (no overlap, ordering,
//! containment, conservation, splitting, idempotence) are proved in `laws`.
//!
//! Reading a day's configuration from disk and rendering the schedule into a
//! calendar interchange format are left to the surrounding application.
use vstd::prelude::*;

pub mod config;
pub mod laws;
pub mod model;
pub mod time;

verus! {

} // verus!
