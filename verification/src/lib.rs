//! A verified model of cooperative task composition: deferred, single-shot
//! units of work that stay inert until an explicit driver advances them, with
//! sequential chaining (one task's result feeds the construction of the next)
//! and concurrent joining (two tasks advanced together with no barrier between
//! them). Each task emits a sequence of markers into a driver-owned log as its
//! body runs, so the ordering guarantees of the combinators are stated and
//! proved over that log.

pub mod compose;
pub mod songs;
pub mod task;
