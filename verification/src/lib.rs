//! Enumeration of resource-feasible activity schedules.
//!
//! A [`scheduler::Slot`] is a named unit of scheduling capacity, an
//! [`scheduler::Activity`] is a named task that consumes a set of slots, and a
//! [`scheduler::Schedule`] is an ordered pick of activities.  The library
//! enumerates every distinct, feasible way to pick and order a fixed number of
//! activities from a pool: all ordered arrangements are generated, each is
//! checked by simulating sequential slot consumption against the declared slot
//! pool, and the survivors are reduced to one representative per unordered
//! equivalence class.
//!
//! The mathematical model behind the contracts lives in [`model`]; global
//! properties of the enumeration (determinism, a single representative per
//! unordered pick) are proved in [`laws`].

pub mod laws;
pub mod model;
pub mod scheduler;
pub mod text;
