//! A discrete-event simulation engine for queueing networks.
//!
//! Entities (arrival sources, FIFO servers, load balancers and sinks) live
//! in an arena, [`objects::World`], and exchange instantaneous events along a
//! virtual clock driven by [`objects::Scheduler`]. An entity is checked out
//! of its slot while it runs, so a forwarding cycle meets a placeholder and
//! fails instead of aliasing live state. [`topology`] states what holds over
//! a run; [`reporter`] holds the decisions of the metrics pipeline.

pub mod utils;
pub mod traits;
pub mod systems;
pub mod reporter;
pub mod objects;
pub mod topology;
