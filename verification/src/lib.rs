//! One-way directory sync, source to target, with its rules verified.
//!
//! The library decides; it performs no I/O. It resolves what a walk of each
//! tree found into a [`snapshot::Snapshot`], compares two snapshots into a
//! [`plan::Plan`], and turns a plan into the file-system requests of a
//! [`session::Session`], one at a time, each answered by an event.

pub mod convergence;
pub mod effect_laws;
pub mod encoding;
pub mod ignore_laws;
pub mod laws;
pub mod listing;
pub mod message;
pub mod mirror;
pub mod model;
pub mod order;
pub mod path;
pub mod plan;
pub mod plan_laws;
pub mod reading_laws;
pub mod record_laws;
pub mod resolve;
pub mod rule_laws;
pub mod rules;
pub mod session;
pub mod snapshot;
pub mod step_laws;
pub mod task_laws;
pub mod time;
pub mod turn_laws;
pub mod walk_laws;
