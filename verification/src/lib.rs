//! A verified task tracker library.
//!
//! Tasks are small units of work with an identifier, a free-form
//! description, a lifecycle status and two timestamps.  The store keeps
//! them sorted by ascending identifier, enforces the identifier and
//! status-transition rules, answers filtered queries, and turns the
//! collection into (and back from) its textual on-disk form.

pub mod codec;
pub mod models;
pub mod task_manager;
