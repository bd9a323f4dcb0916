//! A single-user issue tracker: epics that own ordered lists of stories,
//! each entity with a mutable status, plus a page-navigation state machine
//! that dispatches user actions into store mutations and stack transitions.
//!
//! The data store enforces referential integrity: every story id listed by
//! an epic has a story entry, every story belongs to exactly one epic, and
//! ids are drawn from one monotonically increasing counter shared by both
//! kinds of entity.

pub mod models;
pub mod navigator;
