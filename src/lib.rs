//! An in-memory store of analytics events: create-only, with lookup by id,
//! full listing and aggregate statistics.

pub mod event;
pub mod outside;
pub mod stats;
pub mod store;
