//! A single-user task tracker: an in-memory store of tasks with identifier
//! allocation, and a line-oriented text format to persist it.

pub mod task;
pub mod text;
pub mod codec;
pub mod store;
