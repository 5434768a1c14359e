//! The lazy core of a small tensor library: a registry of data types, the
//! taxonomy of operations, a graph of deferred buffers with checked shape
//! rules, and the scheduler that plans their realization.

pub mod config;
pub mod dtype;
pub mod lazy;
pub mod ops;
pub mod schedule;
pub mod shape;
pub mod view;
