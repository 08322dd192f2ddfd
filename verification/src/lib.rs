//! A fixed-size worker-thread pool with a verified lifecycle model.
//!
//! The pool accepts one-shot jobs from producers and hands each to exactly
//! one worker. This crate verifies the pool's dispatch and shutdown
//! protocol: jobs are identified by the order in which they are submitted,
//! and the model proves that every submitted job is delivered to exactly
//! one worker and executed exactly once, that teardown drains the queue and
//! joins every worker, and that a single worker serializes jobs in
//! submission order. The HTTP front that feeds connections to the pool
//! keeps its parsing and response construction here as well.

pub mod http;
pub mod pool;
pub mod queue;
