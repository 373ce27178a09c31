//! A fixed-size worker pool, described as a verified state machine.
//!
//! The pool owns the job queue and the bookkeeping of every worker slot; the
//! threads that run the jobs ask it what to do next and report back when a job
//! has returned.
pub mod pool;
