//! A cache of filesystem observations that decides whether what a traced
//! process depended on has changed since the trace was recorded.
pub mod classify;
pub mod fingerprint;
pub mod order;
pub mod trace;
