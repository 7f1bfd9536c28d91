//! Sleep-until timespec engine: parses a human-typed time specification
//! (a clock time such as `22:19`, or a full timestamp such as
//! `2016-11-28T12:00:00Z`) into an absolute local instant, and computes
//! the non-negative interval to wait until that instant arrives.

pub mod instant;
pub mod parser;
pub mod wait;
