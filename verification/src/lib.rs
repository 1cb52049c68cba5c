//! A two-tier cache of compiled WebAssembly programs.
//!
//! Entries pinned by the caller live in an unbounded long-term tier; all
//! others live in a bounded tier that discards the least recently used
//! entries once the sum of their kilobyte estimates would exceed its budget.

#![allow(unused_imports)]

pub mod artifact;
pub mod bounded;
pub mod cache;
pub mod entries;
pub mod key;
pub mod laws;
pub mod long_term;
pub mod state;
