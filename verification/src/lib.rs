//! A single-producer broadcast relay with its supporting argument and
//! configuration types.
//!
//! The relay accepts an open-ended number of streaming client connections,
//! ingests discrete datagrams from a single source, validates each as UTF-8
//! text, and fans every valid message out to all currently connected clients,
//! pruning clients whose connection has failed.

use vstd::prelude::*;

pub mod args;
pub mod config;
pub mod datetime;
pub mod download;
pub mod handoff;
pub mod relay;
pub mod text;

verus! {

/// Adds two numbers; the caller keeps the sum within `u64`.
pub fn add(left: u64, right: u64) -> (r: u64)
    requires
        left + right <= u64::MAX,
    ensures
        r == left + right,
{
    left + right
}

} // verus!
