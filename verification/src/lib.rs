//! Tick-accurate test harness core for a block-world game server.
//!
//! The crate verifies the pure heart of the harness: merging per-test
//! timelines into one deterministic schedule, canonicalising server-side
//! block strings, building the administrative command strings, parsing the
//! server's chat responses, and the bookkeeping state machine that drives a
//! run.  All network I/O stays outside the crate; callers feed plain values
//! in and carry the returned commands and decisions out.

use vstd::prelude::*;

pub mod actions;
pub mod block;
pub mod bounding_box;
pub mod gate;
pub mod recorder;
pub mod run;
pub mod strutil;
pub mod tick;
pub mod timeline;

verus! {

/// Formats a number with a comma between every group of three digits.
pub fn format_number(n: u32) -> (r: String)
    ensures
        r@ == strutil::group_digits(strutil::dec_str_nat(n as int)),
{
    let s = strutil::u64_to_string(n as u64);
    strutil::group_with_commas(s.as_str())
}

} // verus!
