//! Tick control: the administrative command forms that drive the server's
//! tick progression and the parsers for its chat responses.

use vstd::prelude::*;
use crate::strutil::{
    contains_seq, contains_str, dec_ceil_of, dec_str_nat, digits_val, find_str, find_sub_at,
    is_digit, keep_digits, keep_digits_spec, lemma_find_sub_at, matches_at, parse_decimal_ceil,
    parse_u32, substring_copy, trim_str, trim_spec, u64_to_string,
};

verus! {

/// Delay to allow one command to settle, in milliseconds.
pub const COMMAND_DELAY_MS: u64 = 100;

/// Smallest delay after a tick advancement, in milliseconds.
pub const MIN_RETRY_DELAY_MS: u64 = 200;

/// The command that pauses automatic tick advancement.
pub fn freeze_command() -> (r: String)
    ensures
        r@ == "tick freeze"@,
{
    let mut s = String::new();
    s.append("tick freeze");
    s
}

/// The command that resumes automatic tick advancement.
pub fn unfreeze_command() -> (r: String)
    ensures
        r@ == "tick unfreeze"@,
{
    let mut s = String::new();
    s.append("tick unfreeze");
    s
}

/// The command that advances exactly one tick.
pub fn step_command() -> (r: String)
    ensures
        r@ == "tick step"@,
{
    let mut s = String::new();
    s.append("tick step");
    s
}

/// The command that queries the game time.
pub fn gametime_query_command() -> (r: String)
    ensures
        r@ == "time query gametime"@,
{
    let mut s = String::new();
    s.append("time query gametime");
    s
}

/// The server runs one tick more than asked: to advance by `n` ticks the
/// command must name `n - 1`.
pub fn sprint_command(n: u32) -> (r: String)
    requires
        n >= 2,
    ensures
        r@ == "tick sprint "@ + dec_str_nat(n - 1),
{
    let mut s = String::new();
    s.append("tick sprint ");
    let d = u64_to_string((n - 1) as u64);
    s.append(d.as_str());
    s
}

/// A single step of the server has completed exactly when the game time
/// it reports afterwards exceeds the game time before.
pub fn step_advanced(before: u32, after: u32) -> (r: bool)
    ensures
        r == (after > before),
{
    after > before
}

/// The game time carried by a chat message: the digits of the text
/// between the first `The time is ` and any later repeat of it, read as
/// a number.  `None` when the marker is absent, no digits follow, or the
/// number overflows.
pub open spec fn gametime_of(m: Seq<char>) -> Option<u32> {
    let marker = "The time is "@;
    if !contains_seq(m, marker) {
        None
    } else {
        let start = find_sub_at(m, marker) + marker.len();
        let rest = m.subrange(start, m.len() as int);
        let piece: Seq<char> = if contains_seq(rest, marker) {
            rest.subrange(0, find_sub_at(rest, marker))
        } else {
            rest
        };
        let ds = keep_digits_spec(piece);
        if ds.len() > 0 && digits_val(ds) <= u32::MAX {
            Some(digits_val(ds) as u32)
        } else {
            None
        }
    }
}

/// Reads the game time out of one chat message.
pub fn extract_gametime(message: &str) -> (r: Option<u32>)
    ensures
        match r {
            Some(t) => gametime_of(message@) == Some(t),
            None => gametime_of(message@) is None,
        },
{
    let ghost marker = "The time is "@;
    let found = find_str(message, "The time is ");
    proof {
        lemma_find_sub_at(message@, marker);
    }
    match found {
        None => None,
        Some(i) => {
            assert(i as int == find_sub_at(message@, marker));
            let ml = message.unicode_len();
            let mlen = "The time is ".unicode_len();
            assert(mlen == marker.len());
            let rest = substring_copy(message, i + mlen, ml);
            assert(rest@ == message@.subrange(i as int + marker.len(), message@.len() as int));
            let found2 = find_str(rest.as_str(), "The time is ");
            proof {
                lemma_find_sub_at(rest@, marker);
            }
            let piece: String = match found2 {
                Some(j) => {
                    assert(j as int == find_sub_at(rest@, marker));
                    substring_copy(rest.as_str(), 0, j)
                },
                None => rest,
            };
            let ds = keep_digits(piece.as_str());
            let v = parse_u32(ds.as_str());
            proof {
                crate::strutil::lemma_keep_digits_all(piece@);
            }
            match v {
                Some(t) => Some(t),
                None => None,
            }
        },
    }
}

/// The per-tick duration reported by a sprint completion message: the
/// text between `or ` and ` ms per tick`, read as a decimal and rounded
/// up.  `None` when the message is not a completion, the markers are
/// missing, or the number does not parse.
pub open spec fn sprint_ms_of(m: Seq<char>) -> Option<u64> {
    if !contains_seq(m, "Sprint completed"@) {
        None
    } else if !contains_seq(m, "or "@) {
        None
    } else {
        let start = find_sub_at(m, "or "@) + 3;
        let rest = m.subrange(start, m.len() as int);
        if !contains_seq(rest, " ms per tick"@) {
            None
        } else {
            let num = trim_spec(rest.subrange(0, find_sub_at(rest, " ms per tick"@)));
            match dec_ceil_of(num) {
                Some(v) => if 0 <= v <= u64::MAX {
                    Some(v as u64)
                } else {
                    None
                },
                None => None,
            }
        }
    }
}

/// Reads the rounded-up milliseconds per tick out of one sprint
/// completion message.
pub fn parse_sprint_ms(message: &str) -> (r: Option<u64>)
    ensures
        match r {
            Some(v) => sprint_ms_of(message@) == Some(v),
            None => sprint_ms_of(message@) is None,
        },
{
    if !contains_str(message, "Sprint completed") {
        return None;
    }
    let found = find_str(message, "or ");
    proof {
        lemma_find_sub_at(message@, "or "@);
    }
    match found {
        None => None,
        Some(i) => {
            assert(i as int == find_sub_at(message@, "or "@));
            let ml = message.unicode_len();
            let plen = "or ".unicode_len();
            assert(plen == "or "@.len());
            proof {
                reveal_strlit("or ");
            }
            let rest = substring_copy(message, i + plen, ml);
            let found2 = find_str(rest.as_str(), " ms per tick");
            proof {
                lemma_find_sub_at(rest@, " ms per tick"@);
            }
            match found2 {
                None => None,
                Some(j) => {
                    assert(j as int == find_sub_at(rest@, " ms per tick"@));
                    let numstr = trim_str(substring_copy(rest.as_str(), 0, j).as_str());
                    parse_decimal_ceil(numstr.as_str())
                },
            }
        },
    }
}

/// Total elapsed time of a sprint: the rounded per-tick time scaled by
/// the number of ticks.
pub fn sprint_elapsed_ms(ms_per_tick: u64, ticks: u32) -> (r: u64)
    requires
        ms_per_tick * ticks <= u64::MAX,
    ensures
        r == ms_per_tick * ticks,
{
    ms_per_tick * (ticks as u64)
}

/// The retry delay after an advancement: the reported elapsed time, but
/// never below the floor.
pub fn retry_delay_ms(elapsed: u64) -> (r: u64)
    ensures
        r == (if elapsed > MIN_RETRY_DELAY_MS {
            elapsed
        } else {
            MIN_RETRY_DELAY_MS
        }),
{
    if elapsed > MIN_RETRY_DELAY_MS {
        elapsed
    } else {
        MIN_RETRY_DELAY_MS
    }
}

} // verus!
