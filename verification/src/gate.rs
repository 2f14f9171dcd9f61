//! Breakpoint gate decisions and the interactive chat command parser.
//! At a breakpoint the run waits for a decision — advance a single tick,
//! or continue — which arrives over chat or over standard input.

use vstd::prelude::*;
use crate::strutil::{
    ascii_lowercase, contains_seq, contains_str, ends_with, ends_with_str, eq_str, find_char,
    find_char_at, lower_chars, substring_copy, tokens, tokens_spec, trim_spec, trim_str,
};

verus! {

/// The decision carried by one chat message: `Some(false)` to advance a
/// single tick, `Some(true)` to continue, `None` when the message decides
/// nothing.  A message holding the advisory announcement is skipped.
pub open spec fn chat_gate_decision(m: Seq<char>) -> Option<bool> {
    if contains_seq(m, "Waiting for step/continue"@) {
        None
    } else {
        let t = trim_spec(lower_chars(m));
        if ends_with(t, " s"@) || t == "s"@ || ends_with(t, " step"@) || t == "step"@ {
            Some(false)
        } else if ends_with(t, " c"@) || t == "c"@ || ends_with(t, " continue"@) || t
            == "continue"@ {
            Some(true)
        } else {
            None
        }
    }
}

/// Classifies one chat message at a breakpoint.
pub fn classify_chat_decision(message: &str) -> (r: Option<bool>)
    ensures
        r == chat_gate_decision(message@),
{
    if contains_str(message, "Waiting for step/continue") {
        return None;
    }
    let lowered = ascii_lowercase(message);
    let t = trim_str(lowered.as_str());
    if ends_with_str(t.as_str(), " s") || eq_str(t.as_str(), "s")
        || ends_with_str(t.as_str(), " step") || eq_str(t.as_str(), "step") {
        Some(false)
    } else if ends_with_str(t.as_str(), " c") || eq_str(t.as_str(), "c")
        || ends_with_str(t.as_str(), " continue") || eq_str(t.as_str(), "continue") {
        Some(true)
    } else {
        None
    }
}

/// The decision carried by one line of standard input: step on `s` or
/// `step`, continue on anything else.
pub open spec fn stdin_gate_decision(line: Seq<char>) -> bool {
    let t = trim_spec(lower_chars(line));
    !(t == "s"@ || t == "step"@)
}

/// Classifies one line of standard input at a breakpoint: true means
/// continue, false means step one tick.
pub fn classify_stdin_decision(line: &str) -> (r: bool)
    ensures
        r == stdin_gate_decision(line@),
{
    let lowered = ascii_lowercase(line);
    let t = trim_str(lowered.as_str());
    !(eq_str(t.as_str(), "s") || eq_str(t.as_str(), "step"))
}

/// The interactive command carried by a chat message: from the first
/// exclamation mark on, the first whitespace token lower-cased as the
/// command and the remaining tokens as its arguments.  Messages from the
/// harness's own account or the server are ignored.
pub open spec fn parse_command_spec(m: Seq<char>) -> Option<(Seq<char>, Seq<Seq<char>>)> {
    if contains_seq(m, "flintmc_testbot"@) || contains_seq(m, "[Server]"@) {
        None
    } else if find_char_at(m, '!') == m.len() {
        None
    } else {
        let parts = tokens_spec(m.subrange(find_char_at(m, '!'), m.len() as int));
        if parts.len() == 0 {
            None
        } else {
            Some((lower_chars(parts[0]), parts.skip(1)))
        }
    }
}

/// Parses an interactive command out of one chat message.
pub fn parse_command(message: &str) -> (r: Option<(String, Vec<String>)>)
    ensures
        match r {
            Some(p) => parse_command_spec(message@) == Some((p.0@, p.1.deep_view())),
            None => parse_command_spec(message@) is None,
        },
{
    if contains_str(message, "flintmc_testbot") || contains_str(message, "[Server]") {
        return None;
    }
    let n = message.unicode_len();
    let f = find_char(message, '!');
    proof {
        crate::strutil::lemma_find_char_at(message@, '!');
    }
    if f >= n {
        return None;
    }
    let cmd_str = substring_copy(message, f, n);
    let mut parts = tokens(cmd_str.as_str());
    if parts.len() == 0 {
        return None;
    }
    let ghost parts_dv = parts.deep_view();
    let first = parts.remove(0);
    let command = ascii_lowercase(first.as_str());
    proof {
        assert(first@ == parts_dv[0]);
        assert(parts.deep_view() =~~= parts_dv.skip(1));
    }
    Some((command, parts))
}

} // verus!
