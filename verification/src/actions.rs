//! Dispatching one timeline entry: world positions under a per-test
//! offset, the administrative command strings an action turns into, and
//! the evaluation of polled assertion reads.

use vstd::prelude::*;
use crate::block::{
    Block, block_cmd_spec, block_matches, block_matches_spec, extract_block_id, extract_spec,
    prop_patterns_match, property_matches, props_view,
};
use crate::strutil::{
    contains_seq, contains_str, dec_str_i64, find_char, find_char_at, find_sub_at,
    lemma_find_char_at, lemma_find_sub_at, lower_chars, min2, push_char, substring_copy,
    trim_char_spec, trim_matches_char, trim_spec, trim_str,
};
use crate::timeline::{ActionType, BlockCheck, TimelineEntry};

verus! {

/// How many times an assertion read is retried.
pub const BLOCK_POLL_ATTEMPTS: u32 = 10;

/// Delay between two assertion reads, in milliseconds.
pub const BLOCK_POLL_DELAY_MS: u64 = 50;

/// Delay between the placements of one `PlaceEach`, in milliseconds.
pub const PLACE_EACH_DELAY_MS: u64 = 10;

/// Details about a failed assertion.
pub struct FailureDetail {
    pub tick: u32,
    pub expected: String,
    pub actual: String,
    pub position: [i32; 3],
}

/// Outcome of executing a single action.
pub enum ActionOutcome {
    /// Non-assertion action completed (place, fill, remove).
    Action,
    /// Assertion passed.
    AssertPassed,
    /// Assertion failed with details.
    AssertFailed(FailureDetail),
}

/// Component-wise sum of a position and an offset.
pub open spec fn off_pos(p: Seq<i32>, o: Seq<i32>) -> Seq<i32> {
    Seq::new(3, |k: int| (p[k] + o[k]) as i32)
}

/// The sums stay inside the coordinate range.
pub open spec fn off_ok(p: Seq<i32>, o: Seq<i32>) -> bool {
    forall|k: int| 0 <= k < 3 ==> i32::MIN <= #[trigger] p[k] + o[k] <= i32::MAX
}

/// Applies a per-test offset to a local position.
pub fn apply_offset(pos: [i32; 3], offset: [i32; 3]) -> (r: [i32; 3])
    requires
        off_ok(pos@, offset@),
    ensures
        r@ == off_pos(pos@, offset@),
{
    assert(pos@[0] == pos[0] && pos@[1] == pos[1] && pos@[2] == pos[2]);
    let r = [pos[0] + offset[0], pos[1] + offset[1], pos[2] + offset[2]];
    assert(r@ =~= off_pos(pos@, offset@));
    r
}

/// Whether the offset keeps a position inside the coordinate range.
pub fn offset_fits(pos: [i32; 3], offset: [i32; 3]) -> (r: bool)
    ensures
        r == off_ok(pos@, offset@),
{
    let ok = ((pos[0] as i64) + (offset[0] as i64) >= i32::MIN as i64)
        && ((pos[0] as i64) + (offset[0] as i64) <= i32::MAX as i64)
        && ((pos[1] as i64) + (offset[1] as i64) >= i32::MIN as i64)
        && ((pos[1] as i64) + (offset[1] as i64) <= i32::MAX as i64)
        && ((pos[2] as i64) + (offset[2] as i64) >= i32::MIN as i64)
        && ((pos[2] as i64) + (offset[2] as i64) <= i32::MAX as i64);
    assert(pos@[0] == pos[0] && pos@[1] == pos[1] && pos@[2] == pos[2]);
    assert(offset@[0] == offset[0] && offset@[1] == offset[1] && offset@[2] == offset[2]);
    assert(ok == off_ok(pos@, offset@)) by {
        if ok {
            assert forall|k: int| 0 <= k < 3 implies i32::MIN <= #[trigger] pos@[k] + offset@[k]
                <= i32::MAX by {
                assert(k == 0 || k == 1 || k == 2);
            }
        }
    }
    ok
}

/// The three coordinates of a position, space-separated, in decimal.
pub open spec fn coords_str(p: Seq<i32>) -> Seq<char> {
    dec_str_i64(p[0] as int) + seq![' '] + dec_str_i64(p[1] as int) + seq![' '] + dec_str_i64(
        p[2] as int)
}

/// The `setblock` command for one position and block form.
pub open spec fn setblock_cmd(p: Seq<i32>, bs: Seq<char>) -> Seq<char> {
    "setblock "@ + coords_str(p) + seq![' '] + bs
}

/// The `fill` command for one region and block form.
pub open spec fn fill_cmd(a: Seq<i32>, b: Seq<i32>, bs: Seq<char>) -> Seq<char> {
    "fill "@ + coords_str(a) + seq![' '] + coords_str(b) + seq![' '] + bs
}

/// Appends the decimal coordinates of a position.
fn push_coords(s: &mut String, p: [i32; 3])
    ensures
        final(s)@ == old(s)@ + coords_str(p@),
{
    assert(p@[0] == p[0] && p@[1] == p[1] && p@[2] == p[2]);
    let d0 = crate::strutil::i64_to_string(p[0] as i64);
    s.append(d0.as_str());
    push_char(s, ' ');
    let d1 = crate::strutil::i64_to_string(p[1] as i64);
    s.append(d1.as_str());
    push_char(s, ' ');
    let d2 = crate::strutil::i64_to_string(p[2] as i64);
    s.append(d2.as_str());
    assert(s@ =~= old(s)@ + coords_str(p@));
}

/// Builds the `setblock` command for one world position.
pub fn setblock_command(world_pos: [i32; 3], block_spec: &str) -> (r: String)
    ensures
        r@ == setblock_cmd(world_pos@, block_spec@),
{
    let mut s = String::new();
    s.append("setblock ");
    push_coords(&mut s, world_pos);
    push_char(&mut s, ' ');
    s.append(block_spec);
    assert(s@ =~= setblock_cmd(world_pos@, block_spec@));
    s
}

/// Builds the `fill` command for one world region.
pub fn fill_command(world_min: [i32; 3], world_max: [i32; 3], block_spec: &str) -> (r: String)
    ensures
        r@ == fill_cmd(world_min@, world_max@, block_spec@),
{
    let mut s = String::new();
    s.append("fill ");
    push_coords(&mut s, world_min);
    push_char(&mut s, ' ');
    push_coords(&mut s, world_max);
    push_char(&mut s, ' ');
    s.append(block_spec);
    assert(s@ =~= fill_cmd(world_min@, world_max@, block_spec@));
    s
}

/// The command that clears a test's world region.
pub fn cleanup_command(region: [[i32; 3]; 2], offset: [i32; 3]) -> (r: String)
    requires
        off_ok(region@[0]@, offset@),
        off_ok(region@[1]@, offset@),
    ensures
        r@ == fill_cmd(off_pos(region@[0]@, offset@), off_pos(region@[1]@, offset@), "air"@),
{
    assert(region@[0] == region[0] && region@[1] == region[1]);
    let world_min = apply_offset(region[0], offset);
    let world_max = apply_offset(region[1], offset);
    fill_command(world_min, world_max, "air")
}

/// Every position a timeline entry touches stays inside the coordinate
/// range under the given offset.
pub open spec fn entry_offsets_ok(a: ActionType, offset: Seq<i32>) -> bool {
    match a {
        ActionType::Place { pos, block } => off_ok(pos@, offset),
        ActionType::PlaceEach { blocks } => forall|k: int| 0 <= k < blocks@.len() ==> off_ok(
            (#[trigger] blocks@[k]).pos@, offset),
        ActionType::Fill { region, with } => off_ok(region@[0]@, offset) && off_ok(
            region@[1]@, offset),
        ActionType::Remove { pos } => off_ok(pos@, offset),
        ActionType::Assert { checks } => true,
    }
}

/// The command strings one action turns into, in dispatch order; an
/// assertion issues none.
pub open spec fn action_commands_spec(a: ActionType, offset: Seq<i32>) -> Seq<Seq<char>> {
    match a {
        ActionType::Place { pos, block } => seq![
            setblock_cmd(off_pos(pos@, offset), block_cmd_spec(
                block.id@, props_view(block.properties@)))
        ],
        ActionType::PlaceEach { blocks } => Seq::new(
            blocks@.len(),
            |k: int| setblock_cmd(off_pos(blocks@[k].pos@, offset), block_cmd_spec(
                blocks@[k].block.id@, props_view(blocks@[k].block.properties@))),
        ),
        ActionType::Fill { region, with } => seq![
            fill_cmd(off_pos(region@[0]@, offset), off_pos(region@[1]@, offset), block_cmd_spec(
                with.id@, props_view(with.properties@)))
        ],
        ActionType::Remove { pos } => seq![setblock_cmd(off_pos(pos@, offset), "air"@)],
        ActionType::Assert { checks } => Seq::empty(),
    }
}

/// Builds the command strings for one timeline entry under a per-test
/// offset.
pub fn commands_for_entry(entry: &TimelineEntry, offset: [i32; 3]) -> (r: Vec<String>)
    requires
        entry_offsets_ok(entry.action_type, offset@),
    ensures
        r.deep_view() == action_commands_spec(entry.action_type, offset@),
{
    match &entry.action_type {
        ActionType::Place { pos, block } => {
            let wp = apply_offset(*pos, offset);
            let bs = block.to_command();
            let cmd = setblock_command(wp, bs.as_str());
            let mut v: Vec<String> = Vec::new();
            v.push(cmd);
            assert(v.deep_view() =~~= action_commands_spec(entry.action_type, offset@));
            v
        },
        ActionType::PlaceEach { blocks } => {
            let ghost spec_cmds = action_commands_spec(entry.action_type, offset@);
            let n = blocks.len();
            let mut v: Vec<String> = Vec::new();
            let mut k: usize = 0;
            while k < n
                invariant
                    n == blocks@.len(),
                    spec_cmds == action_commands_spec(entry.action_type, offset@),
                    spec_cmds.len() == n,
                    forall|m: int| 0 <= m < n ==> off_ok((#[trigger] blocks@[m]).pos@, offset@),
                    forall|m: int| 0 <= m < n ==> spec_cmds[m] == setblock_cmd(
                        off_pos((#[trigger] blocks@[m]).pos@, offset@), block_cmd_spec(
                        blocks@[m].block.id@, props_view(blocks@[m].block.properties@))),
                    k <= n,
                    v.deep_view() =~~= spec_cmds.subrange(0, k as int),
                decreases n - k,
            {
                let wp = apply_offset(blocks[k].pos, offset);
                let bs = blocks[k].block.to_command();
                let cmd = setblock_command(wp, bs.as_str());
                let ghost old_dv = v.deep_view();
                v.push(cmd);
                proof {
                    assert(v.deep_view() =~~= old_dv.push(spec_cmds[k as int]));
                    assert(v.deep_view() =~~= spec_cmds.subrange(0, k as int + 1));
                }
                k = k + 1;
            }
            assert(spec_cmds.subrange(0, n as int) =~= spec_cmds);
            v
        },
        ActionType::Fill { region, with } => {
            assert(region@[0] == region[0] && region@[1] == region[1]);
            let wmin = apply_offset(region[0], offset);
            let wmax = apply_offset(region[1], offset);
            let bs = with.to_command();
            let cmd = fill_command(wmin, wmax, bs.as_str());
            let mut v: Vec<String> = Vec::new();
            v.push(cmd);
            assert(v.deep_view() =~~= action_commands_spec(entry.action_type, offset@));
            v
        },
        ActionType::Remove { pos } => {
            let wp = apply_offset(*pos, offset);
            let cmd = setblock_command(wp, "air");
            let mut v: Vec<String> = Vec::new();
            v.push(cmd);
            assert(v.deep_view() =~~= action_commands_spec(entry.action_type, offset@));
            v
        },
        ActionType::Assert { checks } => {
            let v: Vec<String> = Vec::new();
            assert(v.deep_view() =~~= action_commands_spec(entry.action_type, offset@));
            v
        },
    }
}


/// The value of one property as rendered inside a server-side block
/// string: the text after the first `name: `, up to a comma or closing
/// brace, trimmed of whitespace and underscores.  `None` when the
/// pattern is absent or the value empty.
pub open spec fn prop_value_of(s: Seq<char>, prop: Seq<char>) -> Option<Seq<char>> {
    let low = lower_chars(s);
    let pat = lower_chars(prop) + ": "@;
    if !contains_seq(low, pat) {
        None
    } else {
        let vs = find_sub_at(low, pat) + pat.len();
        let rest = s.subrange(vs, s.len() as int);
        let e = min2(find_char_at(rest, ','), find_char_at(rest, '}'));
        let val = trim_char_spec(trim_spec(rest.subrange(0, e)), '_');
        if val.len() > 0 {
            Some(val)
        } else {
            None
        }
    }
}

/// Reads a property's rendered value out of a server-side block string.
pub fn extract_property_value(block_state_str: &str, prop_name: &str) -> (r: Option<String>)
    ensures
        match r {
            Some(v) => prop_value_of(block_state_str@, prop_name@) == Some(v@),
            None => prop_value_of(block_state_str@, prop_name@) is None,
        },
{
    let low = crate::block::normalize_for_search(block_state_str);
    let mut pat = crate::block::normalize_for_search(prop_name);
    pat.append(": ");
    let found = crate::strutil::find_str(low.as_str(), pat.as_str());
    proof {
        lemma_find_sub_at(low@, pat@);
    }
    match found {
        None => None,
        Some(i) => {
            assert(i as int == find_sub_at(low@, pat@));
            let ln = low.as_str().unicode_len();
            let pl = pat.as_str().unicode_len();
            assert(i + pl <= ln);
            let vs = i + pl;
            let n = block_state_str.unicode_len();
            assert(low@.len() == block_state_str@.len());
            let rest = substring_copy(block_state_str, vs, n);
            let e1 = find_char(rest.as_str(), ',');
            let e2 = find_char(rest.as_str(), '}');
            proof {
                lemma_find_char_at(rest@, ',');
                lemma_find_char_at(rest@, '}');
            }
            let e = if e1 <= e2 { e1 } else { e2 };
            let t1 = trim_str(substring_copy(rest.as_str(), 0, e).as_str());
            let val = trim_matches_char(t1.as_str(), '_');
            if val.as_str().unicode_len() > 0 {
                Some(val)
            } else {
                None
            }
        },
    }
}

/// A polled read satisfies the whole check: the block name matches and
/// every property constraint is found in the raw string.
pub open spec fn check_passes_spec(a: Seq<char>, b: Block) -> bool {
    block_matches_spec(a, b.id@) && forall|k: int| 0 <= k < props_view(b.properties@).len()
        ==> prop_patterns_match(
        a, (#[trigger] props_view(b.properties@)[k]).0, props_view(b.properties@)[k].1)
}

/// What the whole assertion check on one read yields: `None` when it
/// passes; otherwise the failure detail, naming the expected block when
/// the block itself differs, else the first failing property.
pub fn evaluate_check(tick: u32, check: &BlockCheck, actual: Option<&String>) -> (r: Option<
    FailureDetail,
>)
    ensures
        ({
            let av: Option<Seq<char>> = match actual {
                Some(a) => Some(a@),
                None => None,
            };
            let pv = props_view(check.is.properties@);
            match r {
                None => av is Some && check_passes_spec(av.unwrap(), check.is),
                Some(d) => {
                    &&& d.tick == tick
                    &&& d.position == check.pos
                    &&& if !read_match(av, check.is.id@) {
                        &&& d.expected@ == check.is.id@
                        &&& match av {
                            None => d.actual@ == "none"@,
                            Some(a) => extract_spec(a, d.actual@),
                        }
                    } else {
                        exists|k: int|
                            {
                                &&& 0 <= k < pv.len()
                                &&& !prop_patterns_match(av.unwrap(), (#[trigger] pv[k]).0, pv[
                                    k].1)
                                &&& forall|j: int| 0 <= j < k ==> prop_patterns_match(
                                    av.unwrap(), (#[trigger] pv[j]).0, pv[j].1)
                                &&& d.expected@ == pv[k].0 + seq!['='] + pv[k].1
                                &&& d.actual@ == pv[k].0 + seq!['='] + (match prop_value_of(
                                    av.unwrap(), pv[k].0) {
                                    Some(v) => v,
                                    None => seq!['?'],
                                })
                            }
                    }
                },
            }
        }),
{
    let ghost pv = props_view(check.is.properties@);
    if !read_matches(actual, check.is.id.as_str()) {
        let actual_name: String = match actual {
            Some(a) => extract_block_id(a.as_str()),
            None => {
                let mut s = String::new();
                s.append("none");
                s
            },
        };
        let expected = substring_copy(check.is.id.as_str(), 0, check.is.id.as_str().unicode_len());
        assert(expected@ =~= check.is.id@);
        return Some(FailureDetail { tick, expected, actual: actual_name, position: check.pos });
    }
    let a: &String = match actual {
        Some(a) => a,
        None => {
            assert(false);
            unreached()
        },
    };
    let n = check.is.properties.len();
    let mut k: usize = 0;
    while k < n
        invariant
            n == check.is.properties@.len(),
            pv == props_view(check.is.properties@),
            pv.len() == n,
            k <= n,
            read_match(Some(a@), check.is.id@),
            block_matches_spec(a@, check.is.id@),
            match actual {
                Some(x) => x@ == a@,
                None => false,
            },
            forall|j: int| 0 <= j < k ==> prop_patterns_match(a@, (#[trigger] pv[j]).0, pv[j].1),
        decreases n - k,
    {
        let name = &check.is.properties[k].0;
        let value = &check.is.properties[k].1;
        assert(pv[k as int].0 == name@ && pv[k as int].1 == value@);
        if !property_matches(a.as_str(), name.as_str(), value.as_str()) {
            let mut expected = substring_copy(name.as_str(), 0, name.as_str().unicode_len());
            push_char(&mut expected, '=');
            expected.append(value.as_str());
            let mut actual_s = substring_copy(name.as_str(), 0, name.as_str().unicode_len());
            push_char(&mut actual_s, '=');
            match extract_property_value(a.as_str(), name.as_str()) {
                Some(v) => {
                    actual_s.append(v.as_str());
                },
                None => {
                    push_char(&mut actual_s, '?');
                },
            }
            assert(expected@ =~= pv[k as int].0 + seq!['='] + pv[k as int].1);
            proof {
                assert(!prop_patterns_match(a@, pv[k as int].0, pv[k as int].1));
                assert(actual_s@ =~= pv[k as int].0 + seq!['='] + (match prop_value_of(
                    a@, pv[k as int].0) {
                    Some(v) => v,
                    None => seq!['?'],
                }));
                assert(exists|kk: int|
                    {
                        &&& 0 <= kk < pv.len()
                        &&& !prop_patterns_match(a@, (#[trigger] pv[kk]).0, pv[kk].1)
                        &&& forall|j: int| 0 <= j < kk ==> prop_patterns_match(
                            a@, (#[trigger] pv[j]).0, pv[j].1)
                        &&& expected@ == pv[kk].0 + seq!['='] + pv[kk].1
                        &&& actual_s@ == pv[kk].0 + seq!['='] + (match prop_value_of(
                            a@, pv[kk].0) {
                            Some(v) => v,
                            None => seq!['?'],
                        })
                    }) by {
                    let kk = k as int;
                    assert(0 <= kk < pv.len() && !prop_patterns_match(
                        a@, (#[trigger] pv[kk]).0, pv[kk].1) && expected@ == pv[kk].0 + seq![
                        '='] + pv[kk].1);
                }
            }
            return Some(FailureDetail {
                tick,
                expected,
                actual: actual_s,
                position: check.pos,
            });
        }
        k = k + 1;
    }
    None
}


/// The world offset isolating one test on the default ten-by-ten
/// horizontal grid, one hundred blocks per cell; later indices wrap.
pub fn calculate_test_offset_default(index: usize, _total: usize) -> (r: [i32; 3])
    ensures
        r@[0] == ((index % 10) * 100) as i32,
        r@[1] == 0,
        r@[2] == (((index / 10) % 10) * 100) as i32,
{
    let x: usize = (index % 10) * 100;
    let z: usize = ((index / 10) % 10) * 100;
    let r = [x as i32, 0, z as i32];
    assert(r@[0] == x as i32 && r@[1] == 0 && r@[2] == z as i32);
    r
}

/// Whether one polled read satisfies the block expectation.
pub open spec fn read_match(r: Option<Seq<char>>, id: Seq<char>) -> bool {
    match r {
        Some(a) => block_matches_spec(a, id),
        None => false,
    }
}

/// Tests one polled read against the expected block name.
pub fn read_matches(actual: Option<&String>, expected_id: &str) -> (r: bool)
    ensures
        r == read_match(
            match actual {
                Some(a) => Some(a@),
                None => None,
            },
            expected_id@,
        ),
{
    match actual {
        Some(a) => block_matches(a.as_str(), expected_id),
        None => false,
    }
}

/// Index of the first read that satisfies the expectation, or the number
/// of reads when none does.
pub open spec fn first_match_read(reads: Seq<Option<Seq<char>>>, id: Seq<char>) -> int
    decreases reads.len(),
{
    if reads.len() == 0 {
        0
    } else if read_match(reads[0], id) {
        0
    } else {
        1 + first_match_read(reads.skip(1), id)
    }
}

pub proof fn lemma_first_match_read(reads: Seq<Option<Seq<char>>>, id: Seq<char>)
    ensures
        0 <= first_match_read(reads, id) <= reads.len(),
        forall|j: int| 0 <= j < first_match_read(reads, id) ==> !read_match(reads[j], id),
        first_match_read(reads, id) < reads.len() ==> read_match(
            reads[first_match_read(reads, id)], id),
    decreases reads.len(),
{
    if reads.len() > 0 && !read_match(reads[0], id) {
        lemma_first_match_read(reads.skip(1), id);
        assert forall|j: int| 0 <= j < first_match_read(reads, id) implies !read_match(
            reads[j], id) by {
            if j > 0 {
                assert(reads.skip(1)[j - 1] == reads[j]);
            }
        }
        if first_match_read(reads, id) < reads.len() {
            assert(reads.skip(1)[first_match_read(reads, id) - 1] == reads[first_match_read(
                reads, id)]);
        }
    }
}

/// Law: when some read among the first `BLOCK_POLL_ATTEMPTS` matches the
/// expected block — as after a completed placement of that very block at
/// the polled position — the poll accepts at the first matching read,
/// within the retry budget.
pub proof fn lemma_poll_accepts_within_budget(
    reads: Seq<Option<Seq<char>>>,
    id: Seq<char>,
    i: int,
)
    requires
        0 <= i < reads.len(),
        i < BLOCK_POLL_ATTEMPTS,
        read_match(reads[i], id),
    ensures
        0 <= first_match_read(reads, id) <= i,
        first_match_read(reads, id) < BLOCK_POLL_ATTEMPTS,
        read_match(reads[first_match_read(reads, id)], id),
{
    lemma_first_match_read(reads, id);
    if first_match_read(reads, id) > i {
        assert(!read_match(reads[i], id));
    }
}


/// Law: an assertion that follows a completed placement of the same
/// block at the same position is accepted within the retry budget: the
/// placed block's reported form matches its own name — matching is
/// reflexive — so the first read that reports it is taken.
pub proof fn lemma_assert_after_place(reads: Seq<Option<Seq<char>>>, placed: Seq<char>, i: int)
    requires
        0 <= i < reads.len(),
        i < BLOCK_POLL_ATTEMPTS,
        reads[i] == Some(placed),
    ensures
        0 <= first_match_read(reads, placed) <= i,
        first_match_read(reads, placed) < BLOCK_POLL_ATTEMPTS,
        read_match(reads[first_match_read(reads, placed)], placed),
{
    crate::block::lemma_block_matches_reflexive(placed);
    lemma_poll_accepts_within_budget(reads, placed, i);
}

} // verus!
