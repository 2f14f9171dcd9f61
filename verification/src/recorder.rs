//! State for recording sessions: world changes observed around a player
//! become timeline steps of a new test.

use vstd::prelude::*;
use crate::bounding_box::BoundingBox;
use crate::strutil::{contains_seq, contains_str, eq_str, lower_chars, substring_copy};

verus! {

/// Default radius scanned for block changes.
pub const DEFAULT_SCAN_RADIUS: i32 = 16;

/// One recorded world change or check.
pub enum RecordedAction {
    Place { pos: [i32; 3], block: String },
    Remove { pos: [i32; 3] },
    Assert { pos: [i32; 3], block: String },
}

/// The position a recorded action is about.
pub open spec fn action_pos(a: RecordedAction) -> [i32; 3] {
    match a {
        RecordedAction::Place { pos, .. } => pos,
        RecordedAction::Remove { pos } => pos,
        RecordedAction::Assert { pos, .. } => pos,
    }
}

/// Whether an action survives deduplication against a new mutation at
/// `pos`: assertions always do, mutations only at other positions.
pub open spec fn keeps_at(a: RecordedAction, pos: [i32; 3]) -> bool {
    match a {
        RecordedAction::Place { pos: p, .. } => p@ != pos@,
        RecordedAction::Remove { pos: p } => p@ != pos@,
        RecordedAction::Assert { .. } => true,
    }
}

/// The actions of one step with mutations at `pos` removed.
pub open spec fn dedup_spec(acts: Seq<RecordedAction>, pos: [i32; 3]) -> Seq<RecordedAction>
    decreases acts.len(),
{
    if acts.len() == 0 {
        acts
    } else if keeps_at(acts.last(), pos) {
        dedup_spec(acts.drop_last(), pos).push(acts.last())
    } else {
        dedup_spec(acts.drop_last(), pos)
    }
}

/// One recorded tick of the timeline.
pub struct TimelineStep {
    pub tick: u32,
    pub actions: Vec<RecordedAction>,
}

/// State for an active recording session.
pub struct RecorderState {
    /// Test name, possibly with directory parts separated by `/`.
    pub test_name: String,
    /// Path of the file the test will be saved to.
    pub test_path: String,
    /// Current recording tick.
    pub current_tick: u32,
    /// Recorded timeline steps, in tick order.
    pub timeline: Vec<TimelineStep>,
    /// Bounding box of all affected blocks.
    pub bounds: BoundingBox,
    /// Last known block per world position, for change detection.
    pub snapshot: Vec<([i32; 3], String)>,
    /// Origin point: the first changed block becomes the local zero.
    pub origin: Option<[i32; 3]>,
    /// Player to track.
    pub player_name: Option<String>,
    /// Centre of the change scan.
    pub scan_center: Option<[i32; 3]>,
    /// Radius of the change scan.
    pub scan_radius: i32,
}

/// The local coordinates of a world position relative to an origin.
pub open spec fn local_of(origin: Option<[i32; 3]>, w: Seq<i32>) -> Seq<i32> {
    match origin {
        Some(o) => Seq::new(3, |k: int| (w[k] - o@[k]) as i32),
        None => w,
    }
}

/// The subtraction stays inside the coordinate range.
pub open spec fn local_ok(origin: Option<[i32; 3]>, w: Seq<i32>) -> bool {
    match origin {
        Some(o) => forall|k: int| 0 <= k < 3 ==> i32::MIN <= #[trigger] w[k] - o@[k] <= i32::MAX,
        None => true,
    }
}

impl RecorderState {
    /// A fresh recording named `test_name`, to be saved under
    /// `tests_dir` with the `.json` ending.
    pub fn new(test_name: &str, tests_dir: &str) -> (r: RecorderState)
        ensures
            r.test_name@ == test_name@,
            r.test_path@ == tests_dir@ + "/"@ + test_name@ + ".json"@,
            r.current_tick == 0,
            r.timeline@.len() == 0,
            r.snapshot@.len() == 0,
            r.origin is None,
            r.player_name is None,
            r.scan_center is None,
            r.scan_radius == DEFAULT_SCAN_RADIUS,
            r.bounds.min@[0] == i32::MAX && r.bounds.min@[1] == i32::MAX && r.bounds.min@[2]
                == i32::MAX,
            r.bounds.max@[0] == i32::MIN && r.bounds.max@[1] == i32::MIN && r.bounds.max@[2]
                == i32::MIN,
    {
        let mut path = String::new();
        path.append(tests_dir);
        crate::strutil::push_char(&mut path, '/');
        path.append(test_name);
        path.append(".json");
        proof {
            reveal_strlit("/");
            assert(path@ =~= tests_dir@ + "/"@ + test_name@ + ".json"@);
        }
        let name = substring_copy(test_name, 0, test_name.unicode_len());
        assert(name@ =~= test_name@);
        RecorderState {
            test_name: name,
            test_path: path,
            current_tick: 0,
            timeline: Vec::new(),
            bounds: BoundingBox::new(),
            snapshot: Vec::new(),
            origin: None,
            player_name: None,
            scan_center: None,
            scan_radius: DEFAULT_SCAN_RADIUS,
        }
    }

    /// Sets the centre of the change scan.
    pub fn set_scan_center(&mut self, pos: [i32; 3])
        ensures
            *final(self) == (RecorderState { scan_center: Some(pos), ..*old(self) }),
    {
        self.scan_center = Some(pos);
    }

    /// Fixes the origin; only the first call takes effect.
    pub fn set_origin(&mut self, pos: [i32; 3])
        ensures
            *final(self) == (RecorderState {
                origin: if old(self).origin is None {
                    Some(pos)
                } else {
                    old(self).origin
                },
                ..*old(self)
            }),
    {
        if self.origin.is_none() {
            self.origin = Some(pos);
        }
    }

    /// Converts a world position to local coordinates.
    pub fn to_local(&self, world_pos: [i32; 3]) -> (r: [i32; 3])
        requires
            local_ok(self.origin, world_pos@),
        ensures
            r@ == local_of(self.origin, world_pos@),
    {
        match &self.origin {
            Some(origin) => {
                assert(world_pos@[0] == world_pos[0] && world_pos@[1] == world_pos[1]
                    && world_pos@[2] == world_pos[2]);
                assert(origin@[0] == origin[0] && origin@[1] == origin[1] && origin@[2]
                    == origin[2]);
                let r = [
                    world_pos[0] - origin[0],
                    world_pos[1] - origin[1],
                    world_pos[2] - origin[2],
                ];
                assert(r@ =~= local_of(self.origin, world_pos@));
                r
            },
            None => {
                assert(world_pos@ =~= local_of(self.origin, world_pos@));
                world_pos
            },
        }
    }

    /// Advances to the next recording tick.
    pub fn next_tick(&mut self)
        requires
            old(self).current_tick < u32::MAX,
        ensures
            *final(self) == (RecorderState {
                current_tick: (old(self).current_tick + 1) as u32,
                ..*old(self)
            }),
    {
        self.current_tick = self.current_tick + 1;
    }
}

/// Removes the mutations at `pos` from a step's actions, keeping
/// assertions and mutations elsewhere.
fn dedup_actions(acts: Vec<RecordedAction>, pos: [i32; 3]) -> (r: Vec<RecordedAction>)
    ensures
        r@ == dedup_spec(acts@, pos),
{
    let ghost full = acts@;
    let n = acts.len();
    let mut out: Vec<RecordedAction> = Vec::new();
    let mut rest = acts;
    let mut i: usize = 0;
    proof {
        assert(dedup_spec(full.subrange(0, 0), pos) =~= Seq::<RecordedAction>::empty());
    }
    while i < n
        invariant
            n == full.len(),
            i <= n,
            out@ =~= dedup_spec(full.subrange(0, i as int), pos),
            rest@ =~= full.subrange(i as int, n as int),
        decreases n - i,
    {
        assert(rest@.len() > 0);
        let a = rest.remove(0);
        proof {
            assert(full.subrange(i as int, n as int)[0] == full[i as int]);
            assert(rest@ =~= full.subrange(i as int + 1, n as int));
            assert(full.subrange(0, i as int + 1).drop_last() =~= full.subrange(0, i as int));
            assert(full.subrange(0, i as int + 1).last() == full[i as int]);
        }
        let keep = match &a {
            RecordedAction::Place { pos: p, .. } => !(p[0] == pos[0] && p[1] == pos[1] && p[2]
                == pos[2]),
            RecordedAction::Remove { pos: p } => !(p[0] == pos[0] && p[1] == pos[1] && p[2]
                == pos[2]),
            RecordedAction::Assert { .. } => true,
        };
        proof {
            let ap = action_pos(full[i as int]);
            assert(ap@[0] == ap[0 as int] || true);
            assert(pos@[0] == pos[0] && pos@[1] == pos[1] && pos@[2] == pos[2]);
            if ap@[0] == pos@[0] && ap@[1] == pos@[1] && ap@[2] == pos@[2] {
                assert(ap@ =~= pos@);
            }
            assert(keep == keeps_at(full[i as int], pos));
        }
        if keep {
            out.push(a);
        }
        i = i + 1;
    }
    assert(full.subrange(0, n as int) =~= full);
    out
}


/// Index of the first snapshot entry for a position, or the length.
pub open spec fn snap_key_at(m: Seq<([i32; 3], String)>, k: [i32; 3]) -> int
    decreases m.len(),
{
    if m.len() == 0 {
        0
    } else if m[0].0@ == k@ {
        0
    } else {
        1 + snap_key_at(m.skip(1), k)
    }
}

pub proof fn lemma_snap_key_at(m: Seq<([i32; 3], String)>, k: [i32; 3])
    ensures
        0 <= snap_key_at(m, k) <= m.len(),
        forall|j: int| 0 <= j < snap_key_at(m, k) ==> (#[trigger] m[j]).0@ != k@,
        snap_key_at(m, k) < m.len() ==> m[snap_key_at(m, k)].0@ == k@,
    decreases m.len(),
{
    if m.len() > 0 && m[0].0@ != k@ {
        lemma_snap_key_at(m.skip(1), k);
        assert forall|j: int| 0 <= j < snap_key_at(m, k) implies (#[trigger] m[j]).0@ != k@ by {
            if j > 0 {
                assert(m.skip(1)[j - 1] == m[j]);
            }
        }
        if snap_key_at(m, k) < m.len() {
            assert(m.skip(1)[snap_key_at(m, k) - 1] == m[snap_key_at(m, k)]);
        }
    }
}

/// The snapshot with the last known block at `k` set to `v`: the first
/// entry for `k` overwritten, or a new entry appended.
pub open spec fn snap_set(
    m: Seq<([i32; 3], String)>,
    k: [i32; 3],
    v: String,
) -> Seq<([i32; 3], String)> {
    if snap_key_at(m, k) < m.len() {
        m.update(snap_key_at(m, k), (k, v))
    } else {
        m.push((k, v))
    }
}

/// Overwrites or appends the last known block at one position.
fn snap_update(snapshot: &mut Vec<([i32; 3], String)>, k: [i32; 3], v: String)
    ensures
        final(snapshot)@ == snap_set(old(snapshot)@, k, v),
{
    let ghost m = snapshot@;
    proof {
        lemma_snap_key_at(m, k);
    }
    let n = snapshot.len();
    let mut i: usize = 0;
    while i < n
        invariant
            n == snapshot@.len(),
            m == snapshot@,
            m == old(snapshot)@,
            i <= n,
            0 <= snap_key_at(m, k) <= n,
            forall|j: int| 0 <= j < snap_key_at(m, k) ==> (#[trigger] m[j]).0@ != k@,
            snap_key_at(m, k) < n ==> m[snap_key_at(m, k)].0@ == k@,
            forall|j: int| 0 <= j < i ==> (#[trigger] m[j]).0@ != k@,
        decreases n - i,
    {
        let same = snapshot[i].0[0] == k[0] && snapshot[i].0[1] == k[1] && snapshot[i].0[2]
            == k[2];
        proof {
            let p = m[i as int].0;
            assert(p@[0] == p[0 as int] || true);
            assert(k@[0] == k[0] && k@[1] == k[1] && k@[2] == k[2]);
            if p@[0] == k@[0] && p@[1] == k@[1] && p@[2] == k@[2] {
                assert(p@ =~= k@);
            }
        }
        if same {
            assert(i as int == snap_key_at(m, k));
            snapshot.remove(i);
            snapshot.insert(i, (k, v));
            proof {
                assert(snapshot@ =~= m.update(i as int, (k, v)));
            }
            return;
        }
        i = i + 1;
    }
    assert(snap_key_at(m, k) == n);
    snapshot.push((k, v));
    proof {
        assert(snapshot@ =~= m.push((k, v)));
    }
}

/// The new timeline after recording `a` at tick `tick`: the last step is
/// extended when it is already at `tick`, else a fresh step is appended;
/// when `dedup` is set, earlier mutations at the same position leave the
/// step first.
pub open spec fn timeline_after(
    old_tl: Seq<TimelineStep>,
    new_tl: Seq<TimelineStep>,
    tick: u32,
    a: RecordedAction,
    dedup: bool,
) -> bool {
    let fresh = old_tl.len() == 0 || old_tl.last().tick != tick;
    let base: Seq<RecordedAction> = if fresh {
        Seq::empty()
    } else {
        old_tl.last().actions@
    };
    let based: Seq<RecordedAction> = if dedup {
        dedup_spec(base, action_pos(a))
    } else {
        base
    };
    let keep: int = if fresh {
        old_tl.len() as int
    } else {
        old_tl.len() - 1
    };
    &&& new_tl.len() == keep + 1
    &&& new_tl.subrange(0, keep) == old_tl.subrange(0, keep)
    &&& new_tl.last().tick == tick
    &&& new_tl.last().actions@ == based.push(a)
}

impl RecorderState {
    /// Extends or opens the step of the current tick with one action,
    /// deduplicating mutations at the action's position when asked.
    fn push_action(&mut self, a: RecordedAction, dedup: bool)
        ensures
            timeline_after(old(self).timeline@, final(self).timeline@, old(self).current_tick,
                a, dedup),
            *final(self) == (RecorderState { timeline: final(self).timeline, ..*old(self) }),
    {
        let ghost old_tl = self.timeline@;
        let ghost pos = action_pos(a);
        let n = self.timeline.len();
        let fresh = n == 0 || self.timeline[n - 1].tick != self.current_tick;
        if fresh {
            let mut actions: Vec<RecordedAction> = Vec::new();
            if dedup {
                let deduped = dedup_actions(actions, clone_pos(&a));
                actions = deduped;
                assert(actions@ =~= dedup_spec(Seq::<RecordedAction>::empty(), pos));
            }
            actions.push(a);
            self.timeline.push(TimelineStep { tick: self.current_tick, actions });
            proof {
                assert(self.timeline@.subrange(0, old_tl.len() as int) =~= old_tl.subrange(
                    0, old_tl.len() as int));
            }
        } else {
            let mut step = self.timeline.remove(n - 1);
            if dedup {
                let deduped = dedup_actions(step.actions, clone_pos(&a));
                step.actions = deduped;
            }
            step.actions.push(a);
            let tick = step.tick;
            self.timeline.push(step);
            proof {
                assert(self.timeline@.len() == old_tl.len());
                assert(self.timeline@.subrange(0, old_tl.len() - 1) =~= old_tl.subrange(
                    0, old_tl.len() - 1));
                assert(self.timeline@.last().tick == old_tl.last().tick);
            }
        }
    }

    /// Records a block placement: the first placement fixes the origin,
    /// the step of the current tick gains a `Place` at the local
    /// position with earlier mutations there dropped, the bounds grow,
    /// and the snapshot remembers the block at the world position.
    pub fn record_place(&mut self, world_pos: [i32; 3], block: &str)
        requires
            local_ok(old(self).origin, world_pos@),
        ensures
            final(self).origin == (if old(self).origin is None {
                Some(world_pos)
            } else {
                old(self).origin
            }),
            ({
                let lp = local_of(final(self).origin, world_pos@);
                &&& exists|a: RecordedAction| (#[trigger] action_is_place(a, lp, block@))
                    && timeline_after(old(self).timeline@, final(self).timeline@, old(
                    self).current_tick, a, true)
                &&& forall|k: int| 0 <= k < 3 ==> final(self).bounds.min@[k] == (
                if lp[k] < old(self).bounds.min@[k] {
                    lp[k]
                } else {
                    old(self).bounds.min@[k]
                })
                &&& forall|k: int| 0 <= k < 3 ==> final(self).bounds.max@[k] == (
                if lp[k] > old(self).bounds.max@[k] {
                    lp[k]
                } else {
                    old(self).bounds.max@[k]
                })
            }),
            ({
                let snap = final(self).snapshot@;
                let oldsnap = old(self).snapshot@;
                exists|v: String| v@ == block@ && snap == #[trigger] snap_set(
                    oldsnap, world_pos, v)
            }),
            final(self).current_tick == old(self).current_tick,
            final(self).test_name == old(self).test_name,
            final(self).test_path == old(self).test_path,
            final(self).player_name == old(self).player_name,
            final(self).scan_center == old(self).scan_center,
            final(self).scan_radius == old(self).scan_radius,
    {
        self.set_origin(world_pos);
        let local_pos = self.to_local(world_pos);
        self.bounds.expand(local_pos);
        let b1 = substring_copy(block, 0, block.unicode_len());
        assert(b1@ =~= block@);
        let ghost a_ghost: RecordedAction;
        let act = RecordedAction::Place { pos: local_pos, block: b1 };
        proof {
            a_ghost = act;
            assert(action_is_place(a_ghost, local_of(self.origin, world_pos@), block@));
        }
        self.push_action(act, true);
        let b2 = substring_copy(block, 0, block.unicode_len());
        assert(b2@ =~= block@);
        let ghost v_ghost = b2;
        snap_update(&mut self.snapshot, world_pos, b2);
        proof {
            assert(v_ghost@ == block@);
        }
    }

    /// Records a block removal; nothing is recorded before an origin
    /// exists.  The snapshot then remembers air at the world position.
    pub fn record_remove(&mut self, world_pos: [i32; 3])
        requires
            local_ok(old(self).origin, world_pos@),
        ensures
            final(self).origin == old(self).origin,
            old(self).origin is None ==> *final(self) == *old(self),
            old(self).origin is Some ==> ({
                let lp = local_of(old(self).origin, world_pos@);
                &&& exists|a: RecordedAction| (#[trigger] action_is_remove(a, lp))
                    && timeline_after(old(self).timeline@, final(self).timeline@, old(
                    self).current_tick, a, true)
                &&& forall|k: int| 0 <= k < 3 ==> final(self).bounds.min@[k] == (
                if lp[k] < old(self).bounds.min@[k] {
                    lp[k]
                } else {
                    old(self).bounds.min@[k]
                })
                &&& forall|k: int| 0 <= k < 3 ==> final(self).bounds.max@[k] == (
                if lp[k] > old(self).bounds.max@[k] {
                    lp[k]
                } else {
                    old(self).bounds.max@[k]
                })
                &&& (exists|v: String| v@ == "minecraft:air"@ && final(self).snapshot@
                    == #[trigger] snap_set(old(self).snapshot@, world_pos, v))
                &&& final(self).current_tick == old(self).current_tick
            }),
    {
        if self.origin.is_none() {
            return;
        }
        let local_pos = self.to_local(world_pos);
        self.bounds.expand(local_pos);
        let act = RecordedAction::Remove { pos: local_pos };
        assert(action_is_remove(act, local_of(self.origin, world_pos@)));
        self.push_action(act, true);
        let mut air = String::new();
        air.append("minecraft:air");
        let ghost v_ghost = air;
        snap_update(&mut self.snapshot, world_pos, air);
    }

    /// Records an assertion: the first one may fix the origin; the step
    /// of the current tick gains an `Assert` at the local position, and
    /// the bounds grow.
    pub fn add_assertion(&mut self, world_pos: [i32; 3], block: &str)
        requires
            local_ok(old(self).origin, world_pos@),
        ensures
            final(self).origin == (if old(self).origin is None {
                Some(world_pos)
            } else {
                old(self).origin
            }),
            ({
                let lp = local_of(final(self).origin, world_pos@);
                &&& exists|a: RecordedAction| (#[trigger] action_is_assert(a, lp, block@))
                    && timeline_after(old(self).timeline@, final(self).timeline@, old(
                    self).current_tick, a, false)
                &&& forall|k: int| 0 <= k < 3 ==> final(self).bounds.min@[k] == (
                if lp[k] < old(self).bounds.min@[k] {
                    lp[k]
                } else {
                    old(self).bounds.min@[k]
                })
                &&& forall|k: int| 0 <= k < 3 ==> final(self).bounds.max@[k] == (
                if lp[k] > old(self).bounds.max@[k] {
                    lp[k]
                } else {
                    old(self).bounds.max@[k]
                })
            }),
            final(self).snapshot@ == old(self).snapshot@,
            final(self).current_tick == old(self).current_tick,
    {
        if self.origin.is_none() {
            self.set_origin(world_pos);
        }
        let local_pos = self.to_local(world_pos);
        self.bounds.expand(local_pos);
        let b1 = substring_copy(block, 0, block.unicode_len());
        assert(b1@ =~= block@);
        let act = RecordedAction::Assert { pos: local_pos, block: b1 };
        assert(action_is_assert(act, local_of(self.origin, world_pos@), block@));
        self.push_action(act, false);
    }

    /// Turns every mutation of the current tick's step into an
    /// assertion — a removal asserts air — and reports how many were
    /// converted.
    pub fn convert_actions_to_asserts(&mut self) -> (r: usize)
        ensures
            ({
                let tl = old(self).timeline@;
                if tl.len() > 0 && tl.last().tick == old(self).current_tick {
                    &&& final(self).timeline@.len() == tl.len()
                    &&& final(self).timeline@.subrange(0, tl.len() - 1) == tl.subrange(
                        0, tl.len() - 1)
                    &&& final(self).timeline@.last().tick == tl.last().tick
                    &&& converted_rel(tl.last().actions@, final(self).timeline@.last().actions@)
                    &&& r == count_mutations(tl.last().actions@)
                } else {
                    final(self).timeline@ == tl && r == 0
                }
            }),
            *final(self) == (RecorderState { timeline: final(self).timeline, ..*old(self) }),
    {
        let n = self.timeline.len();
        if n == 0 {
            return 0;
        }
        if self.timeline[n - 1].tick != self.current_tick {
            return 0;
        }
        let ghost old_tl = self.timeline@;
        let mut step = self.timeline.remove(n - 1);
        let ghost old_acts = step.actions@;
        let na = step.actions.len();
        let mut out: Vec<RecordedAction> = Vec::new();
        let mut rest = step.actions;
        let mut count: usize = 0;
        let mut i: usize = 0;
        proof {
            assert(old_acts.subrange(0, 0) =~= Seq::<RecordedAction>::empty());
            lemma_converted_empty();
        }
        while i < na
            invariant
                na == old_acts.len(),
                i <= na,
                rest@ =~= old_acts.subrange(i as int, na as int),
                converted_rel(old_acts.subrange(0, i as int), out@),
                count == count_mutations(old_acts.subrange(0, i as int)),
                count <= i,
            decreases na - i,
        {
            assert(rest@.len() > 0);
            let a = rest.remove(0);
            proof {
                assert(old_acts.subrange(i as int, na as int)[0] == old_acts[i as int]);
                assert(rest@ =~= old_acts.subrange(i as int + 1, na as int));
                assert(old_acts.subrange(0, i as int + 1).drop_last() =~= old_acts.subrange(
                    0, i as int));
                assert(old_acts.subrange(0, i as int + 1).last() == old_acts[i as int]);
            }
            match a {
                RecordedAction::Place { pos, block } => {
                    out.push(RecordedAction::Assert { pos, block });
                    count = count + 1;
                },
                RecordedAction::Remove { pos } => {
                    let mut air = String::new();
                    air.append("minecraft:air");
                    assert(air@ == "minecraft:air"@);
                    out.push(RecordedAction::Assert { pos, block: air });
                    count = count + 1;
                },
                RecordedAction::Assert { pos, block } => {
                    out.push(RecordedAction::Assert { pos, block });
                },
            }
            i = i + 1;
        }
        assert(old_acts.subrange(0, na as int) =~= old_acts);
        step.actions = out;
        let tick = step.tick;
        self.timeline.push(step);
        proof {
            assert(self.timeline@.len() == old_tl.len());
            assert(self.timeline@.subrange(0, old_tl.len() - 1) =~= old_tl.subrange(
                0, old_tl.len() - 1));
        }
        count
    }
}

/// An action is a placement of the given block at the given local
/// position.
pub open spec fn action_is_place(a: RecordedAction, lp: Seq<i32>, block: Seq<char>) -> bool {
    match a {
        RecordedAction::Place { pos, block: b } => pos@ == lp && b@ == block,
        _ => false,
    }
}

/// An action is an assertion of the given block at the given local
/// position.
pub open spec fn action_is_assert(a: RecordedAction, lp: Seq<i32>, block: Seq<char>) -> bool {
    match a {
        RecordedAction::Assert { pos, block: b } => pos@ == lp && b@ == block,
        _ => false,
    }
}

/// An action is a removal at the given local position.
pub open spec fn action_is_remove(a: RecordedAction, lp: Seq<i32>) -> bool {
    match a {
        RecordedAction::Remove { pos } => pos@ == lp,
        _ => false,
    }
}

/// How two action lists relate after conversion: same length, mutations
/// became assertions of what they wrote — air for removals — and
/// assertions stayed as they were.
pub open spec fn converted_rel(olda: Seq<RecordedAction>, newa: Seq<RecordedAction>) -> bool {
    &&& newa.len() == olda.len()
    &&& forall|j: int| 0 <= j < olda.len() ==> match #[trigger] olda[j] {
        RecordedAction::Place { pos, block } => action_is_assert(newa[j], pos@, block@),
        RecordedAction::Remove { pos } => action_is_assert(newa[j], pos@, "minecraft:air"@),
        RecordedAction::Assert { pos, block } => action_is_assert(newa[j], pos@, block@),
    }
}

proof fn lemma_converted_empty()
    ensures
        converted_rel(Seq::<RecordedAction>::empty(), Seq::<RecordedAction>::empty()),
{
}

/// The number of mutations in an action list.
pub open spec fn count_mutations(acts: Seq<RecordedAction>) -> int
    decreases acts.len(),
{
    if acts.len() == 0 {
        0
    } else {
        count_mutations(acts.drop_last()) + (match acts.last() {
            RecordedAction::Assert { .. } => 0int,
            _ => 1int,
        })
    }
}

/// Clones the position of an action.
fn clone_pos(a: &RecordedAction) -> (r: [i32; 3])
    ensures
        r == action_pos(*a),
{
    match a {
        RecordedAction::Place { pos, .. } => *pos,
        RecordedAction::Remove { pos } => *pos,
        RecordedAction::Assert { pos, .. } => *pos,
    }
}


/// What a scanned position's new reading means for the recording.
pub enum BlockChange {
    /// Nothing changed at the position.
    Unchanged,
    /// A block appeared or was replaced: record a placement.
    Placed,
    /// The position turned to air: record a removal.
    Removed,
}

/// Decides what one scanned position's reading means: against the
/// remembered block when there is one, else air counts as no change.
pub fn classify_block_change(prev: Option<&String>, current: &str) -> (r: BlockChange)
    ensures
        ({
            let is_air = contains_seq(lower_chars(current@), "air"@);
            let changed = match prev {
                Some(p) => p@ != current@,
                None => !is_air,
            };
            match r {
                BlockChange::Unchanged => !changed,
                BlockChange::Removed => changed && is_air,
                BlockChange::Placed => changed && !is_air,
            }
        }),
{
    let low = crate::strutil::ascii_lowercase(current);
    let is_air = contains_str(low.as_str(), "air");
    let changed = match prev {
        Some(p) => !eq_str(p.as_str(), current),
        None => !is_air,
    };
    if !changed {
        BlockChange::Unchanged
    } else if is_air {
        BlockChange::Removed
    } else {
        BlockChange::Placed
    }
}


/// The recorded mutations of one step, in order: each placement with its
/// block string, each removal as a placement of air.
pub open spec fn mutations_of(acts: Seq<RecordedAction>) -> Seq<([i32; 3], Seq<char>)>
    decreases acts.len(),
{
    if acts.len() == 0 {
        Seq::empty()
    } else {
        mutations_of(acts.drop_last()) + (match acts.last() {
            RecordedAction::Place { pos, block } => seq![(pos, block@)],
            RecordedAction::Remove { pos } => seq![(pos, "minecraft:air"@)],
            RecordedAction::Assert { .. } => Seq::empty(),
        })
    }
}

/// The recorded assertions of one step, in order.
pub open spec fn checks_of(acts: Seq<RecordedAction>) -> Seq<([i32; 3], Seq<char>)>
    decreases acts.len(),
{
    if acts.len() == 0 {
        Seq::empty()
    } else {
        checks_of(acts.drop_last()) + (match acts.last() {
            RecordedAction::Assert { pos, block } => seq![(pos, block@)],
            _ => Seq::empty(),
        })
    }
}

/// A block value read from the given string form.
pub open spec fn block_is_parsed(b: crate::block::Block, s: Seq<char>) -> bool {
    b.id@ == crate::block::make_block_id_spec(s) && crate::block::props_view(b.properties@)
        =~= crate::block::make_block_props_spec(s)
}

/// A `PlaceEach` entry at one tick carrying exactly the given mutations.
pub open spec fn entry_is_place_each(
    e: crate::timeline::TimelineEntry,
    tick: u32,
    muts: Seq<([i32; 3], Seq<char>)>,
) -> bool {
    &&& e.at == crate::timeline::TickSpec::Single(tick)
    &&& match e.action_type {
        crate::timeline::ActionType::PlaceEach { blocks } => {
            &&& blocks@.len() == muts.len()
            &&& forall|j: int| 0 <= j < muts.len() ==> (#[trigger] blocks@[j]).pos@
                == muts[j].0@ && block_is_parsed(blocks@[j].block, muts[j].1)
        },
        _ => false,
    }
}

/// An `Assert` entry at one tick carrying exactly the given checks.
pub open spec fn entry_is_assert(
    e: crate::timeline::TimelineEntry,
    tick: u32,
    chks: Seq<([i32; 3], Seq<char>)>,
) -> bool {
    &&& e.at == crate::timeline::TickSpec::Single(tick)
    &&& match e.action_type {
        crate::timeline::ActionType::Assert { checks } => {
            &&& checks@.len() == chks.len()
            &&& forall|j: int| 0 <= j < chks.len() ==> (#[trigger] checks@[j]).pos@
                == chks[j].0@ && block_is_parsed(checks@[j].is, chks[j].1)
        },
        _ => false,
    }
}

/// The generated timeline mirrors the recorded steps: per step one
/// `PlaceEach` entry when it has mutations, then one `Assert` entry when
/// it has checks.
pub open spec fn gen_timeline_rel(
    steps: Seq<TimelineStep>,
    entries: Seq<crate::timeline::TimelineEntry>,
) -> bool
    decreases steps.len(),
{
    if steps.len() == 0 {
        entries.len() == 0
    } else {
        let acts = steps[0].actions@;
        let muts = mutations_of(acts);
        let chks = checks_of(acts);
        let np: int = if muts.len() > 0 {
            1
        } else {
            0
        };
        let na: int = if chks.len() > 0 {
            1
        } else {
            0
        };
        &&& entries.len() >= np + na
        &&& (muts.len() > 0 ==> entry_is_place_each(entries[0], steps[0].tick, muts))
        &&& (chks.len() > 0 ==> entry_is_assert(entries[np], steps[0].tick, chks))
        &&& gen_timeline_rel(steps.skip(1), entries.skip(np + na))
    }
}

/// Appending one more step's entries extends the relation.
proof fn lemma_gen_rel_append(
    steps: Seq<TimelineStep>,
    entries: Seq<crate::timeline::TimelineEntry>,
    s: TimelineStep,
    fresh: Seq<crate::timeline::TimelineEntry>,
)
    requires
        gen_timeline_rel(steps, entries),
        ({
            let muts = mutations_of(s.actions@);
            let chks = checks_of(s.actions@);
            let np: int = if muts.len() > 0 {
                1
            } else {
                0
            };
            let na: int = if chks.len() > 0 {
                1
            } else {
                0
            };
            &&& fresh.len() == np + na
            &&& (muts.len() > 0 ==> entry_is_place_each(fresh[0], s.tick, muts))
            &&& (chks.len() > 0 ==> entry_is_assert(fresh[np], s.tick, chks))
        }),
    ensures
        gen_timeline_rel(steps.push(s), entries + fresh),
    decreases steps.len(),
{
    if steps.len() == 0 {
        assert(steps.push(s)[0] == s);
        assert((entries + fresh).skip(0) =~= fresh);
        let muts = mutations_of(s.actions@);
        let chks = checks_of(s.actions@);
        let np: int = if muts.len() > 0 { 1 } else { 0 };
        let na: int = if chks.len() > 0 { 1 } else { 0 };
        assert(fresh.skip(np + na).len() == 0);
        assert(steps.push(s).skip(1).len() == 0);
        assert(gen_timeline_rel(steps.push(s).skip(1), fresh.skip(np + na)));
        if muts.len() > 0 {
            assert((entries + fresh)[0] == fresh[0]);
        }
        if chks.len() > 0 {
            assert((entries + fresh)[np] == fresh[np]);
        }
    } else {
        let acts = steps[0].actions@;
        let muts0 = mutations_of(acts);
        let chks0 = checks_of(acts);
        let np0: int = if muts0.len() > 0 { 1 } else { 0 };
        let na0: int = if chks0.len() > 0 { 1 } else { 0 };
        assert(steps.push(s)[0] == steps[0]);
        lemma_gen_rel_append(steps.skip(1), entries.skip(np0 + na0), s, fresh);
        assert(steps.push(s).skip(1) =~= steps.skip(1).push(s));
        assert((entries + fresh).skip(np0 + na0) =~= entries.skip(np0 + na0) + fresh);
        if muts0.len() > 0 {
            assert((entries + fresh)[0] == entries[0]);
        }
        if chks0.len() > 0 {
            assert((entries + fresh)[np0] == entries[np0]);
        }
    }
}

impl RecorderState {
    /// Builds a test specification from the recorded steps: the
    /// recording's name with directory slashes flattened, a `recorded`
    /// tag, the padded bounding box as the cleanup region — or a small
    /// default around the origin when nothing was recorded — and per
    /// step the mutations as one `PlaceEach` and the checks as one
    /// `Assert`.
    pub fn generate_test_spec(&self) -> (r: crate::timeline::TestSpec)
        requires
            (self.bounds.min@[0] <= self.bounds.max@[0] && self.bounds.min@[1]
                <= self.bounds.max@[1] && self.bounds.min@[2] <= self.bounds.max@[2])
                ==> (forall|k: int| 0 <= k < 3 ==> i32::MIN < #[trigger] self.bounds.min@[k]
                && self.bounds.max@[k] < i32::MAX),
        ensures
            r.name@.len() == self.test_name@.len(),
            forall|j: int| 0 <= j < self.test_name@.len() ==> r.name@[j] == (
            if self.test_name@[j] == '/' {
                '_'
            } else {
                self.test_name@[j]
            }),
            gen_timeline_rel(self.timeline@, r.timeline@),
            r.breakpoints@.len() == 0,
            r.tags@.len() == 1 && r.tags@[0]@ == "recorded"@,
    {
        let valid = self.bounds.is_valid();
        let cleanup_region: [[i32; 3]; 2] = if valid {
            self.bounds.to_cleanup_region(1)
        } else {
            [[0, 0, 0], [10, 10, 10]]
        };
        let name = slashes_to_underscores(self.test_name.as_str());
        let mut tags: Vec<String> = Vec::new();
        let mut tag = String::new();
        tag.append("recorded");
        tags.push(tag);
        let ns = self.timeline.len();
        let mut entries: Vec<crate::timeline::TimelineEntry> = Vec::new();
        let mut i: usize = 0;
        proof {
            assert(self.timeline@.subrange(0, 0) =~= Seq::<TimelineStep>::empty());
            assert(gen_timeline_rel(self.timeline@.subrange(0, 0), entries@));
        }
        while i < ns
            invariant
                ns == self.timeline@.len(),
                i <= ns,
                gen_timeline_rel(self.timeline@.subrange(0, i as int), entries@),
            decreases ns - i,
        {
            let na = self.timeline[i].actions.len();
            let ghost acts = self.timeline@[i as int].actions@;
            let mut placements: Vec<crate::timeline::BlockPlacement> = Vec::new();
            let mut checks: Vec<crate::timeline::BlockCheck> = Vec::new();
            let mut j: usize = 0;
            proof {
                assert(acts.subrange(0, 0) =~= Seq::<RecordedAction>::empty());
                assert(mutations_of(acts.subrange(0, 0)) =~= Seq::<([i32; 3], Seq<char>)>::empty());
                assert(checks_of(acts.subrange(0, 0)) =~= Seq::<([i32; 3], Seq<char>)>::empty());
            }
            while j < na
                invariant
                    na == acts.len(),
                    acts == self.timeline@[i as int].actions@,
                    i < ns,
                    ns == self.timeline@.len(),
                    j <= na,
                    placements@.len() == mutations_of(acts.subrange(0, j as int)).len(),
                    forall|m: int| 0 <= m < placements@.len()
                        ==> (#[trigger] placements@[m]).pos@ == mutations_of(acts.subrange(
                        0, j as int))[m].0@ && block_is_parsed(placements@[m].block, mutations_of(
                        acts.subrange(0, j as int))[m].1),
                    checks@.len() == checks_of(acts.subrange(0, j as int)).len(),
                    forall|m: int| 0 <= m < checks@.len() ==> (#[trigger] checks@[m]).pos@
                        == checks_of(acts.subrange(0, j as int))[m].0@ && block_is_parsed(
                        checks@[m].is, checks_of(acts.subrange(0, j as int))[m].1),
                decreases na - j,
            {
                proof {
                    assert(acts.subrange(0, j as int + 1).drop_last() =~= acts.subrange(
                        0, j as int));
                    assert(acts.subrange(0, j as int + 1).last() == acts[j as int]);
                }
                let ghost old_muts = mutations_of(acts.subrange(0, j as int));
                let ghost old_chks = checks_of(acts.subrange(0, j as int));
                assert(self.timeline@[i as int].actions@.len() == na);
                match &self.timeline[i].actions[j] {
                    RecordedAction::Place { pos, block } => {
                        let b = crate::block::make_block(block.as_str());
                        placements.push(crate::timeline::BlockPlacement { pos: *pos, block: b });
                        proof {
                            assert(mutations_of(acts.subrange(0, j as int + 1))
                                =~= old_muts.push((acts[j as int]->Place_pos, acts[
                                j as int]->Place_block@)));
                        }
                    },
                    RecordedAction::Remove { pos } => {
                        let b = crate::block::make_block("minecraft:air");
                        placements.push(crate::timeline::BlockPlacement { pos: *pos, block: b });
                        proof {
                            assert(mutations_of(acts.subrange(0, j as int + 1))
                                =~= old_muts.push((acts[j as int]->Remove_pos,
                                "minecraft:air"@)));
                        }
                    },
                    RecordedAction::Assert { pos, block } => {
                        let b = crate::block::make_block(block.as_str());
                        checks.push(crate::timeline::BlockCheck { pos: *pos, is: b });
                        proof {
                            assert(checks_of(acts.subrange(0, j as int + 1)) =~= old_chks.push(
                                (acts[j as int]->Assert_pos, acts[j as int]->Assert_block@)));
                        }
                    },
                }
                j = j + 1;
            }
            proof {
                assert(acts.subrange(0, na as int) =~= acts);
            }
            let tick = self.timeline[i].tick;
            let ghost old_entries = entries@;
            let mut fresh_count: usize = 0;
            let has_placements = placements.len() > 0;
            let has_checks = checks.len() > 0;
            let ghost fresh_start = entries@.len();
            if has_placements {
                entries.push(crate::timeline::TimelineEntry {
                    at: crate::timeline::TickSpec::Single(tick),
                    action_type: crate::timeline::ActionType::PlaceEach { blocks: placements },
                });
                fresh_count = fresh_count + 1;
            } else {
                // no mutations this step; the placement list is dropped
                let _ = placements;
            }
            if has_checks {
                entries.push(crate::timeline::TimelineEntry {
                    at: crate::timeline::TickSpec::Single(tick),
                    action_type: crate::timeline::ActionType::Assert { checks },
                });
                fresh_count = fresh_count + 1;
            } else {
                let _ = checks;
            }
            proof {
                let fresh = entries@.skip(fresh_start as int);
                lemma_gen_rel_append(self.timeline@.subrange(0, i as int), old_entries,
                    self.timeline@[i as int], fresh);
                assert(self.timeline@.subrange(0, i as int).push(self.timeline@[i as int])
                    =~= self.timeline@.subrange(0, i as int + 1));
                assert(old_entries + fresh =~= entries@);
            }
            i = i + 1;
        }
        proof {
            assert(self.timeline@.subrange(0, ns as int) =~= self.timeline@);
        }
        crate::timeline::TestSpec {
            name,
            tags,
            cleanup_region,
            timeline: entries,
            breakpoints: Vec::new(),
        }
    }
}

/// Replaces every directory slash in a recording's name.
fn slashes_to_underscores(s: &str) -> (r: String)
    ensures
        r@.len() == s@.len(),
        forall|j: int| 0 <= j < s@.len() ==> r@[j] == (if s@[j] == '/' {
            '_'
        } else {
            s@[j]
        }),
{
    let n = s.unicode_len();
    let mut r = String::new();
    let mut i: usize = 0;
    while i < n
        invariant
            n == s@.len(),
            i <= n,
            r@.len() == i,
            forall|j: int| 0 <= j < i ==> r@[j] == (if s@[j] == '/' {
                '_'
            } else {
                s@[j]
            }),
        decreases n - i,
    {
        let c = s.get_char(i);
        if c == '/' {
            crate::strutil::push_char(&mut r, '_');
        } else {
            crate::strutil::push_char(&mut r, c);
        }
        i = i + 1;
    }
    r
}

} // verus!
