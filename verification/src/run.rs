//! The run state machine: per-test bookkeeping for a parallel run over
//! the merged timeline.  The caller performs the I/O — sending commands,
//! reading blocks, waiting — and asks this machine for every decision:
//! which item to dispatch next, which tests to clean, whether to gate,
//! and how far to advance the tick counter.

use vstd::prelude::*;
use crate::actions::{ActionOutcome, FailureDetail};
use crate::strutil::dec_str_nat;
use crate::timeline::{ScheduledItem, TestSpec, TimelineAggregate};

verus! {

/// Bookkeeping for one test during a run.
pub struct TestState {
    pub passed: u64,
    pub failed: u64,
    pub first_failure: Option<FailureDetail>,
    pub cleaned: bool,
    pub cleanup_count: u32,
}

/// One test's reported result.
pub struct TestResult {
    pub test_name: String,
    pub success: bool,
    pub failure_reason: Option<String>,
}

/// Output from a test run, including results and failure details.
pub struct TestRunOutput {
    pub results: Vec<TestResult>,
    /// First failure detail per failed test: (test name, failure detail).
    pub failures: Vec<(String, FailureDetail)>,
}

/// How to advance the tick counter next.
pub enum Advance {
    /// Advance a single tick, verifying through the game-time oracle.
    Step,
    /// Sprint this many ticks at once.
    Sprint(u32),
    /// The tick loop is over.
    Done,
}

/// The state of one run.
pub struct RunState {
    pub fail_fast: bool,
    pub current_tick: u32,
    pub stepping: bool,
    pub frozen: bool,
    pub halted: bool,
    pub finished: bool,
    pub tick_items: Vec<ScheduledItem>,
    pub item_pos: usize,
    pub tests: Vec<TestState>,
}

impl RunState {
    /// Structural soundness of a run state.
    pub open spec fn inv(self) -> bool {
        &&& self.item_pos <= self.tick_items@.len()
        &&& self.halted ==> self.fail_fast
        &&& self.finished ==> !self.frozen
        &&& self.finished ==> forall|i: int| 0 <= i < self.tests@.len()
            ==> (#[trigger] self.tests@[i]).cleaned
        &&& forall|i: int| 0 <= i < self.tests@.len()
            ==> ((#[trigger] self.tests@[i]).cleaned <==> self.tests@[i].cleanup_count == 1)
            && self.tests@[i].cleanup_count <= 1
    }

    /// Every test with a non-zero counter was touched by an item already
    /// processed from the current tick's list.  This holds from the
    /// start of a run through the first dispatched tick.
    pub open spec fn counters_from_current_tick(self) -> bool {
        forall|i: int| 0 <= i < self.tests@.len() && ((#[trigger] self.tests@[i]).passed > 0
            || self.tests@[i].failed > 0) ==> exists|p: int|
            0 <= p < self.item_pos && (#[trigger] self.tick_items@[p]).test_idx == i
    }

    /// A fresh run: frozen, at tick zero, nothing dispatched, nothing
    /// counted, nothing cleaned.
    pub fn start_run(n: usize, fail_fast: bool) -> (r: RunState)
        ensures
            r.inv(),
            r.fail_fast == fail_fast,
            r.current_tick == 0,
            !r.stepping,
            r.frozen,
            !r.halted,
            !r.finished,
            r.tick_items@.len() == 0,
            r.item_pos == 0,
            r.tests@.len() == n,
            forall|i: int| 0 <= i < n ==> (#[trigger] r.tests@[i]).passed == 0
                && r.tests@[i].failed == 0 && r.tests@[i].first_failure is None
                && !r.tests@[i].cleaned && r.tests@[i].cleanup_count == 0,
            r.counters_from_current_tick(),
    {
        let mut tests: Vec<TestState> = Vec::new();
        let mut i: usize = 0;
        while i < n
            invariant
                i <= n,
                tests@.len() == i,
                forall|j: int| 0 <= j < i ==> (#[trigger] tests@[j]).passed == 0
                    && tests@[j].failed == 0 && tests@[j].first_failure is None
                    && !tests@[j].cleaned && tests@[j].cleanup_count == 0,
            decreases n - i,
        {
            tests.push(TestState {
                passed: 0,
                failed: 0,
                first_failure: None,
                cleaned: false,
                cleanup_count: 0,
            });
            i = i + 1;
        }
        RunState {
            fail_fast,
            current_tick: 0,
            stepping: false,
            frozen: true,
            halted: false,
            finished: false,
            tick_items: Vec::new(),
            item_pos: 0,
            tests,
        }
    }

    /// Loads the work of the current tick; the caller hands the item
    /// list the aggregate gives for this tick, or an empty one.
    pub fn begin_tick(&mut self, items: &Vec<ScheduledItem>)
        requires
            old(self).inv(),
            !old(self).finished,
        ensures
            final(self).inv(),
            final(self).tick_items@ == items@,
            final(self).item_pos == 0,
            final(self).fail_fast == old(self).fail_fast,
            final(self).current_tick == old(self).current_tick,
            final(self).stepping == old(self).stepping,
            final(self).frozen == old(self).frozen,
            final(self).halted == old(self).halted,
            final(self).finished == old(self).finished,
            final(self).tests@ == old(self).tests@,
            (forall|i: int| 0 <= i < old(self).tests@.len()
                ==> (#[trigger] old(self).tests@[i]).passed == 0 && old(self).tests@[i].failed
                == 0) ==> final(self).counters_from_current_tick(),
    {
        let n = items.len();
        let mut copy: Vec<ScheduledItem> = Vec::new();
        let mut k: usize = 0;
        while k < n
            invariant
                n == items@.len(),
                k <= n,
                copy@ =~= items@.subrange(0, k as int),
            decreases n - k,
        {
            copy.push(items[k]);
            assert(copy@ =~= items@.subrange(0, k as int + 1));
            k = k + 1;
        }
        assert(copy@ =~= items@);
        self.tick_items = copy;
        self.item_pos = 0;
    }

    /// The next item to dispatch, if dispatching may go on.
    pub fn next_item(&self) -> (r: Option<ScheduledItem>)
        requires
            self.inv(),
        ensures
            match r {
                Some(it) => !self.halted && self.item_pos < self.tick_items@.len() && it
                    == self.tick_items@[self.item_pos as int],
                None => self.halted || self.item_pos >= self.tick_items@.len(),
            },
    {
        if self.halted || self.item_pos >= self.tick_items.len() {
            None
        } else {
            Some(self.tick_items[self.item_pos])
        }
    }

    /// Records what dispatching the current item yielded: a passed
    /// assertion counts, a failed one counts and keeps its first detail,
    /// a plain action leaves the counters alone.  With fail-fast on, a
    /// failure halts all further dispatch.
    pub fn record_outcome(&mut self, outcome: ActionOutcome)
        requires
            old(self).inv(),
            !old(self).finished,
            !old(self).halted,
            old(self).item_pos < old(self).tick_items@.len(),
            old(self).tick_items@[old(self).item_pos as int].test_idx < old(self).tests@.len(),
            old(self).tests@[old(self).tick_items@[old(self).item_pos as int].test_idx as int]
                .passed < u64::MAX,
            old(self).tests@[old(self).tick_items@[old(self).item_pos as int].test_idx as int]
                .failed < u64::MAX,
        ensures
            final(self).inv(),
            ({
                let t = old(self).tick_items@[old(self).item_pos as int].test_idx as int;
                let was = old(self).tests@[t];
                let now = final(self).tests@[t];
                &&& final(self).item_pos == old(self).item_pos + 1
                &&& final(self).tick_items@ == old(self).tick_items@
                &&& final(self).current_tick == old(self).current_tick
                &&& final(self).stepping == old(self).stepping
                &&& final(self).frozen == old(self).frozen
                &&& final(self).finished == old(self).finished
                &&& final(self).fail_fast == old(self).fail_fast
                &&& final(self).tests@.len() == old(self).tests@.len()
                &&& forall|j: int| 0 <= j < old(self).tests@.len() && j != t
                    ==> final(self).tests@[j] == old(self).tests@[j]
                &&& now.cleaned == was.cleaned && now.cleanup_count == was.cleanup_count
                &&& match outcome {
                    ActionOutcome::Action => now == was && !final(self).halted,
                    ActionOutcome::AssertPassed => now.passed == was.passed + 1 && now.failed
                        == was.failed && now.first_failure == was.first_failure && !final(
                        self).halted,
                    ActionOutcome::AssertFailed(d) => now.passed == was.passed && now.failed
                        == was.failed + 1 && now.first_failure == (if was.first_failure
                        is Some {
                        was.first_failure
                    } else {
                        Some(d)
                    }) && final(self).halted == old(self).fail_fast,
                }
            }),
            old(self).counters_from_current_tick() ==> final(self).counters_from_current_tick(),
    {
        let ghost pre = *self;
        let t = self.tick_items[self.item_pos].test_idx;
        let mut ts = self.tests.remove(t);
        match outcome {
            ActionOutcome::Action => {},
            ActionOutcome::AssertPassed => {
                ts.passed = ts.passed + 1;
            },
            ActionOutcome::AssertFailed(d) => {
                ts.failed = ts.failed + 1;
                if ts.first_failure.is_none() {
                    ts.first_failure = Some(d);
                }
                if self.fail_fast {
                    self.halted = true;
                }
            },
        }
        self.tests.insert(t, ts);
        let cap = self.tick_items.len();
        assert(self.item_pos < cap);
        self.item_pos = self.item_pos + 1;
        proof {
            assert(self.tests@ =~= pre.tests@.update(
                pre.tick_items@[pre.item_pos as int].test_idx as int, self.tests@[
                pre.tick_items@[pre.item_pos as int].test_idx as int]));
            if pre.counters_from_current_tick() {
                let tt = pre.tick_items@[pre.item_pos as int].test_idx as int;
                assert forall|i: int| 0 <= i < self.tests@.len() && ((#[trigger] self.tests@[
                    i]).passed > 0 || self.tests@[i].failed > 0) implies exists|p: int|
                    0 <= p < self.item_pos && (#[trigger] self.tick_items@[p]).test_idx
                    == i by {
                    if i == tt {
                        assert((self.tick_items@[pre.item_pos as int]).test_idx == i);
                    } else {
                        assert(self.tests@[i] == pre.tests@[i]);
                        let p = choose|p: int| 0 <= p < pre.item_pos
                            && (#[trigger] pre.tick_items@[p]).test_idx == i;
                        assert((self.tick_items@[p]).test_idx == i);
                    }
                }
            }
        }
    }

    /// Records a dispatch error against a test: it counts as a failure
    /// without a stored detail, and halts dispatch under fail-fast.
    pub fn record_error(&mut self)
        requires
            old(self).inv(),
            !old(self).finished,
            !old(self).halted,
            old(self).item_pos < old(self).tick_items@.len(),
            old(self).tick_items@[old(self).item_pos as int].test_idx < old(self).tests@.len(),
            old(self).tests@[old(self).tick_items@[old(self).item_pos as int].test_idx as int]
                .failed < u64::MAX,
        ensures
            final(self).inv(),
            ({
                let t = old(self).tick_items@[old(self).item_pos as int].test_idx as int;
                let was = old(self).tests@[t];
                let now = final(self).tests@[t];
                &&& final(self).item_pos == old(self).item_pos + 1
                &&& final(self).tick_items@ == old(self).tick_items@
                &&& final(self).current_tick == old(self).current_tick
                &&& final(self).stepping == old(self).stepping
                &&& final(self).frozen == old(self).frozen
                &&& final(self).finished == old(self).finished
                &&& final(self).fail_fast == old(self).fail_fast
                &&& final(self).tests@.len() == old(self).tests@.len()
                &&& forall|j: int| 0 <= j < old(self).tests@.len() && j != t
                    ==> final(self).tests@[j] == old(self).tests@[j]
                &&& now.passed == was.passed && now.failed == was.failed + 1
                    && now.first_failure == was.first_failure && now.cleaned == was.cleaned
                    && now.cleanup_count == was.cleanup_count
                &&& final(self).halted == old(self).fail_fast
            }),
            old(self).counters_from_current_tick() ==> final(self).counters_from_current_tick(),
    {
        let ghost pre = *self;
        let t = self.tick_items[self.item_pos].test_idx;
        let mut ts = self.tests.remove(t);
        ts.failed = ts.failed + 1;
        if self.fail_fast {
            self.halted = true;
        }
        self.tests.insert(t, ts);
        let cap = self.tick_items.len();
        assert(self.item_pos < cap);
        self.item_pos = self.item_pos + 1;
        proof {
            let tt = pre.tick_items@[pre.item_pos as int].test_idx as int;
            assert(self.tests@ =~= pre.tests@.update(tt, self.tests@[tt]));
            if pre.counters_from_current_tick() {
                assert forall|i: int| 0 <= i < self.tests@.len() && ((#[trigger] self.tests@[
                    i]).passed > 0 || self.tests@[i].failed > 0) implies exists|p: int|
                    0 <= p < self.item_pos && (#[trigger] self.tick_items@[p]).test_idx
                    == i by {
                    if i == tt {
                        assert((self.tick_items@[pre.item_pos as int]).test_idx == i);
                    } else {
                        assert(self.tests@[i] == pre.tests@[i]);
                        let p = choose|p: int| 0 <= p < pre.item_pos
                            && (#[trigger] pre.tick_items@[p]).test_idx == i;
                        assert((self.tick_items@[p]).test_idx == i);
                    }
                }
            }
        }
    }

    /// The tests whose work is over and whose region is still standing:
    /// those are cleaned now, promptly reclaiming their world area.
    pub fn cleanup_due(&self, test_max_ticks: &Vec<u32>) -> (r: Vec<usize>)
        requires
            self.inv(),
            test_max_ticks@.len() == self.tests@.len(),
        ensures
            forall|k: int| 0 <= k < r@.len() ==> (#[trigger] r@[k]) < self.tests@.len()
                && !self.tests@[r@[k] as int].cleaned && self.current_tick > test_max_ticks@[
                r@[k] as int],
            forall|i: int| 0 <= i < self.tests@.len() && !(#[trigger] self.tests@[i]).cleaned
                && self.current_tick > test_max_ticks@[i] ==> r@.contains(i as usize),
    {
        let n = self.tests.len();
        let mut r: Vec<usize> = Vec::new();
        let mut i: usize = 0;
        while i < n
            invariant
                n == self.tests@.len(),
                test_max_ticks@.len() == n,
                i <= n,
                forall|k: int| 0 <= k < r@.len() ==> (#[trigger] r@[k]) < n
                    && !self.tests@[r@[k] as int].cleaned && self.current_tick
                    > test_max_ticks@[r@[k] as int],
                forall|j: int| 0 <= j < i && !(#[trigger] self.tests@[j]).cleaned
                    && self.current_tick > test_max_ticks@[j] ==> r@.contains(j as usize),
            decreases n - i,
        {
            if !self.tests[i].cleaned && self.current_tick > test_max_ticks[i] {
                let ghost oldr = r@;
                r.push(i);
                proof {
                    assert(r@[r@.len() - 1] == i);
                    assert forall|j: int| 0 <= j < i + 1 && !(#[trigger] self.tests@[
                        j]).cleaned && self.current_tick > test_max_ticks@[j] implies
                        r@.contains(j as usize) by {
                        if j < i {
                            let k = choose|k: int| 0 <= k < oldr.len() && oldr[k] == j as usize;
                            assert(r@[k] == j as usize);
                        } else {
                            assert(r@[r@.len() - 1] == j as usize);
                        }
                    }
                }
            }
            i = i + 1;
        }
        r
    }

    /// All tests not yet cleaned; the defensive end-of-run pass.
    pub fn remaining_cleanups(&self) -> (r: Vec<usize>)
        requires
            self.inv(),
        ensures
            forall|k: int| 0 <= k < r@.len() ==> (#[trigger] r@[k]) < self.tests@.len()
                && !self.tests@[r@[k] as int].cleaned,
            forall|i: int| 0 <= i < self.tests@.len() && !(#[trigger] self.tests@[i]).cleaned
                ==> r@.contains(i as usize),
    {
        let n = self.tests.len();
        let mut r: Vec<usize> = Vec::new();
        let mut i: usize = 0;
        while i < n
            invariant
                n == self.tests@.len(),
                i <= n,
                forall|k: int| 0 <= k < r@.len() ==> (#[trigger] r@[k]) < n
                    && !self.tests@[r@[k] as int].cleaned,
                forall|j: int| 0 <= j < i && !(#[trigger] self.tests@[j]).cleaned
                    ==> r@.contains(j as usize),
            decreases n - i,
        {
            if !self.tests[i].cleaned {
                let ghost oldr = r@;
                r.push(i);
                proof {
                    assert(r@[r@.len() - 1] == i);
                    assert forall|j: int| 0 <= j < i + 1 && !(#[trigger] self.tests@[
                        j]).cleaned implies r@.contains(j as usize) by {
                        if j < i {
                            let k = choose|k: int| 0 <= k < oldr.len() && oldr[k] == j as usize;
                            assert(r@[k] == j as usize);
                        } else {
                            assert(r@[r@.len() - 1] == j as usize);
                        }
                    }
                }
            }
            i = i + 1;
        }
        r
    }

    /// Marks one test's region as cleaned; a region is cleaned at most
    /// once per run, so the test must not be marked already.
    pub fn mark_cleaned(&mut self, i: usize)
        requires
            old(self).inv(),
            i < old(self).tests@.len(),
            !old(self).tests@[i as int].cleaned,
            !old(self).finished,
        ensures
            final(self).inv(),
            final(self).tests@.len() == old(self).tests@.len(),
            forall|j: int| 0 <= j < old(self).tests@.len() && j != i
                ==> final(self).tests@[j] == old(self).tests@[j],
            final(self).tests@[i as int].cleaned,
            final(self).tests@[i as int].cleanup_count == old(self).tests@[
                i as int].cleanup_count + 1,
            final(self).tests@[i as int].passed == old(self).tests@[i as int].passed,
            final(self).tests@[i as int].failed == old(self).tests@[i as int].failed,
            final(self).tests@[i as int].first_failure == old(self).tests@[
                i as int].first_failure,
            final(self).fail_fast == old(self).fail_fast,
            final(self).current_tick == old(self).current_tick,
            final(self).stepping == old(self).stepping,
            final(self).frozen == old(self).frozen,
            final(self).halted == old(self).halted,
            final(self).finished == old(self).finished,
            final(self).tick_items@ == old(self).tick_items@,
            final(self).item_pos == old(self).item_pos,
    {
        let ghost pre = *self;
        let mut ts = self.tests.remove(i);
        ts.cleaned = true;
        ts.cleanup_count = ts.cleanup_count + 1;
        self.tests.insert(i, ts);
        proof {
            assert(self.tests@ =~= pre.tests@.update(i as int, self.tests@[i as int]));
        }
    }

    /// Whether to pause at the end of this tick: at a named breakpoint,
    /// or at every tick while stepping.
    pub fn gate_needed(&self, agg: &TimelineAggregate) -> (r: bool)
        ensures
            r == (agg.breakpoints@.contains(self.current_tick) || self.stepping),
    {
        agg.is_breakpoint(self.current_tick) || self.stepping
    }

    /// Applies the user's gate decision: stepping persists until the
    /// user asks to continue.
    pub fn apply_gate_decision(&mut self, continue_requested: bool)
        requires
            old(self).inv(),
        ensures
            final(self).inv(),
            final(self).stepping == !continue_requested,
            *final(self) == (RunState { stepping: !continue_requested, ..*old(self) }),
    {
        self.stepping = !continue_requested;
    }

    /// How far to advance: one verified step while stepping, else a
    /// sprint to the next event (or to the last tick when no event lies
    /// between), and nothing once the loop is over.
    pub fn advance_decision(&self, agg: &TimelineAggregate) -> (r: Advance)
        requires
            self.inv(),
        ensures
            match r {
                Advance::Done => self.halted || self.current_tick >= agg.max_tick,
                Advance::Step => !self.halted && self.current_tick < agg.max_tick && (
                self.stepping || sprint_span_ok(*agg, self.current_tick, 1)),
                Advance::Sprint(n) => !self.halted && !self.stepping && self.current_tick
                    < agg.max_tick && n >= 2 && sprint_span_ok(*agg, self.current_tick, n as int),
            },
    {
        if self.halted || self.current_tick >= agg.max_tick {
            return Advance::Done;
        }
        if self.stepping {
            return Advance::Step;
        }
        let next = agg.next_event_tick(self.current_tick);
        let target: u32 = match next {
            Some(t) => if t <= agg.max_tick {
                t
            } else {
                agg.max_tick
            },
            None => agg.max_tick,
        };
        let n = target - self.current_tick;
        assert(sprint_span_ok(*agg, self.current_tick, n as int));
        if n == 1 {
            Advance::Step
        } else {
            Advance::Sprint(n)
        }
    }

    /// Moves the tick counter by what the decision said.
    pub fn apply_advance(&mut self, adv: Advance)
        requires
            old(self).inv(),
            match adv {
                Advance::Step => old(self).current_tick < u32::MAX,
                Advance::Sprint(n) => old(self).current_tick + n <= u32::MAX,
                Advance::Done => true,
            },
        ensures
            final(self).inv(),
            final(self).current_tick == (match adv {
                Advance::Step => old(self).current_tick + 1,
                Advance::Sprint(n) => old(self).current_tick + n,
                Advance::Done => old(self).current_tick as int,
            }),
            *final(self) == (RunState { current_tick: final(self).current_tick, ..*old(self) }),
    {
        match adv {
            Advance::Step => {
                self.current_tick = self.current_tick + 1;
            },
            Advance::Sprint(n) => {
                self.current_tick = self.current_tick + n;
            },
            Advance::Done => {},
        }
    }

    /// Leaves the frozen state; the caller issues the unfreeze command
    /// alongside.
    pub fn unfreeze(&mut self)
        requires
            old(self).inv(),
        ensures
            final(self).inv(),
            !final(self).frozen,
            *final(self) == (RunState { frozen: false, ..*old(self) }),
    {
        self.frozen = false;
    }

    /// Ends the run.  Every region must have been cleaned, and the
    /// freeze must have been lifted: a run always leaves the server
    /// unfrozen, however it went.
    pub fn finish_run(&mut self)
        requires
            old(self).inv(),
            !old(self).frozen,
            forall|i: int| 0 <= i < old(self).tests@.len()
                ==> (#[trigger] old(self).tests@[i]).cleaned,
        ensures
            final(self).inv(),
            final(self).finished,
            !final(self).frozen,
            *final(self) == (RunState { finished: true, ..*old(self) }),
    {
        self.finished = true;
    }
}

/// Whether a sprint of `n` ticks from `cur` is sound: it stays within
/// the timeline, skips no event, and lands on an event or the last tick.
pub open spec fn sprint_span_ok(agg: TimelineAggregate, cur: u32, n: int) -> bool {
    &&& n >= 1
    &&& cur + n <= agg.max_tick
    &&& forall|t: u32| cur < t < cur + n ==> !agg.is_event(t)
    &&& (agg.is_event((cur + n) as u32) || cur + n == agg.max_tick)
}

/// Law: a finished run has cleaned every test's region exactly once.
pub proof fn lemma_one_cleanup_per_test(s: RunState)
    requires
        s.inv(),
        s.finished,
    ensures
        forall|i: int| 0 <= i < s.tests@.len() ==> (#[trigger] s.tests@[i]).cleanup_count == 1,
{
}

/// Law: a finished run leaves the tick driver unfrozen, whether the run
/// succeeded or failed.
pub proof fn lemma_finished_run_unfrozen(s: RunState)
    requires
        s.inv(),
        s.finished,
    ensures
        !s.frozen,
{
}

/// Law (fail-fast): when the items of a tick are ordered by test index —
/// as the canonical schedule orders them — and every counted outcome so
/// far came from this tick's processed prefix, then once the machine has
/// halted on a failure, every test beyond the last dispatched test's
/// index still has all-zero counters.
pub proof fn lemma_fail_fast_bounds_counters(s: RunState)
    requires
        s.inv(),
        s.counters_from_current_tick(),
        forall|a: int, b: int| 0 <= a < b < s.tick_items@.len()
            ==> (#[trigger] s.tick_items@[a]).test_idx <= (#[trigger] s.tick_items@[b]).test_idx,
        s.item_pos > 0,
    ensures
        forall|j: int| (s.tick_items@[s.item_pos - 1].test_idx as int) < j < s.tests@.len()
            ==> (#[trigger] s.tests@[j]).passed == 0 && s.tests@[j].failed == 0,
{
    let last = s.tick_items@[s.item_pos - 1].test_idx as int;
    assert forall|j: int| last < j < s.tests@.len() implies (#[trigger] s.tests@[j]).passed
        == 0 && s.tests@[j].failed == 0 by {
        if s.tests@[j].passed > 0 || s.tests@[j].failed > 0 {
            let p = choose|p: int| 0 <= p < s.item_pos && (#[trigger] s.tick_items@[
                p]).test_idx == j;
            if p < s.item_pos - 1 {
                assert(s.tick_items@[p].test_idx <= s.tick_items@[s.item_pos - 1].test_idx);
            }
        }
    }
}

/// The canonical schedule lists a tick's items in order of test index.
pub proof fn lemma_sched_ordered_by_test(
    tests: Seq<(TestSpec, [i32; 3])>,
    i: int,
    t: u32,
)
    requires
        0 <= i,
    ensures
        forall|a: int, b: int| 0 <= a < b < crate::timeline::sched_at(tests, i, t).len()
            ==> (#[trigger] crate::timeline::sched_at(tests, i, t)[a]).0
            <= (#[trigger] crate::timeline::sched_at(tests, i, t)[b]).0,
        forall|a: int| 0 <= a < crate::timeline::sched_at(tests, i, t).len()
            ==> (#[trigger] crate::timeline::sched_at(tests, i, t)[a]).0 >= i,
    decreases tests.len() - i,
{
    if i < tests.len() {
        lemma_sched_ordered_by_test(tests, i + 1, t);
        lemma_sched_test_idx_fixed(tests[i].0.timeline@, i, 0, t);
        let own = crate::timeline::sched_test_at(tests[i].0.timeline@, i, 0, t);
        let rest = crate::timeline::sched_at(tests, i + 1, t);
        let whole = crate::timeline::sched_at(tests, i, t);
        assert(whole == own + rest);
        assert forall|a: int| 0 <= a < whole.len() implies (#[trigger] whole[a]).0 >= i by {
            if a < own.len() {
                assert(whole[a] == own[a]);
            } else {
                assert(whole[a] == rest[a - own.len()]);
            }
        }
        assert forall|a: int, b: int| 0 <= a < b < whole.len() implies (#[trigger] whole[a]).0
            <= (#[trigger] whole[b]).0 by {
            if a < own.len() && b < own.len() {
                assert(whole[a] == own[a] && whole[b] == own[b]);
            } else if a < own.len() {
                assert(whole[a] == own[a]);
                assert(whole[b] == rest[b - own.len()]);
            } else {
                assert(whole[a] == rest[a - own.len()]);
                assert(whole[b] == rest[b - own.len()]);
            }
        }
    }
}

/// Every item a test's own schedule lists names that test.
proof fn lemma_sched_test_idx_fixed(
    tl: Seq<crate::timeline::TimelineEntry>,
    i: int,
    j: int,
    t: u32,
)
    ensures
        forall|a: int| 0 <= a < crate::timeline::sched_test_at(tl, i, j, t).len()
            ==> (#[trigger] crate::timeline::sched_test_at(tl, i, j, t)[a]).0 == i,
    decreases tl.len() - j,
{
    if 0 <= j < tl.len() {
        lemma_sched_test_idx_fixed(tl, i, j + 1, t);
        lemma_entry_items_idx_fixed(crate::timeline::entry_ticks(tl[j]), i, j, t, 0);
        let own = crate::timeline::entry_items_at(crate::timeline::entry_ticks(tl[j]), i, j, t, 0);
        let rest = crate::timeline::sched_test_at(tl, i, j + 1, t);
        let whole = crate::timeline::sched_test_at(tl, i, j, t);
        assert(whole == own + rest);
        assert forall|a: int| 0 <= a < whole.len() implies (#[trigger] whole[a]).0 == i by {
            if a < own.len() {
                assert(whole[a] == own[a]);
            } else {
                assert(whole[a] == rest[a - own.len()]);
            }
        }
    }
}

proof fn lemma_entry_items_idx_fixed(tks: Seq<u32>, i: int, j: int, t: u32, p: int)
    ensures
        forall|a: int| 0 <= a < crate::timeline::entry_items_at(tks, i, j, t, p).len()
            ==> (#[trigger] crate::timeline::entry_items_at(tks, i, j, t, p)[a]).0 == i,
    decreases tks.len() - p,
{
    if 0 <= p < tks.len() {
        lemma_entry_items_idx_fixed(tks, i, j, t, p + 1);
        let head: Seq<(int, int, int)> = if tks[p] == t {
            seq![(i, j, p)]
        } else {
            Seq::empty()
        };
        let rest = crate::timeline::entry_items_at(tks, i, j, t, p + 1);
        let whole = crate::timeline::entry_items_at(tks, i, j, t, p);
        assert(whole == head + rest);
        assert forall|a: int| 0 <= a < whole.len() implies (#[trigger] whole[a]).0 == i by {
            if a < head.len() {
                assert(whole[a] == head[a]);
            } else {
                assert(whole[a] == rest[a - head.len()]);
            }
        }
    }
}



/// Law (fail-fast, composed): at the first dispatched tick of a run over
/// a faithful aggregate — where every counted outcome came from the
/// current tick's processed prefix — every test beyond the last
/// dispatched one still has all-zero counters.  With fail-fast on, the
/// first failure halts dispatch, so this bounds the touched tests by the
/// failing test's index.
pub proof fn lemma_fail_fast_first_tick(
    s: RunState,
    agg: TimelineAggregate,
    tests: Seq<(TestSpec, [i32; 3])>,
    g: int,
)
    requires
        s.inv(),
        s.counters_from_current_tick(),
        agg.wf(tests),
        0 <= g < agg.timeline@.len(),
        s.tick_items@ == agg.timeline@[g].items@,
        s.item_pos > 0,
    ensures
        forall|j: int| (s.tick_items@[s.item_pos - 1].test_idx as int) < j < s.tests@.len()
            ==> (#[trigger] s.tests@[j]).passed == 0 && s.tests@[j].failed == 0,
{
    lemma_group_items_ordered(agg, tests, g);
    lemma_fail_fast_bounds_counters(s);
}

/// In a faithful aggregate, every tick's item list is ordered by test
/// index, as the fail-fast law assumes.
pub proof fn lemma_group_items_ordered(
    agg: TimelineAggregate,
    tests: Seq<(TestSpec, [i32; 3])>,
    g: int,
)
    requires
        agg.wf(tests),
        0 <= g < agg.timeline@.len(),
    ensures
        forall|a: int, b: int| 0 <= a < b < agg.timeline@[g].items@.len()
            ==> (#[trigger] agg.timeline@[g].items@[a]).test_idx
            <= (#[trigger] agg.timeline@[g].items@[b]).test_idx,
{
    let items = agg.timeline@[g].items@;
    let iv = crate::timeline::items_view(items);
    lemma_sched_ordered_by_test(tests, 0, agg.timeline@[g].tick);
    assert forall|a: int, b: int| 0 <= a < b < items.len() implies (#[trigger] items[
        a]).test_idx <= (#[trigger] items[b]).test_idx by {
        assert(iv[a] == crate::timeline::item_view(items[a]));
        assert(iv[b] == crate::timeline::item_view(items[b]));
        assert(iv[a].0 <= iv[b].0);
    }
}

/// The per-test latest scheduled ticks, in test order.
pub fn test_max_ticks(tests: &Vec<(TestSpec, [i32; 3])>) -> (r: Vec<u32>)
    ensures
        r@.len() == tests@.len(),
        forall|i: int| 0 <= i < tests@.len() ==> r@[i] == crate::timeline::test_max_tick_spec(
            (#[trigger] tests@[i]).0),
{
    let n = tests.len();
    let mut r: Vec<u32> = Vec::new();
    let mut i: usize = 0;
    while i < n
        invariant
            n == tests@.len(),
            i <= n,
            r@.len() == i,
            forall|j: int| 0 <= j < i ==> r@[j] == crate::timeline::test_max_tick_spec(
                (#[trigger] tests@[j]).0),
        decreases n - i,
    {
        let m = tests[i].0.max_tick();
        r.push(m);
        i = i + 1;
    }
    r
}

/// The rendering of one test's failure count for its report line.
pub open spec fn failure_reason_spec(failed: u64) -> Seq<char> {
    dec_str_nat(failed as int) + " assertions failed"@
}

/// The failure details of a finished run, in test order.
pub open spec fn failures_from(
    ts: Seq<TestState>,
    tests: Seq<(TestSpec, [i32; 3])>,
    i: int,
) -> Seq<(Seq<char>, FailureDetail)>
    decreases ts.len() - i,
{
    if i < 0 || i >= ts.len() || ts.len() != tests.len() {
        Seq::empty()
    } else {
        (match ts[i].first_failure {
            Some(d) => seq![(tests[i].0.name@, d)],
            None => Seq::empty(),
        }) + failures_from(ts, tests, i + 1)
    }
}

impl RunState {
    /// Assembles the run's report: one result per test — a test passed
    /// exactly when none of its assertions failed — and the first
    /// failure detail of every failed test.
    pub fn into_output(self, tests: &Vec<(TestSpec, [i32; 3])>) -> (r: TestRunOutput)
        requires
            self.inv(),
            self.finished,
            tests@.len() == self.tests@.len(),
        ensures
            r.results@.len() == tests@.len(),
            forall|i: int| 0 <= i < tests@.len() ==> {
                let res = #[trigger] r.results@[i];
                &&& res.test_name@ == tests@[i].0.name@
                &&& res.success == (self.tests@[i].failed == 0)
                &&& match res.failure_reason {
                    Some(m) => self.tests@[i].failed > 0 && m@ == failure_reason_spec(
                        self.tests@[i].failed),
                    None => self.tests@[i].failed == 0,
                }
            },
            Seq::new(r.failures@.len(), |k: int| (r.failures@[k].0@, r.failures@[k].1))
                == failures_from(self.tests@, tests@, 0),
    {
        let ghost tsv = self.tests@;
        let n = tests.len();
        let mut results: Vec<TestResult> = Vec::new();
        let mut failures: Vec<(String, FailureDetail)> = Vec::new();
        let mut own = self.tests;
        let mut i: usize = 0;
        proof {
            assert(Seq::new(failures@.len(), |k: int| (failures@[k].0@, failures@[k].1))
                + failures_from(tsv, tests@, 0) =~= failures_from(tsv, tests@, 0));
        }
        while i < n
            invariant
                n == tests@.len(),
                tsv.len() == n,
                own@ =~= tsv.skip(i as int),
                i <= n,
                results@.len() == i,
                forall|j: int| 0 <= j < i ==> {
                    let res = #[trigger] results@[j];
                    &&& res.test_name@ == tests@[j].0.name@
                    &&& res.success == (tsv[j].failed == 0)
                    &&& match res.failure_reason {
                        Some(m) => tsv[j].failed > 0 && m@ == failure_reason_spec(tsv[j].failed),
                        None => tsv[j].failed == 0,
                    }
                },
                failures_from(tsv, tests@, 0) =~= Seq::new(
                    failures@.len(), |k: int| (failures@[k].0@, failures@[k].1)) + failures_from(
                    tsv, tests@, i as int),
            decreases n - i,
        {
            let ts = own.remove(0);
            proof {
                assert(tsv.skip(i as int)[0] == tsv[i as int]);
                assert(own@ =~= tsv.skip(i as int + 1));
            }
            let name = crate::strutil::substring_copy(
                tests[i].0.name.as_str(), 0, tests[i].0.name.as_str().unicode_len());
            assert(name@ =~= tests@[i as int].0.name@);
            let success = ts.failed == 0;
            let failure_reason: Option<String> = if success {
                None
            } else {
                let mut m = crate::strutil::u64_to_string(ts.failed);
                m.append(" assertions failed");
                assert(m@ =~= failure_reason_spec(tsv[i as int].failed));
                Some(m)
            };
            results.push(TestResult { test_name: name, success, failure_reason });
            let ghost old_f = failures@;
            match ts.first_failure {
                Some(d) => {
                    let name2 = crate::strutil::substring_copy(
                        tests[i].0.name.as_str(), 0, tests[i].0.name.as_str().unicode_len());
                    assert(name2@ =~= tests@[i as int].0.name@);
                    failures.push((name2, d));
                    proof {
                        assert(Seq::new(
                            failures@.len(), |k: int| (failures@[k].0@, failures@[k].1)) =~= Seq::new(
                            old_f.len(), |k: int| (old_f[k].0@, old_f[k].1)).push(
                            (tests@[i as int].0.name@, tsv[i as int].first_failure.unwrap())));
                    }
                },
                None => {},
            }
            i = i + 1;
        }
        proof {
            assert(failures_from(tsv, tests@, n as int) =~= Seq::<(Seq<char>,
                FailureDetail)>::empty());
            assert(Seq::new(failures@.len(), |k: int| (failures@[k].0@, failures@[k].1))
                =~= Seq::new(failures@.len(), |k: int| (failures@[k].0@, failures@[k].1))
                + Seq::<(Seq<char>, FailureDetail)>::empty());
        }
        TestRunOutput { results, failures }
    }
}

} // verus!
