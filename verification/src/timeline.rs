//! Timelines and their aggregation: test specifications place actions on
//! per-test tick timelines, and the aggregator merges any number of them
//! into one deterministic global schedule.

use vstd::prelude::*;
use crate::block::Block;

verus! {

/// One block placement inside a `PlaceEach` action.
pub struct BlockPlacement {
    pub pos: [i32; 3],
    pub block: Block,
}

/// One expectation inside an `Assert` action.
pub struct BlockCheck {
    pub pos: [i32; 3],
    pub is: Block,
}

/// What a timeline entry does when its tick is reached.
pub enum ActionType {
    Place { pos: [i32; 3], block: Block },
    PlaceEach { blocks: Vec<BlockPlacement> },
    Fill { region: [[i32; 3]; 2], with: Block },
    Remove { pos: [i32; 3] },
    Assert { checks: Vec<BlockCheck> },
}

/// The tick or ticks at which an entry fires.
pub enum TickSpec {
    Single(u32),
    Range(u32, u32),
    List(Vec<u32>),
}

/// One entry of a test's timeline.
pub struct TimelineEntry {
    pub at: TickSpec,
    pub action_type: ActionType,
}

/// A declarative test: a name, tags, the region to clear around it, a
/// timeline of entries, and the ticks at which to pause.
pub struct TestSpec {
    pub name: String,
    pub tags: Vec<String>,
    pub cleanup_region: [[i32; 3]; 2],
    pub timeline: Vec<TimelineEntry>,
    pub breakpoints: Vec<u32>,
}

/// The ticks a tick specification materialises to, in order.
pub open spec fn tick_spec_ticks(ts: TickSpec) -> Seq<u32> {
    match ts {
        TickSpec::Single(t) => seq![t],
        TickSpec::Range(a, b) => if a <= b {
            Seq::new((b - a + 1) as nat, |i: int| (a + i) as u32)
        } else {
            Seq::empty()
        },
        TickSpec::List(v) => v@,
    }
}

/// The ticks of one timeline entry.
pub open spec fn entry_ticks(e: TimelineEntry) -> Seq<u32> {
    tick_spec_ticks(e.at)
}

/// Largest element of a tick sequence, zero when empty.
pub open spec fn seq_max_u32(s: Seq<u32>) -> u32
    decreases s.len(),
{
    if s.len() == 0 {
        0u32
    } else {
        let m = seq_max_u32(s.drop_last());
        if s.last() > m {
            s.last()
        } else {
            m
        }
    }
}

pub proof fn lemma_seq_max_u32(s: Seq<u32>)
    ensures
        forall|j: int| 0 <= j < s.len() ==> s[j] <= seq_max_u32(s),
        s.len() > 0 ==> exists|j: int| 0 <= j < s.len() && s[j] == seq_max_u32(s),
        s.len() == 0 ==> seq_max_u32(s) == 0,
    decreases s.len(),
{
    if s.len() > 0 {
        lemma_seq_max_u32(s.drop_last());
        assert forall|j: int| 0 <= j < s.len() implies s[j] <= seq_max_u32(s) by {
            if j < s.len() - 1 {
                assert(s.drop_last()[j] == s[j]);
            }
        }
        if s.last() <= seq_max_u32(s.drop_last()) {
            if s.len() == 1 {
                assert(seq_max_u32(s) == s.last());
                assert(s[0] == s.last());
            } else {
                let j = choose|j: int|
                    0 <= j < s.len() - 1 && s.drop_last()[j] == seq_max_u32(s.drop_last());
                assert(s[j] == seq_max_u32(s));
            }
        }
    }
}

/// The largest tick of one entry.
pub open spec fn entry_max_tick(e: TimelineEntry) -> u32 {
    seq_max_u32(entry_ticks(e))
}

/// The largest tick across a test's entries, zero when it has none.
pub open spec fn test_max_tick_spec(t: TestSpec) -> u32 {
    seq_max_u32(Seq::new(t.timeline@.len(), |j: int| entry_max_tick(t.timeline@[j])))
}

/// The largest tick across all tests, zero on empty input.
pub open spec fn tests_max_tick(tests: Seq<(TestSpec, [i32; 3])>) -> u32 {
    seq_max_u32(Seq::new(tests.len(), |i: int| test_max_tick_spec(tests[i].0)))
}

impl TestSpec {
    /// The largest tick across this test's entries; zero if it has none.
    pub fn max_tick(&self) -> (r: u32)
        ensures
            r == test_max_tick_spec(*self),
    {
        let ghost em = Seq::new(
            self.timeline@.len(), |j: int| entry_max_tick(self.timeline@[j]));
        proof {
            lemma_seq_max_u32(em);
        }
        let n = self.timeline.len();
        let mut m: u32 = 0;
        let mut j: usize = 0;
        while j < n
            invariant
                n == self.timeline@.len(),
                em == Seq::new(self.timeline@.len(), |j: int| entry_max_tick(self.timeline@[j])),
                j <= n,
                m == seq_max_u32(em.subrange(0, j as int)),
            decreases n - j,
        {
            let e = entry_max_tick_exec(&self.timeline[j]);
            assert(e == em[j as int]);
            proof {
                assert(em.subrange(0, j as int + 1).drop_last() == em.subrange(0, j as int));
                assert(em.subrange(0, j as int + 1).last() == em[j as int]);
            }
            if e > m {
                m = e;
            }
            j = j + 1;
        }
        assert(em.subrange(0, n as int) == em);
        m
    }

    /// The region this test fills with air before and after running.
    pub fn cleanup_region(&self) -> (r: [[i32; 3]; 2])
        ensures
            r == self.cleanup_region,
    {
        self.cleanup_region
    }
}

/// Materialises the ticks of one entry.
pub fn entry_ticks_exec(e: &TimelineEntry) -> (r: Vec<u32>)
    ensures
        r@ == entry_ticks(*e),
{
    match &e.at {
        TickSpec::Single(t) => {
            let mut v: Vec<u32> = Vec::new();
            v.push(*t);
            assert(v@ =~= entry_ticks(*e));
            v
        },
        TickSpec::Range(a, b) => {
            let mut v: Vec<u32> = Vec::new();
            if *a <= *b {
                let ghost full = entry_ticks(*e);
                let count: u64 = (*b - *a) as u64 + 1;
                proof {
                    assert(full == Seq::new(((*b - *a) + 1) as nat, |k: int| (*a + k) as u32));
                }
                assert(full.len() == count);
                let mut i: u64 = 0;
                let mut t: u32 = *a;
                while i < count
                    invariant
                        full == entry_ticks(*e),
                        full == Seq::new(((*b - *a) + 1) as nat, |k: int| (*a + k) as u32),
                        full.len() == count,
                        count == (*b - *a) as u64 + 1,
                        *a <= *b,
                        i <= count,
                        i < count ==> t as int == *a + i,
                        v@ =~= full.subrange(0, i as int),
                    decreases count - i,
                {
                    assert(t == full[i as int]);
                    v.push(t);
                    assert(v@ =~= full.subrange(0, i as int + 1));
                    i = i + 1;
                    if i < count {
                        t = t + 1;
                    }
                }
                assert(full.subrange(0, count as int) =~= full);
            } else {
                assert(v@ =~= entry_ticks(*e));
            }
            v
        },
        TickSpec::List(list) => {
            let n = list.len();
            let mut v: Vec<u32> = Vec::new();
            let mut j: usize = 0;
            while j < n
                invariant
                    n == list@.len(),
                    j <= n,
                    v@ =~= list@.subrange(0, j as int),
                decreases n - j,
            {
                v.push(list[j]);
                assert(list@.subrange(0, j as int + 1) == list@.subrange(0, j as int).push(
                    list@[j as int]));
                j = j + 1;
            }
            assert(list@.subrange(0, n as int) == list@);
            assert(v@ =~= entry_ticks(*e));
            v
        },
    }
}

/// The largest tick of one entry.
pub fn entry_max_tick_exec(e: &TimelineEntry) -> (r: u32)
    ensures
        r == entry_max_tick(*e),
{
    let ticks = entry_ticks_exec(e);
    proof {
        lemma_seq_max_u32(entry_ticks(*e));
    }
    let n = ticks.len();
    let mut m: u32 = 0;
    let mut j: usize = 0;
    while j < n
        invariant
            n == ticks@.len(),
            ticks@ == entry_ticks(*e),
            j <= n,
            m == seq_max_u32(ticks@.subrange(0, j as int)),
        decreases n - j,
    {
        proof {
            assert(ticks@.subrange(0, j as int + 1).drop_last() == ticks@.subrange(0, j as int));
            assert(ticks@.subrange(0, j as int + 1).last() == ticks@[j as int]);
        }
        if ticks[j] > m {
            m = ticks[j];
        }
        j = j + 1;
    }
    assert(ticks@.subrange(0, n as int) == ticks@);
    m
}


/// One scheduled piece of work: which test, which of its entries, and
/// which materialised position of that entry's tick list.
#[derive(Clone, Copy)]
pub struct ScheduledItem {
    pub test_idx: usize,
    pub entry_idx: usize,
    pub value_idx: usize,
}

/// The mathematical view of one scheduled item.
pub open spec fn item_view(it: ScheduledItem) -> (int, int, int) {
    (it.test_idx as int, it.entry_idx as int, it.value_idx as int)
}

/// The mathematical view of a scheduled item list.
pub open spec fn items_view(s: Seq<ScheduledItem>) -> Seq<(int, int, int)> {
    Seq::new(s.len(), |k: int| item_view(s[k]))
}

/// All work scheduled at tick `t` by positions `p` onward of the tick
/// list `tks` of entry `j` of test `i`, in position order.
pub open spec fn entry_items_at(tks: Seq<u32>, i: int, j: int, t: u32, p: int) -> Seq<(int, int, int)>
    decreases tks.len() - p,
{
    if p < 0 || p >= tks.len() {
        Seq::empty()
    } else {
        (if tks[p] == t {
            seq![(i, j, p)]
        } else {
            Seq::empty()
        }) + entry_items_at(tks, i, j, t, p + 1)
    }
}

/// All work scheduled at tick `t` by entries `j` onward of test `i`.
pub open spec fn sched_test_at(tl: Seq<TimelineEntry>, i: int, j: int, t: u32) -> Seq<(int, int, int)>
    decreases tl.len() - j,
{
    if j < 0 || j >= tl.len() {
        Seq::empty()
    } else {
        entry_items_at(entry_ticks(tl[j]), i, j, t, 0) + sched_test_at(tl, i, j + 1, t)
    }
}

/// All work scheduled at tick `t` by tests `i` onward: ordered by test,
/// then entry, then position.  This is the canonical dispatch order.
pub open spec fn sched_at(tests: Seq<(TestSpec, [i32; 3])>, i: int, t: u32) -> Seq<(int, int, int)>
    decreases tests.len() - i,
{
    if i < 0 || i >= tests.len() {
        Seq::empty()
    } else {
        sched_test_at(tests[i].0.timeline@, i, 0, t) + sched_at(tests, i + 1, t)
    }
}

/// A tick is a breakpoint when any test names it.
pub open spec fn is_breakpoint_of(tests: Seq<(TestSpec, [i32; 3])>, t: u32) -> bool {
    exists|i: int| 0 <= i < tests.len() && tests[i].0.breakpoints@.contains(t)
}

/// All work scheduled at one tick, in canonical order.
pub fn collect_items_at(tests: &Vec<(TestSpec, [i32; 3])>, t: u32) -> (r: Vec<ScheduledItem>)
    requires
        tests@.len() <= usize::MAX,
    ensures
        items_view(r@) == sched_at(tests@, 0, t),
{
    let nt = tests.len();
    let mut out: Vec<ScheduledItem> = Vec::new();
    let mut i: usize = 0;
    proof {
        assert(items_view(out@) + sched_at(tests@, 0, t) =~= sched_at(tests@, 0, t));
    }
    while i < nt
        invariant
            nt == tests@.len(),
            i <= nt,
            sched_at(tests@, 0, t) =~= items_view(out@) + sched_at(tests@, i as int, t),
        decreases nt - i,
    {
        let tl = &tests[i].0.timeline;
        let ne = tl.len();
        let mut j: usize = 0;
        proof {
            assert(sched_at(tests@, i as int, t) =~= sched_test_at(
                tests@[i as int].0.timeline@, i as int, 0, t) + sched_at(
                tests@, i as int + 1, t));
        }
        while j < ne
            invariant
                nt == tests@.len(),
                i < nt,
                ne == tests@[i as int].0.timeline@.len(),
                tl == &tests@[i as int].0.timeline,
                j <= ne,
                sched_at(tests@, 0, t) =~= items_view(out@) + sched_test_at(
                    tests@[i as int].0.timeline@, i as int, j as int, t) + sched_at(
                    tests@, i as int + 1, t),
            decreases ne - j,
        {
            let ticks = entry_ticks_exec(&tl[j]);
            let np = ticks.len();
            let ghost tksv = entry_ticks(tests@[i as int].0.timeline@[j as int]);
            let mut p: usize = 0;
            proof {
                assert(sched_test_at(tests@[i as int].0.timeline@, i as int, j as int, t)
                    =~= entry_items_at(tksv, i as int, j as int, t, 0) + sched_test_at(
                    tests@[i as int].0.timeline@, i as int, j as int + 1, t));
            }
            while p < np
                invariant
                    nt == tests@.len(),
                    i < nt,
                    ne == tests@[i as int].0.timeline@.len(),
                    j < ne,
                    np == tksv.len(),
                    ticks@ == tksv,
                    tksv == entry_ticks(tests@[i as int].0.timeline@[j as int]),
                    p <= np,
                    sched_at(tests@, 0, t) =~= items_view(out@) + entry_items_at(
                        tksv, i as int, j as int, t, p as int) + sched_test_at(
                        tests@[i as int].0.timeline@, i as int, j as int + 1, t) + sched_at(
                        tests@, i as int + 1, t),
                decreases np - p,
            {
                if ticks[p] == t {
                    let ghost old_items = items_view(out@);
                    out.push(ScheduledItem { test_idx: i, entry_idx: j, value_idx: p });
                    proof {
                        assert(items_view(out@) =~= old_items.push(
                            (i as int, j as int, p as int)));
                    }
                }
                p = p + 1;
            }
            assert(entry_items_at(tksv, i as int, j as int, t, np as int)
                =~= Seq::<(int, int, int)>::empty());
            j = j + 1;
        }
        assert(sched_test_at(tests@[i as int].0.timeline@, i as int, ne as int, t)
            =~= Seq::<(int, int, int)>::empty());
        i = i + 1;
    }
    assert(sched_at(tests@, nt as int, t) =~= Seq::<(int, int, int)>::empty());
    assert(items_view(out@) =~= items_view(out@) + Seq::<(int, int, int)>::empty());
    out
}

/// The tests' breakpoint lists, concatenated in test order.
pub open spec fn bp_concat(tests: Seq<(TestSpec, [i32; 3])>, i: int) -> Seq<u32>
    decreases tests.len() - i,
{
    if i < 0 || i >= tests.len() {
        Seq::empty()
    } else {
        tests[i].0.breakpoints@ + bp_concat(tests, i + 1)
    }
}

/// Law: the aggregate's breakpoint list holds exactly the union of the
/// tests' breakpoint sets.
pub proof fn lemma_breakpoints_are_union(agg: TimelineAggregate, tests: Seq<(TestSpec, [i32; 3])>, b: u32)
    requires
        agg.wf(tests),
    ensures
        agg.breakpoints@.contains(b) == is_breakpoint_of(tests, b),
{
    lemma_bp_concat_contains(tests, 0, b);
}

/// The concatenated breakpoint list holds exactly the union of the
/// tests' breakpoint sets.
pub proof fn lemma_bp_concat_contains(tests: Seq<(TestSpec, [i32; 3])>, i: int, b: u32)
    requires
        0 <= i <= tests.len(),
    ensures
        bp_concat(tests, i).contains(b) == exists|ii: int|
            i <= ii < tests.len() && (#[trigger] tests[ii].0.breakpoints@).contains(b),
    decreases tests.len() - i,
{
    if i < tests.len() {
        lemma_bp_concat_contains(tests, i + 1, b);
        let cur = tests[i].0.breakpoints@;
        let rest = bp_concat(tests, i + 1);
        if bp_concat(tests, i).contains(b) {
            let k = choose|k: int|
                0 <= k < bp_concat(tests, i).len() && bp_concat(tests, i)[k] == b;
            if k < cur.len() {
                assert(cur[k] == b);
                assert(cur.contains(b));
            } else {
                assert(rest[k - cur.len()] == b);
                assert(rest.contains(b));
            }
        }
        if exists|ii: int| i <= ii < tests.len()
            && (#[trigger] tests[ii].0.breakpoints@).contains(b) {
            let ii = choose|ii: int| i <= ii < tests.len()
                && (#[trigger] tests[ii].0.breakpoints@).contains(b);
            if ii == i {
                let k = choose|k: int| 0 <= k < cur.len() && cur[k] == b;
                assert(bp_concat(tests, i)[k] == b);
            } else {
                let k = choose|k: int| 0 <= k < rest.len() && rest[k] == b;
                assert(bp_concat(tests, i)[cur.len() + k] == b);
            }
        }
    }
}

/// All work scheduled at one tick of the merged timeline.
pub struct TickGroup {
    pub tick: u32,
    pub items: Vec<ScheduledItem>,
}

/// The merged schedule of any number of tests: every tick that has work,
/// in increasing order, the breakpoint union, and the last tick.
pub struct TimelineAggregate {
    pub timeline: Vec<TickGroup>,
    pub breakpoints: Vec<u32>,
    pub max_tick: u32,
}

impl TimelineAggregate {
    /// The aggregate faithfully represents the schedule of `tests`.
    pub open spec fn wf(self, tests: Seq<(TestSpec, [i32; 3])>) -> bool {
        &&& self.max_tick == tests_max_tick(tests)
        &&& forall|a: int, b: int| 0 <= a < b < self.timeline@.len()
            ==> self.timeline@[a].tick < self.timeline@[b].tick
        &&& forall|g: int| 0 <= g < self.timeline@.len()
            ==> (#[trigger] self.timeline@[g]).tick <= self.max_tick
        &&& forall|g: int| 0 <= g < self.timeline@.len()
            ==> items_view((#[trigger] self.timeline@[g]).items@) == sched_at(
                tests, 0, self.timeline@[g].tick) && self.timeline@[g].items@.len() > 0
        &&& forall|t: u32| sched_at(tests, 0, t).len() > 0 ==> exists|g: int|
            0 <= g < self.timeline@.len() && (#[trigger] self.timeline@[g]).tick == t
        &&& self.breakpoints@ == bp_concat(tests, 0)
    }

    /// The number of distinct ticks that have work scheduled.
    pub fn unique_tick_count(&self) -> (r: usize)
        ensures
            r == self.timeline@.len(),
    {
        self.timeline.len()
    }

    /// The work scheduled at one tick, in canonical order; `None` when
    /// the tick has none.
    pub fn entries_at(&self, tick: u32) -> (r: Option<&Vec<ScheduledItem>>)
        ensures
            match r {
                Some(v) => exists|g: int| 0 <= g < self.timeline@.len()
                    && (#[trigger] self.timeline@[g]).tick == tick && v@
                    == self.timeline@[g].items@,
                None => forall|g: int| 0 <= g < self.timeline@.len()
                    ==> (#[trigger] self.timeline@[g]).tick != tick,
            },
    {
        let n = self.timeline.len();
        let mut g: usize = 0;
        while g < n
            invariant
                n == self.timeline@.len(),
                g <= n,
                forall|h: int| 0 <= h < g ==> (#[trigger] self.timeline@[h]).tick != tick,
            decreases n - g,
        {
            if self.timeline[g].tick == tick {
                return Some(&self.timeline[g].items);
            }
            g = g + 1;
        }
        None
    }
}


pub proof fn lemma_entry_items_beyond(tks: Seq<u32>, i: int, j: int, t: u32, p: int)
    requires
        t > seq_max_u32(tks),
    ensures
        entry_items_at(tks, i, j, t, p).len() == 0,
    decreases tks.len() - p,
{
    lemma_seq_max_u32(tks);
    if 0 <= p < tks.len() {
        lemma_entry_items_beyond(tks, i, j, t, p + 1);
    }
}

pub proof fn lemma_sched_test_beyond(tl: Seq<TimelineEntry>, i: int, j: int, t: u32, m: u32)
    requires
        forall|jj: int| 0 <= jj < tl.len() ==> entry_max_tick(#[trigger] tl[jj]) <= m,
        t > m,
    ensures
        sched_test_at(tl, i, j, t).len() == 0,
    decreases tl.len() - j,
{
    if 0 <= j < tl.len() {
        lemma_entry_items_beyond(entry_ticks(tl[j]), i, j, t, 0);
        lemma_sched_test_beyond(tl, i, j + 1, t, m);
    }
}

/// No work is scheduled past the aggregate's last tick.
pub proof fn lemma_sched_beyond_max(tests: Seq<(TestSpec, [i32; 3])>, i: int, t: u32)
    requires
        t > tests_max_tick(tests),
    ensures
        sched_at(tests, i, t).len() == 0,
    decreases tests.len() - i,
{
    if 0 <= i < tests.len() {
        let tm = Seq::new(tests.len(), |k: int| test_max_tick_spec(tests[k].0));
        lemma_seq_max_u32(tm);
        assert(tm[i] == test_max_tick_spec(tests[i].0));
        let em = Seq::new(
            tests[i].0.timeline@.len(), |jj: int| entry_max_tick(tests[i].0.timeline@[jj]));
        lemma_seq_max_u32(em);
        assert forall|jj: int| 0 <= jj < tests[i].0.timeline@.len() implies entry_max_tick(
            #[trigger] tests[i].0.timeline@[jj]) <= test_max_tick_spec(tests[i].0) by {
            assert(em[jj] == entry_max_tick(tests[i].0.timeline@[jj]));
        }
        lemma_sched_test_beyond(
            tests[i].0.timeline@, i, 0, t, test_max_tick_spec(tests[i].0));
        lemma_sched_beyond_max(tests, i + 1, t);
    }
}

impl TimelineAggregate {
    /// Merges the timelines of `tests` into one deterministic schedule.
    pub fn from_tests(tests: &Vec<(TestSpec, [i32; 3])>) -> (r: TimelineAggregate)
        ensures
            r.wf(tests@),
    {
        let nt = tests.len();
        // the last tick of the whole run
        let ghost tm = Seq::new(tests@.len(), |k: int| test_max_tick_spec(tests@[k].0));
        proof {
            lemma_seq_max_u32(tm);
        }
        let mut max_tick: u32 = 0;
        let mut i: usize = 0;
        while i < nt
            invariant
                nt == tests@.len(),
                tm == Seq::new(tests@.len(), |k: int| test_max_tick_spec(tests@[k].0)),
                i <= nt,
                max_tick == seq_max_u32(tm.subrange(0, i as int)),
            decreases nt - i,
        {
            let m = tests[i].0.max_tick();
            assert(m == tm[i as int]);
            proof {
                assert(tm.subrange(0, i as int + 1).drop_last() == tm.subrange(0, i as int));
                assert(tm.subrange(0, i as int + 1).last() == tm[i as int]);
            }
            if m > max_tick {
                max_tick = m;
            }
            i = i + 1;
        }
        assert(tm.subrange(0, nt as int) == tm);
        assert(max_tick == tests_max_tick(tests@));
        // the breakpoint union, in test order
        let mut breakpoints: Vec<u32> = Vec::new();
        let mut i2: usize = 0;
        proof {
            assert(breakpoints@ + bp_concat(tests@, 0) =~= bp_concat(tests@, 0));
        }
        while i2 < nt
            invariant
                nt == tests@.len(),
                i2 <= nt,
                bp_concat(tests@, 0) =~= breakpoints@ + bp_concat(tests@, i2 as int),
            decreases nt - i2,
        {
            let bps = &tests[i2].0.breakpoints;
            let nb = bps.len();
            let mut j: usize = 0;
            while j < nb
                invariant
                    nt == tests@.len(),
                    i2 < nt,
                    nb == tests@[i2 as int].0.breakpoints@.len(),
                    bps == &tests@[i2 as int].0.breakpoints,
                    j <= nb,
                    bp_concat(tests@, 0) =~= breakpoints@ + tests@[i2 as int].0.breakpoints@.skip(
                        j as int) + bp_concat(tests@, i2 as int + 1),
                decreases nb - j,
            {
                breakpoints.push(bps[j]);
                proof {
                    assert(tests@[i2 as int].0.breakpoints@.skip(j as int)[0] == tests@[
                        i2 as int].0.breakpoints@[j as int]);
                    assert(tests@[i2 as int].0.breakpoints@.skip(j as int).skip(1)
                        =~= tests@[i2 as int].0.breakpoints@.skip(j as int + 1));
                }
                j = j + 1;
            }
            proof {
                assert(tests@[i2 as int].0.breakpoints@.skip(nb as int).len() == 0);
            }
            i2 = i2 + 1;
        }
        proof {
            assert(bp_concat(tests@, nt as int).len() == 0);
            assert(breakpoints@ =~= bp_concat(tests@, 0));
        }
        // every tick with work, in increasing order
        let mut timeline: Vec<TickGroup> = Vec::new();
        let mut t: u32 = 0;
        let mut done = false;
        while !done
            invariant
                nt == tests@.len(),
                t <= max_tick,
                max_tick == tests_max_tick(tests@),
                forall|a: int, b: int| 0 <= a < b < timeline@.len()
                    ==> timeline@[a].tick < timeline@[b].tick,
                forall|g: int| 0 <= g < timeline@.len()
                    ==> (#[trigger] timeline@[g]).tick < t + (if done { 1int } else { 0int }),
                forall|g: int| 0 <= g < timeline@.len()
                    ==> (#[trigger] timeline@[g]).tick <= max_tick,
                forall|g: int| 0 <= g < timeline@.len()
                    ==> items_view((#[trigger] timeline@[g]).items@) == sched_at(
                    tests@, 0, timeline@[g].tick) && timeline@[g].items@.len() > 0,
                forall|tp: u32| tp < t + (if done { 1int } else { 0int }) && sched_at(
                    tests@, 0, tp).len() > 0 ==> exists|g: int|
                    0 <= g < timeline@.len() && (#[trigger] timeline@[g]).tick == tp,
                done ==> t == max_tick,
            decreases max_tick - t, (if done { 0int } else { 1int }),
        {
            let items = collect_items_at(tests, t);
            let ghost old_tl = timeline@;
            if items.len() > 0 {
                assert(items_view(items@).len() == items@.len());
                timeline.push(TickGroup { tick: t, items });
            }
            proof {
                if sched_at(tests@, 0, t).len() > 0 {
                    assert(timeline@[timeline@.len() - 1].tick == t);
                }
                assert forall|tp: u32| tp < t + 1 && sched_at(tests@, 0, tp).len() > 0
                    implies exists|g: int| 0 <= g < timeline@.len()
                    && (#[trigger] timeline@[g]).tick == tp by {
                    if tp == t {
                        assert((timeline@[timeline@.len() - 1]).tick == tp);
                    } else {
                        let g = choose|g: int|
                            0 <= g < old_tl.len() && (#[trigger] old_tl[g]).tick == tp;
                        assert((timeline@[g]).tick == tp);
                    }
                }
            }
            if t == max_tick {
                done = true;
            } else {
                t = t + 1;
            }
        }
        proof {
            assert forall|tp: u32| sched_at(tests@, 0, tp).len() > 0 implies exists|g: int|
                0 <= g < timeline@.len() && (#[trigger] timeline@[g]).tick == tp by {
                if tp > max_tick {
                    lemma_sched_beyond_max(tests@, 0, tp);
                }
            }
        }
        TimelineAggregate { timeline, breakpoints, max_tick }
    }

    /// A tick at which something happens: scheduled work or a breakpoint.
    pub open spec fn is_event(self, t: u32) -> bool {
        (exists|g: int| 0 <= g < self.timeline@.len() && (#[trigger] self.timeline@[g]).tick
            == t) || self.breakpoints@.contains(t)
    }

    /// Whether the merged timeline has work at `t`.
    fn has_group(&self, t: u32) -> (r: bool)
        ensures
            r == exists|g: int| 0 <= g < self.timeline@.len()
                && (#[trigger] self.timeline@[g]).tick == t,
    {
        let n = self.timeline.len();
        let mut g: usize = 0;
        while g < n
            invariant
                n == self.timeline@.len(),
                g <= n,
                forall|h: int| 0 <= h < g ==> (#[trigger] self.timeline@[h]).tick != t,
            decreases n - g,
        {
            if self.timeline[g].tick == t {
                return true;
            }
            g = g + 1;
        }
        false
    }

    /// Whether `t` is in the breakpoint union.
    pub fn is_breakpoint(&self, t: u32) -> (r: bool)
        ensures
            r == self.breakpoints@.contains(t),
    {
        let n = self.breakpoints.len();
        let mut k: usize = 0;
        while k < n
            invariant
                n == self.breakpoints@.len(),
                k <= n,
                forall|h: int| 0 <= h < k ==> self.breakpoints@[h] != t,
            decreases n - k,
        {
            if self.breakpoints[k] == t {
                assert(self.breakpoints@.contains(t));
                return true;
            }
            k = k + 1;
        }
        false
    }

    /// The largest tick at which anything happens; zero when nothing does.
    fn event_bound(&self) -> (r: u32)
        ensures
            forall|t: u32| t > r ==> !self.is_event(t),
    {
        let n = self.timeline.len();
        let mut m: u32 = 0;
        let mut g: usize = 0;
        while g < n
            invariant
                n == self.timeline@.len(),
                g <= n,
                forall|h: int| 0 <= h < g ==> (#[trigger] self.timeline@[h]).tick <= m,
            decreases n - g,
        {
            if self.timeline[g].tick > m {
                m = self.timeline[g].tick;
            }
            g = g + 1;
        }
        let nb = self.breakpoints.len();
        let mut k: usize = 0;
        while k < nb
            invariant
                n == self.timeline@.len(),
                nb == self.breakpoints@.len(),
                k <= nb,
                forall|h: int| 0 <= h < n ==> (#[trigger] self.timeline@[h]).tick <= m,
                forall|h: int| 0 <= h < k ==> self.breakpoints@[h] <= m,
            decreases nb - k,
        {
            if self.breakpoints[k] > m {
                m = self.breakpoints[k];
            }
            k = k + 1;
        }
        assert forall|t: u32| t > m implies !self.is_event(t) by {
            if self.breakpoints@.contains(t) {
                let h = choose|h: int|
                    0 <= h < self.breakpoints@.len() && self.breakpoints@[h] == t;
                assert(self.breakpoints@[h] <= m);
            }
        }
        m
    }

    /// The next tick strictly after `from` at which anything happens:
    /// the smallest such tick, or `None` when no event lies ahead.
    pub fn next_event_tick(&self, from: u32) -> (r: Option<u32>)
        ensures
            match r {
                Some(t) => from < t && self.is_event(t) && forall|tp: u32|
                    from < tp < t ==> !self.is_event(tp),
                None => forall|tp: u32| tp > from ==> !self.is_event(tp),
            },
    {
        let bound = self.event_bound();
        if from >= bound {
            return None;
        }
        let mut t: u32 = from + 1;
        let mut done = false;
        while !done
            invariant
                from < t <= bound,
                forall|tp: u32| from < tp < t ==> !self.is_event(tp),
                forall|tp: u32| tp > bound ==> !self.is_event(tp),
                done ==> t == bound && !self.is_event(bound),
            decreases bound - t, (if done { 0int } else { 1int }),
        {
            if self.has_group(t) || self.is_breakpoint(t) {
                return Some(t);
            }
            if t == bound {
                done = true;
            } else {
                t = t + 1;
            }
        }
        None
    }
}

/// Law: the merged schedule's last tick is the largest per-test last
/// tick, and zero on empty input.
pub proof fn lemma_aggregate_max_tick(agg: TimelineAggregate, tests: Seq<(TestSpec, [i32; 3])>)
    requires
        agg.wf(tests),
    ensures
        forall|i: int| 0 <= i < tests.len() ==> test_max_tick_spec(
            #[trigger] tests[i].0) <= agg.max_tick,
        tests.len() > 0 ==> exists|i: int| 0 <= i < tests.len() && test_max_tick_spec(
            tests[i].0) == agg.max_tick,
        tests.len() == 0 ==> agg.max_tick == 0,
{
    let tm = Seq::new(tests.len(), |k: int| test_max_tick_spec(tests[k].0));
    lemma_seq_max_u32(tm);
    assert forall|i: int| 0 <= i < tests.len() implies test_max_tick_spec(
        #[trigger] tests[i].0) <= agg.max_tick by {
        assert(tm[i] == test_max_tick_spec(tests[i].0));
    }
    if tests.len() > 0 {
        let j = choose|j: int| 0 <= j < tm.len() && tm[j] == seq_max_u32(tm);
        assert(test_max_tick_spec(tests[j].0) == agg.max_tick);
    }
}

/// Law: the schedule is stable: aggregating the same input twice gives
/// the same last tick, the same ticks in the same order, and at every
/// tick the same triples in the same order.
pub proof fn lemma_schedule_stable(
    a1: TimelineAggregate,
    a2: TimelineAggregate,
    tests: Seq<(TestSpec, [i32; 3])>,
)
    requires
        a1.wf(tests),
        a2.wf(tests),
    ensures
        a1.max_tick == a2.max_tick,
        a1.timeline@.len() == a2.timeline@.len(),
        forall|g: int| 0 <= g < a1.timeline@.len() ==> (#[trigger] a1.timeline@[g]).tick
            == a2.timeline@[g].tick && items_view(a1.timeline@[g].items@) == items_view(
            a2.timeline@[g].items@),
        a1.breakpoints@ == a2.breakpoints@,
{
    let ts1 = Seq::new(a1.timeline@.len(), |g: int| a1.timeline@[g].tick);
    let ts2 = Seq::new(a2.timeline@.len(), |g: int| a2.timeline@[g].tick);
    assert forall|b: u32| ts1.contains(b) == ts2.contains(b) by {
        if ts1.contains(b) {
            let g = choose|g: int| 0 <= g < ts1.len() && ts1[g] == b;
            assert(a1.timeline@[g].tick == b);
            assert(sched_at(tests, 0, b).len() > 0);
            let h = choose|h: int|
                0 <= h < a2.timeline@.len() && (#[trigger] a2.timeline@[h]).tick == b;
            assert(ts2[h] == b);
        }
        if ts2.contains(b) {
            let g = choose|g: int| 0 <= g < ts2.len() && ts2[g] == b;
            assert(a2.timeline@[g].tick == b);
            assert(sched_at(tests, 0, b).len() > 0);
            let h = choose|h: int|
                0 <= h < a1.timeline@.len() && (#[trigger] a1.timeline@[h]).tick == b;
            assert(ts1[h] == b);
        }
    }
    lemma_sorted_same_members_equal(ts1, ts2);
    assert forall|g: int| 0 <= g < a1.timeline@.len() implies (#[trigger] a1.timeline@[
        g]).tick == a2.timeline@[g].tick && items_view(a1.timeline@[g].items@) == items_view(
        a2.timeline@[g].items@) by {
        assert(ts1[g] == ts2[g]);
    }
}

/// Two strictly increasing sequences with the same members are equal.
proof fn lemma_sorted_same_members_equal(s1: Seq<u32>, s2: Seq<u32>)
    requires
        forall|a: int, b: int| 0 <= a < b < s1.len() ==> s1[a] < s1[b],
        forall|a: int, b: int| 0 <= a < b < s2.len() ==> s2[a] < s2[b],
        forall|x: u32| s1.contains(x) == s2.contains(x),
    ensures
        s1 =~= s2,
    decreases s1.len(),
{
    if s1.len() == 0 {
        if s2.len() > 0 {
            assert(s2.contains(s2[0]));
        }
    } else {
        assert(s1.contains(s1[0]));
        assert(s2.contains(s2[0]));
        let i2 = choose|k: int| 0 <= k < s2.len() && s2[k] == s1[0];
        let i1 = choose|k: int| 0 <= k < s1.len() && s1[k] == s2[0];
        assert(s1[0] == s2[0]) by {
            assert(s2[i2] == s1[0] && s1[i1] == s2[0]);
            if i2 > 0 {
                assert(s2[0] < s2[i2]);
            }
            if i1 > 0 {
                assert(s1[0] < s1[i1]);
            }
        }
        let t1 = s1.skip(1);
        let t2 = s2.skip(1);
        assert forall|x: u32| t1.contains(x) == t2.contains(x) by {
            if t1.contains(x) {
                let k = choose|k: int| 0 <= k < t1.len() && t1[k] == x;
                assert(s1[k + 1] == x);
                assert(s1.contains(x));
                assert(x > s1[0]);
                let m = choose|m: int| 0 <= m < s2.len() && s2[m] == x;
                assert(m > 0) by {
                    if m == 0 {
                        assert(s2[0] == x);
                    }
                }
                assert(t2[m - 1] == x);
            }
            if t2.contains(x) {
                let k = choose|k: int| 0 <= k < t2.len() && t2[k] == x;
                assert(s2[k + 1] == x);
                assert(s2.contains(x));
                assert(x > s2[0]);
                let m = choose|m: int| 0 <= m < s1.len() && s1[m] == x;
                assert(m > 0) by {
                    if m == 0 {
                        assert(s1[0] == x);
                    }
                }
                assert(t1[m - 1] == x);
            }
        }
        lemma_sorted_same_members_equal(t1, t2);
        assert(s1 =~= seq![s1[0]] + t1);
        assert(s2 =~= seq![s2[0]] + t2);
    }
}

} // verus!
