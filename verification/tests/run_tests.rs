use flintmc::actions::{
    apply_offset, cleanup_command, commands_for_entry, evaluate_check, fill_command,
    read_matches, setblock_command, ActionOutcome, FailureDetail,
};
use flintmc::block::Block;
use flintmc::format_number;
use flintmc::gate::{classify_chat_decision, classify_stdin_decision, parse_command};
use flintmc::run::{Advance, RunState, TestRunOutput};
use flintmc::tick::{
    extract_gametime, freeze_command, gametime_query_command, parse_sprint_ms, retry_delay_ms,
    sprint_command, sprint_elapsed_ms, step_advanced, step_command, unfreeze_command,
};
use flintmc::timeline::{
    ActionType, BlockCheck, TestSpec, TickSpec, TimelineAggregate, TimelineEntry,
};

fn plain_block(id: &str) -> Block {
    Block { id: String::from(id), properties: Vec::new() }
}

fn simple_test(name: &str, assert_tick: u32) -> TestSpec {
    TestSpec {
        name: String::from(name),
        tags: Vec::new(),
        cleanup_region: [[0, 60, 0], [10, 70, 10]],
        timeline: vec![TimelineEntry {
            at: TickSpec::Single(assert_tick),
            action_type: ActionType::Assert {
                checks: vec![BlockCheck { pos: [0, 64, 0], is: plain_block("minecraft:stone") }],
            },
        }],
        breakpoints: Vec::new(),
    }
}

#[test]
fn test_format_number() {
    assert_eq!(format_number(0), "0");
    assert_eq!(format_number(7), "7");
    assert_eq!(format_number(1247), "1,247");
    assert_eq!(format_number(1234567), "1,234,567");
}

#[test]
fn test_tick_commands() {
    assert_eq!(freeze_command(), "tick freeze");
    assert_eq!(unfreeze_command(), "tick unfreeze");
    assert_eq!(step_command(), "tick step");
    assert_eq!(gametime_query_command(), "time query gametime");
    assert_eq!(sprint_command(5), "tick sprint 4");
    assert_eq!(sprint_command(2), "tick sprint 1");
}

#[test]
fn test_extract_gametime() {
    assert_eq!(extract_gametime("The time is 1247"), Some(1247));
    assert_eq!(extract_gametime("[Server] The time is 1,247"), Some(1247));
    assert_eq!(extract_gametime("no time here"), None);
    assert_eq!(extract_gametime("The time is soon"), None);
}

#[test]
fn test_parse_sprint_ms() {
    let msg = "Sprint completed with 100 ticks per second, or 12.5 ms per tick";
    assert_eq!(parse_sprint_ms(msg), Some(13));
    let whole = "Sprint completed with 50 ticks per second, or 20 ms per tick";
    assert_eq!(parse_sprint_ms(whole), Some(20));
    assert_eq!(parse_sprint_ms("Sprint completed but mangled"), None);
    assert_eq!(parse_sprint_ms("unrelated chatter"), None);
}

#[test]
fn test_sprint_arithmetic() {
    assert_eq!(sprint_elapsed_ms(13, 5), 65);
    assert_eq!(retry_delay_ms(50), 200);
    assert_eq!(retry_delay_ms(350), 350);
    assert!(step_advanced(10, 11));
    assert!(!step_advanced(10, 10));
}

#[test]
fn test_gate_decisions() {
    assert_eq!(classify_chat_decision("<player> s"), Some(false));
    assert_eq!(classify_chat_decision("step"), Some(false));
    assert_eq!(classify_chat_decision("<player> c"), Some(true));
    assert_eq!(classify_chat_decision("Continue"), Some(true));
    assert_eq!(classify_chat_decision("Waiting for step/continue (s = step)"), None);
    assert_eq!(classify_chat_decision("hello there"), None);
    assert!(!classify_stdin_decision("s"));
    assert!(!classify_stdin_decision(" Step "));
    assert!(classify_stdin_decision(""));
    assert!(classify_stdin_decision("c"));
}

#[test]
fn test_parse_command() {
    let parsed = parse_command("<player> !run fence/gate step").expect("command expected");
    assert_eq!(parsed.0, "!run");
    assert_eq!(parsed.1, vec![String::from("fence/gate"), String::from("step")]);
    assert!(parse_command("no command here").is_none());
    assert!(parse_command("flintmc_testbot says !run x").is_none());
    assert!(parse_command("[Server] !run x").is_none());
    let bare = parse_command("!list").expect("command expected");
    assert_eq!(bare.0, "!list");
    assert!(bare.1.is_empty());
}

#[test]
fn test_offset_and_commands() {
    assert_eq!(apply_offset([1, 64, -3], [100, 0, 10]), [101, 64, 7]);
    assert_eq!(
        setblock_command([101, 64, 7], "minecraft:stone"),
        "setblock 101 64 7 minecraft:stone"
    );
    assert_eq!(
        fill_command([-1, 60, -1], [11, 70, 11], "air"),
        "fill -1 60 -1 11 70 11 air"
    );
    assert_eq!(
        cleanup_command([[0, 60, 0], [10, 70, 10]], [100, 0, 0]),
        "fill 100 60 0 110 70 10 air"
    );
}

#[test]
fn test_commands_for_entry() {
    let entry = TimelineEntry {
        at: TickSpec::Single(0),
        action_type: ActionType::Place { pos: [0, 64, 0], block: plain_block("minecraft:stone") },
    };
    let cmds = commands_for_entry(&entry, [100, 0, 0]);
    assert_eq!(cmds, vec![String::from("setblock 100 64 0 minecraft:stone")]);
    let removal = TimelineEntry {
        at: TickSpec::Single(0),
        action_type: ActionType::Remove { pos: [0, 64, 0] },
    };
    let cmds2 = commands_for_entry(&removal, [0, 0, 0]);
    assert_eq!(cmds2, vec![String::from("setblock 0 64 0 air")]);
    let checks = TimelineEntry {
        at: TickSpec::Single(0),
        action_type: ActionType::Assert {
            checks: vec![BlockCheck { pos: [0, 64, 0], is: plain_block("minecraft:stone") }],
        },
    };
    assert!(commands_for_entry(&checks, [0, 0, 0]).is_empty());
}

#[test]
fn test_read_matches_and_evaluate_check() {
    let stone = String::from("BlockState(id: 1, Stone)");
    assert!(read_matches(Some(&stone), "minecraft:stone"));
    assert!(!read_matches(None, "minecraft:stone"));
    let check = BlockCheck { pos: [0, 64, 0], is: plain_block("minecraft:stone") };
    assert!(evaluate_check(3, &check, Some(&stone)).is_none());
    let wrong = BlockCheck { pos: [0, 64, 0], is: plain_block("minecraft:dirt") };
    let detail = evaluate_check(3, &wrong, Some(&stone)).expect("mismatch expected");
    assert_eq!(detail.tick, 3);
    assert_eq!(detail.expected, "minecraft:dirt");
    assert_eq!(detail.actual, "minecraft:stone");
    assert_eq!(detail.position, [0, 64, 0]);
    let missing = evaluate_check(3, &wrong, None).expect("missing chunk fails");
    assert_eq!(missing.actual, "none");
}

#[test]
fn test_evaluate_check_property_mismatch() {
    let actual = String::from("BlockState(id: 6795, OakFence { east: false, north: true })");
    let check = BlockCheck {
        pos: [1, 2, 3],
        is: Block {
            id: String::from("minecraft:oak_fence"),
            properties: vec![(String::from("east"), String::from("true"))],
        },
    };
    let detail = evaluate_check(0, &check, Some(&actual)).expect("property mismatch expected");
    assert_eq!(detail.expected, "east=true");
    assert_eq!(detail.actual, "east=false");
    let good = BlockCheck {
        pos: [1, 2, 3],
        is: Block {
            id: String::from("minecraft:oak_fence"),
            properties: vec![(String::from("north"), String::from("true"))],
        },
    };
    assert!(evaluate_check(0, &good, Some(&actual)).is_none());
}

#[test]
fn test_fail_fast_run_scenario() {
    let tests = vec![
        (simple_test("a", 0), [0, 0, 0]),
        (simple_test("b", 0), [100, 0, 0]),
        (simple_test("c", 0), [200, 0, 0]),
    ];
    let agg = TimelineAggregate::from_tests(&tests);
    let mut st = RunState::start_run(3, true);
    let items = agg.entries_at(0).expect("tick 0 has work").clone();
    st.begin_tick(&items);
    // first test's assertion passes, the second fails: fail-fast halts
    let first = st.next_item().expect("first item");
    assert_eq!(first.test_idx, 0);
    st.record_outcome(ActionOutcome::AssertPassed);
    let second = st.next_item().expect("second item");
    assert_eq!(second.test_idx, 1);
    st.record_outcome(ActionOutcome::AssertFailed(FailureDetail {
        tick: 0,
        expected: String::from("minecraft:stone"),
        actual: String::from("minecraft:dirt"),
        position: [0, 64, 0],
    }));
    assert!(st.next_item().is_none());
    match st.advance_decision(&agg) {
        Advance::Done => {},
        _ => panic!("halted run must be done advancing"),
    }
    // unfreeze still happens, and every region is cleaned exactly once
    st.unfreeze();
    let remaining = st.remaining_cleanups();
    assert_eq!(remaining, vec![0, 1, 2]);
    for idx in remaining {
        st.mark_cleaned(idx);
    }
    st.finish_run();
    let out: TestRunOutput = st.into_output(&tests);
    assert_eq!(out.results.len(), 3);
    assert!(out.results[0].success);
    assert!(!out.results[1].success);
    assert_eq!(out.results[1].failure_reason, Some(String::from("1 assertions failed")));
    assert!(out.results[2].success);
    assert_eq!(out.failures.len(), 1);
    assert_eq!(out.failures[0].0, "b");
    assert_eq!(out.failures[0].1.actual, "minecraft:dirt");
}

#[test]
fn test_run_advances_by_sprint_to_next_event() {
    let mut spec = simple_test("a", 5);
    spec.timeline.push(TimelineEntry {
        at: TickSpec::Single(0),
        action_type: ActionType::Place { pos: [0, 64, 0], block: plain_block("minecraft:stone") },
    });
    let tests = vec![(spec, [0, 0, 0])];
    let agg = TimelineAggregate::from_tests(&tests);
    assert_eq!(agg.max_tick, 5);
    let mut st = RunState::start_run(1, false);
    let items = agg.entries_at(0).expect("tick 0 has work").clone();
    st.begin_tick(&items);
    while let Some(_item) = st.next_item() {
        st.record_outcome(ActionOutcome::Action);
    }
    match st.advance_decision(&agg) {
        Advance::Sprint(n) => {
            assert_eq!(n, 5);
            st.apply_advance(Advance::Sprint(n));
        },
        _ => panic!("expected a sprint to the next event"),
    }
    assert_eq!(st.current_tick, 5);
    let items5 = agg.entries_at(5).expect("tick 5 has work").clone();
    st.begin_tick(&items5);
    while let Some(_item) = st.next_item() {
        st.record_outcome(ActionOutcome::AssertPassed);
    }
    match st.advance_decision(&agg) {
        Advance::Done => {},
        _ => panic!("timeline is over"),
    }
    st.unfreeze();
    let remaining = st.remaining_cleanups();
    for idx in remaining {
        st.mark_cleaned(idx);
    }
    st.finish_run();
    let out = st.into_output(&tests);
    assert!(out.results[0].success);
    assert!(out.failures.is_empty());
}

#[test]
fn test_stepping_mode_advances_one_tick() {
    let tests = vec![(simple_test("a", 3), [0, 0, 0])];
    let agg = TimelineAggregate::from_tests(&tests);
    let mut st = RunState::start_run(1, false);
    st.apply_gate_decision(false);
    assert!(st.stepping);
    st.begin_tick(&Vec::new());
    match st.advance_decision(&agg) {
        Advance::Step => st.apply_advance(Advance::Step),
        _ => panic!("stepping mode advances one tick at a time"),
    }
    assert_eq!(st.current_tick, 1);
    st.apply_gate_decision(true);
    assert!(!st.stepping);
}
