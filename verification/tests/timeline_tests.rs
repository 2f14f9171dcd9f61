use flintmc::block::Block;
use flintmc::timeline::{
    ActionType, BlockCheck, TestSpec, TickSpec, TimelineAggregate, TimelineEntry,
};

fn plain_block(id: &str) -> Block {
    Block { id: String::from(id), properties: Vec::new() }
}

fn place_at(tick: u32, id: &str) -> TimelineEntry {
    TimelineEntry {
        at: TickSpec::Single(tick),
        action_type: ActionType::Place { pos: [0, 64, 0], block: plain_block(id) },
    }
}

fn assert_at(tick: u32, id: &str) -> TimelineEntry {
    TimelineEntry {
        at: TickSpec::Single(tick),
        action_type: ActionType::Assert {
            checks: vec![BlockCheck { pos: [0, 64, 0], is: plain_block(id) }],
        },
    }
}

fn test_spec(name: &str, timeline: Vec<TimelineEntry>, breakpoints: Vec<u32>) -> TestSpec {
    TestSpec {
        name: String::from(name),
        tags: Vec::new(),
        cleanup_region: [[0, 60, 0], [10, 70, 10]],
        timeline,
        breakpoints,
    }
}

#[test]
fn test_max_tick_of_single_test() {
    let t = test_spec("a", vec![place_at(0, "minecraft:stone"), assert_at(5, "minecraft:stone")], vec![]);
    assert_eq!(t.max_tick(), 5);
    let empty = test_spec("b", vec![], vec![]);
    assert_eq!(empty.max_tick(), 0);
}

#[test]
fn test_aggregate_max_tick_is_max_over_tests() {
    let a = test_spec("a", vec![place_at(0, "minecraft:stone"), assert_at(5, "minecraft:stone")], vec![]);
    let b = test_spec("b", vec![place_at(3, "minecraft:dirt")], vec![]);
    let tests = vec![(a, [0, 0, 0]), (b, [100, 0, 0])];
    let agg = TimelineAggregate::from_tests(&tests);
    assert_eq!(agg.max_tick, 5);
}

#[test]
fn test_aggregate_empty_input() {
    let tests: Vec<(TestSpec, [i32; 3])> = Vec::new();
    let agg = TimelineAggregate::from_tests(&tests);
    assert_eq!(agg.max_tick, 0);
    assert_eq!(agg.unique_tick_count(), 0);
    assert_eq!(agg.next_event_tick(0), None);
}

#[test]
fn test_aggregate_orders_items_by_test_then_entry() {
    let a = test_spec("a", vec![place_at(0, "minecraft:stone"), assert_at(0, "minecraft:stone")], vec![]);
    let b = test_spec("b", vec![place_at(0, "minecraft:dirt")], vec![]);
    let tests = vec![(a, [0, 0, 0]), (b, [100, 0, 0])];
    let agg = TimelineAggregate::from_tests(&tests);
    assert_eq!(agg.unique_tick_count(), 1);
    let items = agg.entries_at(0).expect("tick 0 has work");
    assert_eq!(items.len(), 3);
    assert_eq!((items[0].test_idx, items[0].entry_idx, items[0].value_idx), (0, 0, 0));
    assert_eq!((items[1].test_idx, items[1].entry_idx, items[1].value_idx), (0, 1, 0));
    assert_eq!((items[2].test_idx, items[2].entry_idx, items[2].value_idx), (1, 0, 0));
    assert!(agg.entries_at(1).is_none());
}

#[test]
fn test_range_and_list_ticks_materialise() {
    let ranged = TimelineEntry {
        at: TickSpec::Range(2, 4),
        action_type: ActionType::Assert {
            checks: vec![BlockCheck { pos: [0, 64, 0], is: plain_block("minecraft:stone") }],
        },
    };
    let listed = TimelineEntry {
        at: TickSpec::List(vec![7, 9]),
        action_type: ActionType::Assert {
            checks: vec![BlockCheck { pos: [0, 64, 0], is: plain_block("minecraft:dirt") }],
        },
    };
    let t = test_spec("a", vec![ranged, listed], vec![]);
    assert_eq!(t.max_tick(), 9);
    let tests = vec![(t, [0, 0, 0])];
    let agg = TimelineAggregate::from_tests(&tests);
    assert_eq!(agg.unique_tick_count(), 5);
    let at3 = agg.entries_at(3).expect("tick 3 has work");
    assert_eq!(at3.len(), 1);
    assert_eq!(at3[0].value_idx, 1);
    let at9 = agg.entries_at(9).expect("tick 9 has work");
    assert_eq!(at9[0].value_idx, 1);
}

#[test]
fn test_next_event_tick_strictly_greater() {
    let a = test_spec("a", vec![place_at(0, "minecraft:stone"), assert_at(5, "minecraft:stone")], vec![2]);
    let tests = vec![(a, [0, 0, 0])];
    let agg = TimelineAggregate::from_tests(&tests);
    assert_eq!(agg.next_event_tick(0), Some(2));
    assert_eq!(agg.next_event_tick(2), Some(5));
    assert_eq!(agg.next_event_tick(5), None);
    assert_eq!(agg.next_event_tick(1), Some(2));
}

#[test]
fn test_breakpoints_are_unioned() {
    let a = test_spec("a", vec![place_at(0, "minecraft:stone")], vec![1, 3]);
    let b = test_spec("b", vec![place_at(0, "minecraft:dirt")], vec![3, 8]);
    let tests = vec![(a, [0, 0, 0]), (b, [100, 0, 0])];
    let agg = TimelineAggregate::from_tests(&tests);
    assert_eq!(agg.next_event_tick(0), Some(1));
    assert_eq!(agg.next_event_tick(1), Some(3));
    assert_eq!(agg.next_event_tick(3), Some(8));
    assert_eq!(agg.next_event_tick(8), None);
}

#[test]
fn test_schedule_stable_across_aggregations() {
    let a = test_spec("a", vec![place_at(0, "minecraft:stone"), assert_at(2, "minecraft:stone")], vec![1]);
    let b = test_spec("b", vec![place_at(2, "minecraft:dirt")], vec![]);
    let tests = vec![(a, [0, 0, 0]), (b, [100, 0, 0])];
    let agg1 = TimelineAggregate::from_tests(&tests);
    let agg2 = TimelineAggregate::from_tests(&tests);
    assert_eq!(agg1.max_tick, agg2.max_tick);
    assert_eq!(agg1.unique_tick_count(), agg2.unique_tick_count());
    for g in 0..agg1.timeline.len() {
        assert_eq!(agg1.timeline[g].tick, agg2.timeline[g].tick);
        assert_eq!(agg1.timeline[g].items.len(), agg2.timeline[g].items.len());
        for k in 0..agg1.timeline[g].items.len() {
            let x = &agg1.timeline[g].items[k];
            let y = &agg2.timeline[g].items[k];
            assert_eq!(x.test_idx, y.test_idx);
            assert_eq!(x.entry_idx, y.entry_idx);
            assert_eq!(x.value_idx, y.value_idx);
        }
    }
}

#[test]
fn test_max_tick_at_the_type_limit() {
    let t = test_spec(
        "edge",
        vec![assert_at(u32::MAX, "minecraft:stone"), place_at(0, "minecraft:stone")],
        vec![],
    );
    assert_eq!(t.max_tick(), u32::MAX);
}
