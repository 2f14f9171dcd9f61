use flintmc::bounding_box::BoundingBox;
use flintmc::recorder::{classify_block_change, BlockChange, RecordedAction, RecorderState};
use flintmc::timeline::{ActionType, TickSpec};

#[test]
fn test_bounding_box() {
    let mut bb = BoundingBox::new();
    assert!(!bb.is_valid());

    bb.expand([0, 0, 0]);
    assert!(bb.is_valid());
    assert_eq!(bb.min, [0, 0, 0]);
    assert_eq!(bb.max, [0, 0, 0]);

    bb.expand([5, 10, -3]);
    assert_eq!(bb.min, [0, 0, -3]);
    assert_eq!(bb.max, [5, 10, 0]);
}

#[test]
fn test_local_position() {
    let mut recorder = RecorderState::new("test", "/tmp");
    recorder.set_origin([100, 64, 200]);

    assert_eq!(recorder.to_local([100, 64, 200]), [0, 0, 0]);
    assert_eq!(recorder.to_local([105, 65, 198]), [5, 1, -2]);
}

#[test]
fn test_bounding_box_cleanup_region() {
    let mut bb = BoundingBox::new();
    bb.expand([0, 0, 0]);
    bb.expand([5, 10, -3]);
    let region = bb.to_cleanup_region(1);
    assert_eq!(region, [[-1, -1, -4], [6, 11, 1]]);
}

#[test]
fn test_recorder_new_path() {
    let r = RecorderState::new("fence/fence_connect", "FlintBenchmark/tests");
    assert_eq!(r.test_path, "FlintBenchmark/tests/fence/fence_connect.json");
    assert_eq!(r.test_name, "fence/fence_connect");
    assert_eq!(r.current_tick, 0);
    assert_eq!(r.scan_radius, 16);
}

#[test]
fn test_record_place_sets_origin_and_dedups() {
    let mut r = RecorderState::new("t", "/tmp");
    r.record_place([100, 64, 200], "minecraft:stone");
    assert_eq!(r.origin, Some([100, 64, 200]));
    r.record_place([100, 64, 200], "minecraft:dirt");
    // the second placement at the same position replaces the first
    assert_eq!(r.timeline.len(), 1);
    assert_eq!(r.timeline[0].tick, 0);
    assert_eq!(r.timeline[0].actions.len(), 1);
    match &r.timeline[0].actions[0] {
        RecordedAction::Place { pos, block } => {
            assert_eq!(*pos, [0, 0, 0]);
            assert_eq!(block, "minecraft:dirt");
        },
        _ => panic!("expected a placement"),
    }
}

#[test]
fn test_record_remove_needs_origin() {
    let mut r = RecorderState::new("t", "/tmp");
    r.record_remove([1, 2, 3]);
    assert!(r.timeline.is_empty());
    r.record_place([1, 2, 3], "minecraft:stone");
    r.record_remove([1, 2, 3]);
    assert_eq!(r.timeline[0].actions.len(), 1);
    match &r.timeline[0].actions[0] {
        RecordedAction::Remove { pos } => assert_eq!(*pos, [0, 0, 0]),
        _ => panic!("expected a removal"),
    }
}

#[test]
fn test_next_tick_opens_new_step() {
    let mut r = RecorderState::new("t", "/tmp");
    r.record_place([0, 0, 0], "minecraft:stone");
    r.next_tick();
    assert_eq!(r.current_tick, 1);
    r.record_place([0, 1, 0], "minecraft:dirt");
    assert_eq!(r.timeline.len(), 2);
    assert_eq!(r.timeline[1].tick, 1);
}

#[test]
fn test_add_assertion_keeps_mutations() {
    let mut r = RecorderState::new("t", "/tmp");
    r.record_place([0, 0, 0], "minecraft:stone");
    r.add_assertion([0, 0, 0], "minecraft:stone");
    assert_eq!(r.timeline[0].actions.len(), 2);
}

#[test]
fn test_convert_actions_to_asserts() {
    let mut r = RecorderState::new("t", "/tmp");
    r.record_place([0, 0, 0], "minecraft:stone");
    r.record_place([0, 1, 0], "minecraft:dirt");
    r.record_remove([0, 1, 0]);
    let converted = r.convert_actions_to_asserts();
    assert_eq!(converted, 2);
    assert_eq!(r.timeline[0].actions.len(), 2);
    match &r.timeline[0].actions[0] {
        RecordedAction::Assert { pos, block } => {
            assert_eq!(*pos, [0, 0, 0]);
            assert_eq!(block, "minecraft:stone");
        },
        _ => panic!("expected an assertion"),
    }
    match &r.timeline[0].actions[1] {
        RecordedAction::Assert { pos, block } => {
            assert_eq!(*pos, [0, 1, 0]);
            assert_eq!(block, "minecraft:air");
        },
        _ => panic!("expected an air assertion"),
    }
}

#[test]
fn test_classify_block_change() {
    let stone = String::from("minecraft:stone");
    assert!(matches!(classify_block_change(None, "minecraft:air"), BlockChange::Unchanged));
    assert!(matches!(classify_block_change(None, "minecraft:stone"), BlockChange::Placed));
    assert!(matches!(
        classify_block_change(Some(&stone), "minecraft:stone"),
        BlockChange::Unchanged
    ));
    assert!(matches!(
        classify_block_change(Some(&stone), "minecraft:air"),
        BlockChange::Removed
    ));
    assert!(matches!(
        classify_block_change(Some(&stone), "minecraft:dirt"),
        BlockChange::Placed
    ));
}

#[test]
fn test_generate_test_spec() {
    let mut r = RecorderState::new("fence/demo", "/tmp");
    r.record_place([10, 64, 10], "minecraft:stone");
    r.add_assertion([10, 64, 10], "minecraft:stone");
    r.next_tick();
    r.record_remove([10, 64, 10]);
    let spec = r.generate_test_spec();
    assert_eq!(spec.name, "fence_demo");
    assert_eq!(spec.tags, vec![String::from("recorded")]);
    assert_eq!(spec.cleanup_region, [[-1, -1, -1], [1, 1, 1]]);
    assert_eq!(spec.timeline.len(), 3);
    assert!(matches!(spec.timeline[0].at, TickSpec::Single(0)));
    match &spec.timeline[0].action_type {
        ActionType::PlaceEach { blocks } => {
            assert_eq!(blocks.len(), 1);
            assert_eq!(blocks[0].pos, [0, 0, 0]);
            assert_eq!(blocks[0].block.id, "minecraft:stone");
        },
        _ => panic!("expected the mutations first"),
    }
    match &spec.timeline[1].action_type {
        ActionType::Assert { checks } => {
            assert_eq!(checks.len(), 1);
            assert_eq!(checks[0].is.id, "minecraft:stone");
        },
        _ => panic!("expected the checks second"),
    }
    assert!(matches!(spec.timeline[2].at, TickSpec::Single(1)));
    match &spec.timeline[2].action_type {
        ActionType::PlaceEach { blocks } => {
            assert_eq!(blocks[0].block.id, "minecraft:air");
        },
        _ => panic!("expected the removal as an air placement"),
    }
    assert!(spec.breakpoints.is_empty());
}
