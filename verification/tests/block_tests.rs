use flintmc::block::{block_matches, extract_block_id, make_block, normalize_block_name, Block};

#[test]
fn test_extract_block_id_simple() {
    let input = "BlockState(id: 1, Stone)";
    assert_eq!(extract_block_id(input), "minecraft:stone");
}

#[test]
fn test_extract_block_id_with_properties() {
    let input = "BlockState(id: 6795, OakFence { east: false, north: true })";
    let result = extract_block_id(input);
    assert!(result.starts_with("minecraft:oak_fence["));
    assert!(result.contains("east=false"));
    assert!(result.contains("north=true"));
}

#[test]
fn test_extract_block_id_sorts_properties() {
    let input = "BlockState(id: 10, OakFence { north: true, east: false })";
    assert_eq!(
        extract_block_id(input),
        "minecraft:oak_fence[east=false,north=true]"
    );
}

#[test]
fn test_extract_block_id_raw_form() {
    assert_eq!(extract_block_id("stone"), "minecraft:stone");
    assert_eq!(extract_block_id("granite,polished"), "minecraft:granite");
}

#[test]
fn test_extract_block_id_fallback_braces() {
    let input = "BlockState { stone, properties: {} }";
    assert_eq!(extract_block_id(input), "minecraft:stone");
}

#[test]
fn test_make_block_simple() {
    let block = make_block("minecraft:stone");
    assert_eq!(block.id, "minecraft:stone");
    assert!(block.properties.is_empty());
}

#[test]
fn test_make_block_with_properties() {
    let block = make_block("minecraft:oak_fence[east=true,west=false]");
    assert_eq!(block.id, "minecraft:oak_fence");
    assert_eq!(block.get_property("east"), Some(String::from("true")));
}

#[test]
fn test_make_block_duplicate_keys_keep_last() {
    let block = make_block("minecraft:oak_fence[east=true,east=false]");
    assert_eq!(block.get_property("east"), Some(String::from("false")));
    assert_eq!(block.properties.len(), 1);
}

#[test]
fn test_block_matches() {
    assert!(block_matches("OakFence", "minecraft:oak_fence"));
    assert!(block_matches("minecraft:oak_fence", "oak_fence"));
    assert!(!block_matches("SpruceFence", "oak_fence"));
}

#[test]
fn test_block_matches_reflexive_examples() {
    assert!(block_matches("ns:foo_bar", "foo_bar"));
    assert!(!block_matches("ns:foo", "bar"));
    assert!(block_matches("minecraft:oak_fence", "minecraft:oak_fence"));
    assert!(block_matches("BlockState(id: 1, Stone)", "BlockState(id: 1, Stone)"));
}

#[test]
fn test_normalize_block_name() {
    assert_eq!(normalize_block_name("minecraft:Oak_Fence"), "oakfence");
    assert_eq!(normalize_block_name("stone"), "stone");
}

#[test]
fn test_command_round_trip() {
    let block = Block {
        id: String::from("minecraft:oak_fence"),
        properties: vec![
            (String::from("east"), String::from("true")),
            (String::from("west"), String::from("false")),
        ],
    };
    let cmd = block.to_command();
    assert_eq!(cmd, "minecraft:oak_fence[east=true,west=false]");
    let back = make_block(&cmd);
    assert_eq!(back.id, "minecraft:oak_fence");
    assert_eq!(back.properties.len(), 2);
    assert_eq!(back.get_property("east"), Some(String::from("true")));
    assert_eq!(back.get_property("west"), Some(String::from("false")));
}

#[test]
fn test_command_round_trip_plain() {
    let block = Block {
        id: String::from("minecraft:dirt"),
        properties: Vec::new(),
    };
    let cmd = block.to_command();
    assert_eq!(cmd, "minecraft:dirt");
    let back = make_block(&cmd);
    assert_eq!(back.id, "minecraft:dirt");
    assert!(back.properties.is_empty());
}
