use turtle_manager::pathfinder::Point3D;
use turtle_manager::turtle::{Block, HeightBand, PersistenceError, World};

fn block(x: i32, y: i32, z: i32, kind: &str) -> Block {
    Block::new(Point3D::new(x, y, z), kind.to_string())
}

fn sample() -> World {
    let mut world = World::new();
    world.set_block(block(1, -1, 300, "minecraft:stone"));
    world.set_block(block(-70000, 0, i32::MAX, "minecraft:air"));
    world.set_block(block(i32::MIN, 250, -251, ""));
    world.set_block(block(0, 125, -126, "tr\u{e4}umerei \u{1f422}"));
    world
}

/// The bytes that bincode itself writes for the same values.
fn written_by_bincode(world: &World) -> Vec<u8> {
    let plain: Vec<((i32, i32, i32), String)> = world
        .blocks()
        .iter()
        .map(|b| {
            let p = b.position();
            ((p.x, p.y, p.z), b.block_type().to_string())
        })
        .collect();
    bincode::encode_to_vec(plain, bincode::config::standard()).unwrap()
}

#[test]
fn snapshot_of_an_empty_world_is_one_zero() {
    assert_eq!(World::new().save_world(), vec![0u8]);
}

#[test]
fn snapshot_holds_count_coordinates_and_name() {
    let mut world = World::new();
    world.set_block(block(1, -1, 300, "minecraft:stone"));
    let mut expected: Vec<u8> = vec![1, 2, 1, 251, 0x58, 0x02, 15];
    expected.extend_from_slice(b"minecraft:stone");
    assert_eq!(world.save_world(), expected);
}

#[test]
fn wide_numbers_take_the_wide_forms() {
    let mut world = World::new();
    world.set_block(block(125, -126, 126, "x"));
    world.set_block(block(32767, -32768, 32768, "y"));
    world.set_block(block(i32::MAX, i32::MIN, -32769, "z"));
    let expected: Vec<u8> = vec![
        3, //
        250, 251, 251, 0, 251, 252, 0, 1, b'x', //
        251, 0xfe, 0xff, 251, 0xff, 0xff, 252, 0, 0, 1, 0, 1, b'y', //
        252, 0xfe, 0xff, 0xff, 0xff, 252, 0xff, 0xff, 0xff, 0xff, 252, 1, 0, 1, 0, 1, b'z',
    ];
    assert_eq!(world.save_world(), expected);
}

#[test]
fn snapshot_is_what_bincode_writes() {
    let world = sample();
    assert_eq!(world.save_world(), written_by_bincode(&world));
    let mut large = World::new();
    for i in 0..300 {
        large.add_block(block(i, i * 1000, -i * 100000, &"n".repeat(i as usize)));
    }
    assert_eq!(large.save_world(), written_by_bincode(&large));
}

#[test]
fn saved_world_loads_back_equal() {
    let world = sample();
    let bytes = world.save_world();
    let mut loaded = World::new();
    loaded.set_block(block(9, 9, 9, "minecraft:dirt"));
    assert_eq!(loaded.load_world(Some(&bytes)), Ok(()));
    assert_eq!(loaded, world);
}

#[test]
fn large_world_loads_back_equal() {
    let mut world = World::new();
    for i in 0..300 {
        world.add_block(block(i * 7919, -i, i32::MAX - i, &"\u{e9}".repeat(i as usize)));
    }
    let bytes = world.save_world();
    let mut loaded = World::new();
    assert_eq!(loaded.load_world(Some(&bytes)), Ok(()));
    assert_eq!(loaded, world);
    assert_eq!(loaded.blocks().len(), 300);
}

#[test]
fn missing_file_gives_an_empty_world() {
    let mut world = sample();
    assert_eq!(world.load_world(None), Ok(()));
    assert_eq!(world, World::new());
}

#[test]
fn empty_file_is_corrupt_and_leaves_the_world() {
    let mut world = sample();
    assert_eq!(world.load_world(Some(&[])), Err(PersistenceError::Corrupt));
    assert_eq!(world, sample());
}

#[test]
fn truncated_snapshot_is_corrupt() {
    let bytes = sample().save_world();
    for cut in 0..bytes.len() {
        let mut world = World::new();
        world.set_block(block(5, 5, 5, "kept"));
        assert_eq!(world.load_world(Some(&bytes[..cut])), Err(PersistenceError::Corrupt));
        assert_eq!(world.blocks().len(), 1);
    }
}

#[test]
fn bytes_behind_the_snapshot_are_ignored() {
    let mut bytes = sample().save_world();
    bytes.extend_from_slice(&[1, 2, 3, 255]);
    let mut world = World::new();
    assert_eq!(world.load_world(Some(&bytes)), Ok(()));
    assert_eq!(world, sample());
}

#[test]
fn name_that_is_no_utf8_is_corrupt() {
    let bytes: Vec<u8> = vec![1, 0, 0, 0, 2, 0xc3, 0x28];
    let mut world = World::new();
    assert_eq!(world.load_world(Some(&bytes)), Err(PersistenceError::Corrupt));
    let good: Vec<u8> = vec![1, 0, 0, 0, 2, 0xc3, 0xa9];
    assert_eq!(world.load_world(Some(&good)), Ok(()));
    assert_eq!(world.blocks()[0], block(0, 0, 0, "\u{e9}"));
}

#[test]
fn coordinate_wider_than_32_bits_is_corrupt() {
    let bytes: Vec<u8> = vec![1, 253, 1, 0, 0, 0, 0, 0, 0, 0, 0, 0, 0];
    let mut world = World::new();
    assert_eq!(world.load_world(Some(&bytes)), Err(PersistenceError::Corrupt));
}

#[test]
fn reserved_marker_is_corrupt() {
    let mut world = World::new();
    assert_eq!(world.load_world(Some(&[254, 0, 0, 0])), Err(PersistenceError::Corrupt));
    assert_eq!(world.load_world(Some(&[255])), Err(PersistenceError::Corrupt));
}

#[test]
fn count_beyond_the_bytes_is_corrupt() {
    let mut bytes: Vec<u8> = vec![253, 0xff, 0xff, 0xff, 0xff, 0xff, 0xff, 0xff, 0x7f];
    bytes.extend_from_slice(&[0, 0, 0, 1, b'a']);
    let mut world = World::new();
    assert_eq!(world.load_world(Some(&bytes)), Err(PersistenceError::Corrupt));
}

#[test]
fn name_longer_than_the_bytes_is_corrupt() {
    let bytes: Vec<u8> = vec![1, 0, 0, 0, 253, 0xff, 0xff, 0xff, 0xff, 0xff, 0xff, 0xff, 0xff, b'a'];
    let mut world = World::new();
    assert_eq!(world.load_world(Some(&bytes)), Err(PersistenceError::Corrupt));
}

#[test]
fn numbers_in_a_wider_form_than_needed_are_read() {
    // count 1 as a 16-bit number, x = 1 as a 32-bit number, y = -1, z = 0, name "a" with a 64-bit length
    let bytes: Vec<u8> = vec![251, 1, 0, 252, 2, 0, 0, 0, 1, 0, 253, 1, 0, 0, 0, 0, 0, 0, 0, b'a'];
    let mut world = World::new();
    assert_eq!(world.load_world(Some(&bytes)), Ok(()));
    assert_eq!(world.blocks().len(), 1);
    assert_eq!(world.blocks()[0], block(1, -1, 0, "a"));
}

#[test]
fn loading_reads_what_bincode_wrote() {
    let world = sample();
    let bytes = written_by_bincode(&world);
    let mut loaded = World::new();
    assert_eq!(loaded.load_world(Some(&bytes)), Ok(()));
    assert_eq!(loaded, world);
}

#[test]
fn loading_keeps_the_band_of_heights() {
    let band = HeightBand { min: -5, max: 5 };
    let mut world = World::new().with_height_band(band);
    assert_eq!(world.load_world(Some(&sample().save_world())), Ok(()));
    assert_eq!(world.height_band(), band);
    assert_eq!(world.blocks().len(), sample().blocks().len());
    assert_eq!(world.load_world(None), Ok(()));
    assert_eq!(world.height_band(), band);
    assert!(world.blocks().is_empty());
}
