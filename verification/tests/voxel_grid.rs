use minecrust::block::{Block, BlockType, ChunkDataType};
use minecrust::face::Face;
use minecrust::world::{
    ChunkPos, ChunkState, WorldState, CHUNK_XZ_SIZE, CHUNK_Y_SIZE, MAX_CHUNK_WORLD_WIDTH,
    NO_RENDER_DESCRIPTOR_INDEX, NUM_BLOCKS_IN_CHUNK, NUM_CHUNKS_IN_WORLD, VISIBLE_CHUNK_RADIUS,
    VISIBLE_CHUNK_WIDTH, WORLD_XZ_SIZE, WORLD_Y_SIZE,
};

#[test]
fn constants_agree_with_each_other() {
    assert_eq!(NUM_BLOCKS_IN_CHUNK, CHUNK_XZ_SIZE * CHUNK_Y_SIZE * CHUNK_XZ_SIZE);
    assert_eq!(NUM_CHUNKS_IN_WORLD, MAX_CHUNK_WORLD_WIDTH * MAX_CHUNK_WORLD_WIDTH);
    assert_eq!(WORLD_XZ_SIZE, MAX_CHUNK_WORLD_WIDTH * CHUNK_XZ_SIZE);
    assert_eq!(WORLD_Y_SIZE, CHUNK_Y_SIZE);
    assert_eq!(VISIBLE_CHUNK_WIDTH, 2 * VISIBLE_CHUNK_RADIUS + 1);
}

#[test]
fn default_block_is_air() {
    assert_eq!(Block::default().block_type, BlockType::Air);
    assert_eq!(Block::new(BlockType::Sand).block_type, BlockType::Sand);
}

#[test]
fn block_kinds_have_their_material_class() {
    assert_eq!(BlockType::Air.data_type(), None);
    assert_eq!(BlockType::Grass.data_type(), Some(ChunkDataType::Opaque));
    assert_eq!(BlockType::Dirt.data_type(), Some(ChunkDataType::Opaque));
    assert_eq!(BlockType::Sand.data_type(), Some(ChunkDataType::Opaque));
    assert_eq!(BlockType::Water.data_type(), Some(ChunkDataType::Transluscent));
    assert_eq!(BlockType::Leaves.data_type(), Some(ChunkDataType::SemiTransluscent));
    assert!(!BlockType::Air.is_solid());
    assert!(BlockType::Water.is_solid());
    assert!(BlockType::Dirt.is_opaque());
    assert!(!BlockType::Water.is_opaque());
    assert!(!BlockType::Leaves.is_opaque());
    assert!(!BlockType::Air.is_opaque());
}

#[test]
fn faces_are_numbered() {
    let faces = [Face::Top, Face::Bottom, Face::Right, Face::Left, Face::Front, Face::Back];
    for (n, face) in faces.iter().enumerate() {
        assert_eq!(face.ordinal(), n);
        assert_eq!(Face::from_ordinal(n), *face);
    }
}

#[test]
fn new_world_is_air_and_unallocated() {
    let world = WorldState::new();
    for &(x, y, z) in &[(0, 0, 0), (127, 255, 127), (16, 1, 15), (64, 128, 3)] {
        assert_eq!(world.readonly_block_at(x, y, z).block_type, BlockType::Air);
    }
    assert!(!world.is_chunk_allocated(ChunkPos { x: 0, z: 0 }));
    assert_eq!(
        world.get_render_descriptor_idx(ChunkPos { x: 7, z: 7 }),
        NO_RENDER_DESCRIPTOR_INDEX
    );
    assert_eq!(world.render_descriptor_count(), 0);
    assert!(world.chunk_order().is_empty());
    assert_eq!(world.observer_chunk(), None);
}

#[test]
fn initial_setup_lays_dirt_then_grass_everywhere() {
    let mut world = WorldState::new();
    world.initial_setup();
    for x in 0..WORLD_XZ_SIZE {
        for z in 0..WORLD_XZ_SIZE {
            assert_eq!(world.block_at(x, 0, z).block_type, BlockType::Dirt);
            assert_eq!(world.block_at(x, 1, z).block_type, BlockType::Grass);
            assert_eq!(world.block_at(x, 2, z).block_type, BlockType::Air);
        }
    }
    assert_eq!(world.block_at(5, 255, 5).block_type, BlockType::Air);
    assert_eq!(world.render_descriptor_count(), 0);
}

#[test]
fn initial_setup_keeps_what_lies_above_the_terrain() {
    let mut world = WorldState::new();
    world.set_block_at(3, 7, 9, Block::new(BlockType::Sand));
    world.set_block_at(3, 1, 9, Block::new(BlockType::Water));
    world.initial_setup();
    assert_eq!(world.block_at(3, 7, 9).block_type, BlockType::Sand);
    assert_eq!(world.block_at(3, 1, 9).block_type, BlockType::Grass);
}

#[test]
fn set_block_changes_one_cell_only() {
    let mut world = WorldState::new();
    world.initial_setup();
    world.set_block_at(16, 5, 31, Block::new(BlockType::Sand));
    assert_eq!(world.block_at(16, 5, 31).block_type, BlockType::Sand);
    for &(x, y, z) in &[(15, 5, 31), (17, 5, 31), (16, 4, 31), (16, 6, 31), (16, 5, 30), (16, 5, 32), (0, 5, 31), (16, 5, 15)] {
        assert_eq!(world.block_at(x, y, z).block_type, BlockType::Air);
    }
    assert_eq!(world.block_at(16, 1, 31).block_type, BlockType::Grass);
}

#[test]
fn cells_at_the_corners_of_the_world_are_stored_apart() {
    let mut world = WorldState::new();
    let corners = [
        (0, 0, 0, BlockType::Grass),
        (127, 0, 0, BlockType::Dirt),
        (0, 255, 0, BlockType::Sand),
        (0, 0, 127, BlockType::Water),
        (127, 255, 127, BlockType::Leaves),
    ];
    for &(x, y, z, kind) in &corners {
        world.set_block_at(x, y, z, Block::new(kind));
    }
    for &(x, y, z, kind) in &corners {
        assert_eq!(world.readonly_block_at(x, y, z).block_type, kind);
    }
}

#[test]
fn allocating_a_chunk_marks_it_and_nothing_else() {
    let mut world = WorldState::new();
    assert_eq!(world.chunk_state(ChunkPos { x: 3, z: 5 }), ChunkState::Unallocated);
    world.maybe_allocate_chunk(ChunkPos { x: 3, z: 5 });
    assert!(world.is_chunk_allocated(ChunkPos { x: 3, z: 5 }));
    assert!(!world.is_chunk_allocated(ChunkPos { x: 5, z: 3 }));
    // No mesh of the chunk has been made yet.
    assert_eq!(world.chunk_state(ChunkPos { x: 3, z: 5 }), ChunkState::Stale);
    assert_eq!(world.chunk_state(ChunkPos { x: 5, z: 3 }), ChunkState::Unallocated);
    assert_eq!(
        world.get_render_descriptor_idx(ChunkPos { x: 3, z: 5 }),
        NO_RENDER_DESCRIPTOR_INDEX
    );
    world.maybe_allocate_chunk(ChunkPos { x: 3, z: 5 });
    assert!(world.is_chunk_allocated(ChunkPos { x: 3, z: 5 }));
}

#[test]
fn only_allocated_chunks_become_stale() {
    let mut world = WorldState::new();
    world.maybe_allocate_chunk(ChunkPos { x: 1, z: 1 });
    world.mark_chunks_stale(&vec![ChunkPos { x: 1, z: 1 }, ChunkPos { x: 2, z: 2 }, ChunkPos { x: 9, z: 0 }]);
    assert_eq!(world.chunk_state(ChunkPos { x: 1, z: 1 }), ChunkState::Stale);
    assert_eq!(world.chunk_state(ChunkPos { x: 2, z: 2 }), ChunkState::Unallocated);
}
