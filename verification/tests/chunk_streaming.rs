use minecrust::block::{Block, BlockType, ChunkDataType};
use minecrust::face::Face;
use minecrust::raycast::{Cube, Intersection, RayCandidate};
use minecrust::streaming::{
    chunks_not_in, contains_chunk, find_chunk_neighbors, get_chunk_order_by_distance,
    touches_any_of,
};
use minecrust::world::{
    ChunkPos, ChunkState, WorldState, NO_RENDER_DESCRIPTOR_INDEX, VISIBLE_CHUNK_RADIUS,
};

fn chunk(x: usize, z: usize) -> ChunkPos {
    ChunkPos { x, z }
}

fn flat_world() -> WorldState {
    let mut world = WorldState::new();
    world.initial_setup();
    world
}

#[test]
fn chunk_of_a_block_column() {
    assert_eq!(ChunkPos::of_block(0, 0), chunk(0, 0));
    assert_eq!(ChunkPos::of_block(15, 16), chunk(0, 1));
    assert_eq!(ChunkPos::of_block(127, 64), chunk(7, 4));
}

#[test]
fn chunk_distance_is_the_larger_of_the_two_differences() {
    assert_eq!(chunk(4, 4).distance_to(chunk(4, 4)), 0);
    assert_eq!(chunk(4, 4).distance_to(chunk(6, 5)), 2);
    assert_eq!(chunk(1, 7).distance_to(chunk(3, 0)), 7);
    assert_eq!(chunk(0, 0).distance_to(chunk(0, 3)), 3);
}

#[test]
fn chunks_touch_across_a_face_only() {
    assert!(chunk(4, 4).touches(chunk(5, 4)));
    assert!(chunk(4, 4).touches(chunk(4, 3)));
    assert!(!chunk(4, 4).touches(chunk(5, 5)));
    assert!(!chunk(4, 4).touches(chunk(4, 4)));
    assert!(!chunk(4, 4).touches(chunk(6, 4)));
    assert!(touches_any_of(chunk(4, 4), &vec![chunk(0, 0), chunk(3, 4)]));
    assert!(!touches_any_of(chunk(4, 4), &vec![chunk(0, 0), chunk(3, 3)]));
    assert!(!touches_any_of(chunk(4, 4), &Vec::new()));
}

#[test]
fn chunk_order_in_the_corner_of_the_grid() {
    let order = get_chunk_order_by_distance(chunk(0, 0));
    assert_eq!(
        order,
        vec![
            chunk(0, 0),
            chunk(0, 1),
            chunk(1, 0),
            chunk(1, 1),
            chunk(0, 2),
            chunk(1, 2),
            chunk(2, 0),
            chunk(2, 1),
            chunk(2, 2),
        ]
    );
}

#[test]
fn chunk_order_holds_each_visible_chunk_once_and_no_other() {
    for &observer in &[chunk(4, 4), chunk(0, 0), chunk(7, 3), chunk(1, 6), chunk(7, 7)] {
        let order = get_chunk_order_by_distance(observer);
        for x in 0..8 {
            for z in 0..8 {
                let c = chunk(x, z);
                let visible = c.distance_to(observer) <= VISIBLE_CHUNK_RADIUS;
                assert_eq!(order.iter().filter(|&&o| o == c).count(), if visible { 1 } else { 0 });
            }
        }
        assert_eq!(order[0], observer);
        for pair in order.windows(2) {
            assert!(pair[0].distance_to(observer) <= pair[1].distance_to(observer));
        }
    }
    assert_eq!(get_chunk_order_by_distance(chunk(4, 4)).len(), 25);
    assert_eq!(get_chunk_order_by_distance(chunk(7, 3)).len(), 15);
}

#[test]
fn entering_and_leaving_chunks_of_a_step() {
    let old = get_chunk_order_by_distance(chunk(4, 4));
    let new = get_chunk_order_by_distance(chunk(5, 4));
    let entering = chunks_not_in(&new, &old);
    let leaving = chunks_not_in(&old, &new);
    assert_eq!(entering, vec![chunk(7, 2), chunk(7, 3), chunk(7, 4), chunk(7, 5), chunk(7, 6)]);
    assert_eq!(leaving, vec![chunk(2, 2), chunk(2, 3), chunk(2, 4), chunk(2, 5), chunk(2, 6)]);
    assert!(contains_chunk(&new, chunk(7, 4)));
    assert!(!contains_chunk(&old, chunk(7, 4)));
    let neighbors = find_chunk_neighbors(&entering, &old, &new);
    // In the sequence of the new order: the nearer three first.
    assert_eq!(neighbors, vec![chunk(6, 3), chunk(6, 4), chunk(6, 5), chunk(6, 2), chunk(6, 6)]);
}

#[test]
fn neighbors_that_go_out_of_view_are_not_remeshed() {
    // A jump of five chunks: the old window ends where the new one begins.
    let old = get_chunk_order_by_distance(chunk(1, 4));
    let new = get_chunk_order_by_distance(chunk(6, 4));
    let entering = chunks_not_in(&new, &old);
    assert_eq!(entering.len(), 20);
    assert!(find_chunk_neighbors(&entering, &old, &new).is_empty());
}

#[test]
fn the_first_view_gives_every_visible_chunk_a_fresh_slot() {
    let mut world = flat_world();
    let dirty = world.recompute_visible_set(70, 70);
    let order = get_chunk_order_by_distance(chunk(4, 4));
    assert_eq!(dirty, order);
    assert_eq!(*world.chunk_order(), order);
    assert_eq!(world.observer_chunk(), Some(chunk(4, 4)));
    assert_eq!(world.render_descriptor_count(), 25);
    for (k, &c) in order.iter().enumerate() {
        assert!(world.is_chunk_allocated(c));
        assert_eq!(world.get_render_descriptor_idx(c), k);
        assert_eq!(world.render_slot_holder(k), c);
    }
    assert!(!world.is_chunk_allocated(chunk(0, 0)));
    assert_eq!(world.get_render_descriptor_idx(chunk(0, 0)), NO_RENDER_DESCRIPTOR_INDEX);
    // The blocks are as they were.
    assert_eq!(world.block_at(70, 1, 70).block_type, BlockType::Grass);
    assert_eq!(world.block_at(70, 2, 70).block_type, BlockType::Air);
}

#[test]
fn moving_within_a_chunk_changes_nothing() {
    let mut world = flat_world();
    world.recompute_visible_set(64, 64);
    let order = world.chunk_order().clone();
    let slots: Vec<usize> = order.iter().map(|&c| world.get_render_descriptor_idx(c)).collect();
    for &(x, z) in &[(65, 64), (79, 79), (64, 79), (70, 71)] {
        let dirty = world.recompute_visible_set(x, z);
        assert!(dirty.is_empty());
        assert_eq!(*world.chunk_order(), order);
        assert_eq!(world.observer_chunk(), Some(chunk(4, 4)));
        assert_eq!(world.render_descriptor_count(), 25);
        let now: Vec<usize> = order.iter().map(|&c| world.get_render_descriptor_idx(c)).collect();
        assert_eq!(now, slots);
    }
}

#[test]
fn a_step_hands_the_slots_of_leaving_chunks_to_entering_chunks() {
    let mut world = flat_world();
    world.recompute_visible_set(70, 70);
    let leaving = [chunk(2, 2), chunk(2, 3), chunk(2, 4), chunk(2, 5), chunk(2, 6)];
    let entering = [chunk(7, 2), chunk(7, 3), chunk(7, 4), chunk(7, 5), chunk(7, 6)];
    let slots: Vec<usize> = leaving.iter().map(|&c| world.get_render_descriptor_idx(c)).collect();
    let staying = chunk(5, 5);
    let staying_slot = world.get_render_descriptor_idx(staying);

    let dirty = world.recompute_visible_set(80, 70);
    assert_eq!(world.observer_chunk(), Some(chunk(5, 4)));
    assert_eq!(*world.chunk_order(), get_chunk_order_by_distance(chunk(5, 4)));
    assert_eq!(
        dirty,
        vec![
            chunk(6, 3), chunk(6, 4), chunk(6, 5), chunk(6, 2), chunk(6, 6),
            chunk(7, 2), chunk(7, 3), chunk(7, 4), chunk(7, 5), chunk(7, 6),
        ]
    );
    assert_eq!(world.render_descriptor_count(), 25);
    for k in 0..5 {
        assert_eq!(world.get_render_descriptor_idx(entering[k]), slots[k]);
        assert_eq!(world.render_slot_holder(slots[k]), entering[k]);
        assert_eq!(world.get_render_descriptor_idx(leaving[k]), NO_RENDER_DESCRIPTOR_INDEX);
        assert!(world.is_chunk_allocated(leaving[k]));
        assert!(world.is_chunk_allocated(entering[k]));
    }
    assert_eq!(world.get_render_descriptor_idx(staying), staying_slot);
}

#[test]
fn leaving_chunks_beyond_the_entering_ones_keep_their_slots() {
    let mut world = flat_world();
    world.recompute_visible_set(5 * 16, 4 * 16);
    assert_eq!(world.render_descriptor_count(), 25);
    // Towards the edge of the grid the window is cut: five chunks leave, none enters.
    let dirty = world.recompute_visible_set(6 * 16, 4 * 16);
    assert!(dirty.is_empty());
    assert_eq!(world.chunk_order().len(), 20);
    assert_eq!(world.render_descriptor_count(), 25);
    for z in 2..7 {
        assert_ne!(world.get_render_descriptor_idx(chunk(3, z)), NO_RENDER_DESCRIPTOR_INDEX);
    }
    // Coming back, the five chunks are in view again with the slots they kept.
    let kept: Vec<usize> = (2..7).map(|z| world.get_render_descriptor_idx(chunk(3, z))).collect();
    let dirty = world.recompute_visible_set(5 * 16, 4 * 16);
    assert_eq!(
        dirty,
        vec![
            chunk(4, 3), chunk(4, 4), chunk(4, 5), chunk(4, 2), chunk(4, 6),
            chunk(3, 2), chunk(3, 3), chunk(3, 4), chunk(3, 5), chunk(3, 6),
        ]
    );
    assert_eq!(world.render_descriptor_count(), 25);
    let now: Vec<usize> = (2..7).map(|z| world.get_render_descriptor_idx(chunk(3, z))).collect();
    assert_eq!(now, kept);
}

#[test]
fn entering_chunks_beyond_the_leaving_ones_get_fresh_slots() {
    let mut world = flat_world();
    // In the corner nine chunks are in view.
    world.recompute_visible_set(0, 0);
    assert_eq!(world.render_descriptor_count(), 9);
    // One step along the diagonal: sixteen are in view, seven of them new, none leaves.
    let dirty = world.recompute_visible_set(16, 16);
    assert_eq!(world.chunk_order().len(), 16);
    assert_eq!(world.render_descriptor_count(), 16);
    let entering = [chunk(0, 3), chunk(1, 3), chunk(2, 3), chunk(3, 0), chunk(3, 1), chunk(3, 2), chunk(3, 3)];
    for (k, &c) in entering.iter().enumerate() {
        assert_eq!(world.get_render_descriptor_idx(c), 9 + k);
    }
    // Five chunks on the far sides of the old window touch the new ones.
    assert_eq!(
        &dirty[..5],
        &[chunk(0, 2), chunk(1, 2), chunk(2, 0), chunk(2, 1), chunk(2, 2)][..]
    );
    assert_eq!(&dirty[5..], &entering[..]);
}

#[test]
fn a_jump_across_the_world_moves_every_slot() {
    let mut world = flat_world();
    world.recompute_visible_set(2 * 16, 2 * 16);
    let old_order = world.chunk_order().clone();
    let dirty = world.recompute_visible_set(5 * 16 + 3, 5 * 16 + 3);
    let new_order = get_chunk_order_by_distance(chunk(5, 5));
    assert_eq!(*world.chunk_order(), new_order);
    assert_eq!(world.render_descriptor_count(), 25);
    // The windows share the four chunks (3..=4, 3..=4); three of them touch a new chunk.
    assert_eq!(dirty.len(), 3 + 21);
    assert_eq!(&dirty[..3], &[chunk(4, 4), chunk(3, 4), chunk(4, 3)][..]);
    let mut seen = vec![false; 25];
    for &c in &new_order {
        let slot = world.get_render_descriptor_idx(c);
        assert!(slot < 25);
        assert!(!seen[slot]);
        seen[slot] = true;
        assert_eq!(world.render_slot_holder(slot), c);
    }
    for &c in &old_order {
        if !contains_chunk(&new_order, c) {
            assert_eq!(world.get_render_descriptor_idx(c), NO_RENDER_DESCRIPTOR_INDEX);
        }
    }
}

#[test]
fn regenerate_meshes_each_dirty_chunk_once() {
    let mut world = flat_world();
    world.recompute_visible_set(70, 70);
    world.set_block_at(70, 2, 70, Block::new(BlockType::Sand));
    let dirty = vec![chunk(4, 4), chunk(0, 0), chunk(4, 4), chunk(9, 9), chunk(5, 4), chunk(4, 4)];
    let updates = world.regenerate(&dirty);
    // (0,0) holds no slot and (9,9) is no chunk of the grid.
    assert_eq!(updates.len(), 2);
    assert_eq!(updates[0].data.position, chunk(4, 4));
    assert_eq!(updates[0].render_descriptor_idx, world.get_render_descriptor_idx(chunk(4, 4)));
    assert_eq!(updates[1].data.position, chunk(5, 4));
    assert_eq!(updates[1].render_descriptor_idx, world.get_render_descriptor_idx(chunk(5, 4)));
    let opaque = &updates[0].data.instances_of(ChunkDataType::Opaque).unwrap().instance_data;
    assert_eq!(opaque.len(), 512 - 1 + 5);
    assert!(world.regenerate(&Vec::new()).is_empty());
}

#[test]
fn generate_vertex_data_meshes_the_chunks_in_view() {
    let mut world = flat_world();
    let (meshes, order) = world.generate_vertex_data(70, 70);
    assert_eq!(order, get_chunk_order_by_distance(chunk(4, 4)));
    assert_eq!(*world.chunk_order(), order);
    assert_eq!(meshes.len(), 25);
    for (k, mesh) in meshes.iter().enumerate() {
        assert_eq!(mesh.position, order[k]);
        assert_eq!(mesh.typed_instances_vec.len(), 3);
        assert_eq!(mesh.instances_of(ChunkDataType::Opaque).unwrap().instance_data.len(), 512);
        assert_eq!(world.get_render_descriptor_idx(order[k]), k);
    }
    // Called again from the same chunk it meshes again and moves nothing.
    let (again, same_order) = world.generate_vertex_data(71, 75);
    assert_eq!(same_order, order);
    assert_eq!(again.len(), 25);
    assert_eq!(world.render_descriptor_count(), 25);
}

#[test]
fn compute_meshes_leaves_the_chunks_as_they_are() {
    let mut world = flat_world();
    world.recompute_visible_set(70, 70);
    let updates = world.compute_meshes(&vec![chunk(4, 4), chunk(4, 4), chunk(0, 0)]);
    assert_eq!(updates.len(), 1);
    assert_eq!(updates[0].data.position, chunk(4, 4));
    assert_eq!(world.chunk_state(chunk(4, 4)), ChunkState::Stale);
}

#[test]
fn chunks_go_from_unallocated_to_stale_to_meshed() {
    let mut world = flat_world();
    assert_eq!(world.chunk_state(chunk(4, 4)), ChunkState::Unallocated);
    let dirty = world.recompute_visible_set(70, 70);
    for &c in &dirty {
        assert_eq!(world.chunk_state(c), ChunkState::Stale);
    }
    assert_eq!(world.chunk_state(chunk(0, 0)), ChunkState::Unallocated);
    world.regenerate(&dirty);
    for &c in &dirty {
        assert_eq!(world.chunk_state(c), ChunkState::Meshed);
    }
    // A step: the chunks coming into view and their neighbors are stale, the rest is not.
    let dirty = world.recompute_visible_set(86, 70);
    assert_eq!(world.chunk_state(chunk(7, 4)), ChunkState::Stale);
    assert_eq!(world.chunk_state(chunk(6, 4)), ChunkState::Stale);
    assert_eq!(world.chunk_state(chunk(5, 4)), ChunkState::Meshed);
    // The chunks that went out of view stay allocated and meshed.
    assert_eq!(world.chunk_state(chunk(2, 4)), ChunkState::Meshed);
    world.regenerate(&dirty);
    assert_eq!(world.chunk_state(chunk(7, 4)), ChunkState::Meshed);
    assert_eq!(world.chunk_state(chunk(6, 4)), ChunkState::Meshed);
}

#[test]
fn an_edit_makes_its_chunks_stale_until_they_are_meshed_again() {
    let mut world = flat_world();
    world.generate_vertex_data(70, 70);
    for &c in world.chunk_order().clone().iter() {
        assert_eq!(world.chunk_state(c), ChunkState::Meshed);
    }
    // A block on the border between the chunks (4,4) and (3,4).
    let ray = vec![RayCandidate {
        cube: Cube { x: 64, y: 1, z: 70 },
        hit: Some(Intersection { distance: 4, face: Face::Top }),
    }];
    let dirty = world.break_block(&ray);
    assert_eq!(dirty, vec![chunk(4, 4), chunk(3, 4)]);
    assert_eq!(world.chunk_state(chunk(4, 4)), ChunkState::Stale);
    assert_eq!(world.chunk_state(chunk(3, 4)), ChunkState::Stale);
    assert_eq!(world.chunk_state(chunk(5, 4)), ChunkState::Meshed);
    let updates = world.regenerate(&dirty);
    assert_eq!(updates.len(), 2);
    assert_eq!(world.chunk_state(chunk(4, 4)), ChunkState::Meshed);
    assert_eq!(world.chunk_state(chunk(3, 4)), ChunkState::Meshed);
}

#[test]
fn a_chunk_without_a_slot_stays_stale_and_an_unallocated_one_unallocated() {
    let mut world = flat_world();
    world.generate_vertex_data(70, 70);
    world.generate_vertex_data(86, 70);
    // (2,4) went out of view and gave its slot away; (0,4) was never in view.
    assert_eq!(world.get_render_descriptor_idx(chunk(2, 4)), NO_RENDER_DESCRIPTOR_INDEX);
    let ray = vec![RayCandidate {
        cube: Cube { x: 32, y: 1, z: 70 },
        hit: Some(Intersection { distance: 4, face: Face::Top }),
    }];
    let dirty = world.place_block(&ray, BlockType::Sand);
    assert_eq!(dirty, vec![chunk(2, 4), chunk(1, 4)]);
    assert_eq!(world.chunk_state(chunk(2, 4)), ChunkState::Stale);
    assert_eq!(world.chunk_state(chunk(1, 4)), ChunkState::Unallocated);
    assert!(world.regenerate(&dirty).is_empty());
    assert_eq!(world.chunk_state(chunk(2, 4)), ChunkState::Stale);
    // Back in view it is meshed again.
    let (meshes, order) = world.generate_vertex_data(70, 70);
    assert_eq!(world.chunk_state(chunk(2, 4)), ChunkState::Meshed);
    let at = order.iter().position(|&c| c == chunk(2, 4)).unwrap();
    assert_eq!(meshes[at].instances_of(ChunkDataType::Opaque).unwrap().instance_data.len(), 512 - 1 + 5);
}
