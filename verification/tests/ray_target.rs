use minecrust::block::{Block, BlockType, ChunkDataType};
use minecrust::face::Face;
use minecrust::mesh::FaceInstance;
use minecrust::raycast::{
    candidate_cubes, dirty_chunks_of_edit, Cube, Intersection, RayCandidate, RayHeading, RayHit,
    FURTHER_CANDIDATES, MAX_ITER,
};
use minecrust::world::{ChunkPos, WorldState};

fn flat_world() -> WorldState {
    let mut world = WorldState::new();
    world.initial_setup();
    world
}

fn cube(x: i64, y: i64, z: i64) -> Cube {
    Cube { x, y, z }
}

fn miss(x: i64, y: i64, z: i64) -> RayCandidate {
    RayCandidate { cube: cube(x, y, z), hit: None }
}

fn strike(x: i64, y: i64, z: i64, distance: u64, face: Face) -> RayCandidate {
    RayCandidate { cube: cube(x, y, z), hit: Some(Intersection { distance, face }) }
}

/// The candidates of a ray that falls straight down the column `(x, z)` from height `from`,
/// with the outcome of the ray-box test on each: the ray enters every cube of the column
/// below the eye through its top.
fn straight_down(x: i64, from: i64, z: i64) -> Vec<RayCandidate> {
    let samples: Vec<Cube> = (0..=MAX_ITER as i64).map(|k| cube(x, from - k, z)).collect();
    let heading = RayHeading { x: 1, y: -1, z: 1 };
    candidate_cubes(&samples, heading)
        .into_iter()
        .map(|c| {
            let hit = if c.x == x && c.z == z && c.y < from {
                Some(Intersection { distance: (from - c.y - 1) as u64, face: Face::Top })
            } else {
                None
            };
            RayCandidate { cube: c, hit }
        })
        .collect()
}

#[test]
fn no_samples_no_candidates() {
    assert!(candidate_cubes(&Vec::new(), RayHeading { x: 1, y: 1, z: 1 }).is_empty());
}

#[test]
fn the_eye_alone_proposes_its_own_cube() {
    let cubes = candidate_cubes(&vec![cube(3, 4, 5)], RayHeading { x: 1, y: 1, z: 1 });
    assert_eq!(cubes, vec![cube(3, 4, 5)]);
}

#[test]
fn a_step_proposes_the_cube_and_the_three_cubes_behind_its_faces() {
    let samples = vec![cube(10, 10, 10), cube(11, 11, 11)];
    let cubes = candidate_cubes(&samples, RayHeading { x: 5, y: 5, z: 5 });
    assert_eq!(
        cubes,
        vec![cube(10, 10, 10), cube(11, 11, 11), cube(11, 11, 10), cube(11, 10, 11), cube(10, 11, 11)]
    );
}

#[test]
fn neighbors_lie_on_the_side_the_ray_comes_from() {
    let samples = vec![cube(10, 10, 10), cube(9, 10, 11)];
    let cubes = candidate_cubes(&samples, RayHeading { x: -1, y: 0, z: 1 });
    assert_eq!(cubes, vec![cube(10, 10, 10), cube(9, 10, 11), cube(9, 10, 10), cube(10, 10, 11)]);
}

#[test]
fn candidates_outside_the_world_are_left_out() {
    let samples = vec![cube(0, 0, 0), cube(0, -1, 0), cube(-5, 3, 3), cube(128, 255, 127)];
    let cubes = candidate_cubes(&samples, RayHeading { x: 1, y: -1, z: 1 });
    // (0,-1,0) proposes (0,0,0) again, one step up; (-5,3,3) proposes nothing;
    // (128,255,127) proposes its neighbor at x = 127.
    assert_eq!(cubes, vec![cube(0, 0, 0), cube(127, 255, 127)]);
}

#[test]
fn samples_at_the_limits_of_the_integers_propose_nothing() {
    let samples = vec![cube(1, 1, 1), cube(i64::MIN, i64::MAX, 0), cube(i64::MAX, 0, i64::MIN)];
    let cubes = candidate_cubes(&samples, RayHeading { x: i64::MIN, y: i64::MAX, z: 0 });
    assert_eq!(cubes, vec![cube(1, 1, 1)]);
}

#[test]
fn only_max_iter_steps_are_used() {
    assert_eq!(MAX_ITER, 20);
    let samples: Vec<Cube> = (0..40).map(|k| cube(5, 100 - k, 5)).collect();
    let cubes = candidate_cubes(&samples, RayHeading { x: 0, y: -1, z: 0 });
    assert!(cubes.contains(&cube(5, 80, 5)));
    assert!(!cubes.contains(&cube(5, 79, 5)));
    // The eye and twenty steps; the cube one step back from each is the one before it.
    assert_eq!(cubes.len(), 21);
    assert_eq!(cubes[0], cube(5, 100, 5));
    assert_eq!(cubes[20], cube(5, 80, 5));
}

#[test]
fn candidates_hold_no_cube_twice() {
    let samples: Vec<Cube> = (0..=20).map(|k| cube(30 + k / 3, 40 - k / 2, 50 + k / 4)).collect();
    let cubes = candidate_cubes(&samples, RayHeading { x: 1, y: -1, z: 1 });
    for (i, a) in cubes.iter().enumerate() {
        assert!(a.in_world());
        for b in &cubes[i + 1..] {
            assert_ne!(a, b);
        }
    }
    assert!(cubes.len() <= 1 + 4 * MAX_ITER);
}

#[test]
fn a_ray_through_air_has_no_target() {
    let world = flat_world();
    let candidates: Vec<RayCandidate> =
        (0..30).map(|k| strike(10 + k, 50, 10, k as u64, Face::Left)).collect();
    assert_eq!(world.closest_hit(&candidates), None);
}

#[test]
fn a_ray_that_enters_no_solid_box_has_no_target() {
    let world = flat_world();
    let candidates = vec![miss(10, 1, 10), miss(11, 1, 10), miss(12, 0, 10)];
    assert_eq!(world.closest_hit(&candidates), None);
    assert_eq!(world.closest_hit(&Vec::new()), None);
}

#[test]
fn candidates_outside_the_world_are_never_struck() {
    let world = flat_world();
    let candidates = vec![strike(-1, 1, 0, 1, Face::Top), strike(0, 256, 0, 2, Face::Top), strike(128, 0, 0, 3, Face::Top)];
    assert_eq!(world.closest_hit(&candidates), None);
}

#[test]
fn the_nearest_strike_is_the_target() {
    let world = flat_world();
    let candidates = vec![
        miss(10, 5, 10),
        strike(10, 1, 10, 90, Face::Top),
        strike(11, 1, 10, 40, Face::Left),
        strike(12, 1, 10, 70, Face::Left),
    ];
    assert_eq!(
        world.closest_hit(&candidates),
        Some(RayHit { cube: cube(11, 1, 10), face: Face::Left, distance: 40 })
    );
}

#[test]
fn of_equally_near_strikes_the_first_is_the_target() {
    let world = flat_world();
    let candidates = vec![strike(10, 1, 10, 40, Face::Top), strike(11, 1, 10, 40, Face::Left)];
    assert_eq!(
        world.closest_hit(&candidates),
        Some(RayHit { cube: cube(10, 1, 10), face: Face::Top, distance: 40 })
    );
}

#[test]
fn the_scan_stops_six_candidates_after_the_first_strike() {
    assert_eq!(FURTHER_CANDIDATES, 6);
    let world = flat_world();
    let mut candidates = vec![miss(0, 9, 0), strike(20, 1, 20, 100, Face::Top)];
    for k in 0..5 {
        candidates.push(miss(21 + k, 1, 20));
    }
    // The sixth candidate after the first strike is still looked at ...
    candidates.push(strike(30, 1, 20, 50, Face::Top));
    // ... the seventh is not, near as it is.
    candidates.push(strike(31, 1, 20, 1, Face::Top));
    assert_eq!(
        world.closest_hit(&candidates),
        Some(RayHit { cube: cube(30, 1, 20), face: Face::Top, distance: 50 })
    );
}

#[test]
fn an_observer_inside_a_block_targets_that_block() {
    let world = flat_world();
    let samples = vec![cube(7, 1, 7), cube(7, 0, 7)];
    let candidates: Vec<RayCandidate> = candidate_cubes(&samples, RayHeading { x: 1, y: -1, z: 1 })
        .into_iter()
        .map(|c| RayCandidate {
            cube: c,
            hit: if c == cube(7, 1, 7) {
                Some(Intersection { distance: 0, face: Face::Bottom })
            } else if c == cube(7, 0, 7) {
                Some(Intersection { distance: 1, face: Face::Top })
            } else {
                None
            },
        })
        .collect();
    assert_eq!(
        world.closest_hit(&candidates),
        Some(RayHit { cube: cube(7, 1, 7), face: Face::Bottom, distance: 0 })
    );
}

#[test]
fn breaking_without_a_target_changes_nothing() {
    let mut world = flat_world();
    let candidates: Vec<RayCandidate> = (0..21).map(|k| miss(5, 10 + k, 5)).collect();
    let dirty = world.break_block(&candidates);
    assert!(dirty.is_empty());
    let dirty = world.place_block(&candidates, BlockType::Sand);
    assert!(dirty.is_empty());
    for x in 0..128 {
        for z in 0..128 {
            assert_eq!(world.block_at(x, 0, z).block_type, BlockType::Dirt);
            assert_eq!(world.block_at(x, 1, z).block_type, BlockType::Grass);
            assert_eq!(world.block_at(x, 2, z).block_type, BlockType::Air);
        }
    }
}

#[test]
fn looking_straight_down_breaks_the_grass_and_bares_the_dirt() {
    let mut world = flat_world();
    let chunk = ChunkPos { x: 0, z: 0 };
    world.recompute_visible_set(0, 0);
    let dirt_top = FaceInstance { position: cube(0, 0, 0), face: Face::Top, atlas_u: 2, atlas_v: 0 };
    let grass_top = FaceInstance { position: cube(0, 1, 0), face: Face::Top, atlas_u: 1, atlas_v: 0 };
    let before = world.compute_chunk_mesh(chunk);
    let before = &before.instances_of(ChunkDataType::Opaque).unwrap().instance_data;
    assert!(before.contains(&grass_top));
    assert!(!before.contains(&dirt_top));

    let candidates = straight_down(0, 10, 0);
    assert_eq!(
        world.closest_hit(&candidates),
        Some(RayHit { cube: cube(0, 1, 0), face: Face::Top, distance: 8 })
    );
    let dirty = world.break_block(&candidates);
    assert_eq!(dirty, vec![chunk]);
    assert_eq!(world.block_at(0, 1, 0).block_type, BlockType::Air);
    assert_eq!(world.block_at(0, 0, 0).block_type, BlockType::Dirt);
    assert_eq!(world.block_at(1, 1, 0).block_type, BlockType::Grass);

    let updates = world.regenerate(&dirty);
    assert_eq!(updates.len(), 1);
    assert_eq!(updates[0].data.position, chunk);
    let after = &updates[0].data.instances_of(ChunkDataType::Opaque).unwrap().instance_data;
    assert!(after.contains(&dirt_top));
    assert!(!after.contains(&grass_top));
    // The grass showed its top, left and back; the hole shows the dirt's top and the
    // sides of the two grass blocks beside it.
    assert_eq!(after.len(), before.len());
}

#[test]
fn placing_puts_the_block_against_the_face_that_was_struck() {
    let mut world = flat_world();
    let candidates = straight_down(40, 10, 40);
    let dirty = world.place_block(&candidates, BlockType::Sand);
    assert_eq!(dirty, vec![ChunkPos { x: 2, z: 2 }]);
    assert_eq!(world.block_at(40, 2, 40).block_type, BlockType::Sand);
    assert_eq!(world.block_at(40, 1, 40).block_type, BlockType::Grass);
    assert_eq!(world.block_at(40, 3, 40).block_type, BlockType::Air);

    let sideways = vec![strike(40, 2, 40, 3, Face::Left)];
    world.place_block(&sideways, BlockType::Water);
    assert_eq!(world.block_at(39, 2, 40).block_type, BlockType::Water);
}

#[test]
fn placing_beyond_the_edge_of_the_world_changes_nothing() {
    let mut world = flat_world();
    let candidates = vec![strike(0, 1, 9, 3, Face::Left)];
    assert!(world.place_block(&candidates, BlockType::Sand).is_empty());
    world.set_block_at(5, 255, 5, Block::new(BlockType::Dirt));
    let candidates = vec![strike(5, 255, 5, 3, Face::Top)];
    assert!(world.place_block(&candidates, BlockType::Sand).is_empty());
    assert_eq!(world.block_at(0, 1, 9).block_type, BlockType::Grass);
    assert_eq!(world.block_at(5, 255, 5).block_type, BlockType::Dirt);
}

#[test]
fn breaking_then_placing_the_same_kind_restores_the_mesh() {
    let mut world = flat_world();
    world.recompute_visible_set(70, 70);
    world.set_block_at(64, 2, 70, Block::new(BlockType::Sand));
    let chunks = [ChunkPos { x: 4, z: 4 }, ChunkPos { x: 3, z: 4 }];
    let before: Vec<Vec<FaceInstance>> = chunks
        .iter()
        .map(|&c| world.compute_chunk_mesh(c).instances_of(ChunkDataType::Opaque).unwrap().instance_data.clone())
        .collect();

    // The sand stands on the border of its chunk: breaking it dirties the next chunk too.
    let break_ray = vec![miss(64, 3, 70), strike(64, 2, 70, 5, Face::Top)];
    let dirty = world.break_block(&break_ray);
    assert_eq!(dirty, vec![ChunkPos { x: 4, z: 4 }, ChunkPos { x: 3, z: 4 }]);
    assert_eq!(world.block_at(64, 2, 70).block_type, BlockType::Air);
    let broken = world.compute_chunk_mesh(chunks[0]);
    assert_ne!(broken.instances_of(ChunkDataType::Opaque).unwrap().instance_data, before[0]);

    // The same ray now strikes the grass below, and the block goes back on top of it.
    let place_ray = vec![miss(64, 3, 70), miss(64, 2, 70), strike(64, 1, 70, 6, Face::Top)];
    let dirty = world.place_block(&place_ray, BlockType::Sand);
    assert_eq!(dirty, vec![ChunkPos { x: 4, z: 4 }, ChunkPos { x: 3, z: 4 }]);
    assert_eq!(world.block_at(64, 2, 70).block_type, BlockType::Sand);
    for (k, &c) in chunks.iter().enumerate() {
        let after = world.compute_chunk_mesh(c);
        assert_eq!(after.instances_of(ChunkDataType::Opaque).unwrap().instance_data, before[k]);
    }
}

#[test]
fn an_edit_dirties_the_chunks_that_share_its_border() {
    assert_eq!(dirty_chunks_of_edit(40, 40), vec![ChunkPos { x: 2, z: 2 }]);
    assert_eq!(dirty_chunks_of_edit(32, 40), vec![ChunkPos { x: 2, z: 2 }, ChunkPos { x: 1, z: 2 }]);
    assert_eq!(dirty_chunks_of_edit(47, 40), vec![ChunkPos { x: 2, z: 2 }, ChunkPos { x: 3, z: 2 }]);
    assert_eq!(dirty_chunks_of_edit(40, 32), vec![ChunkPos { x: 2, z: 2 }, ChunkPos { x: 2, z: 1 }]);
    assert_eq!(dirty_chunks_of_edit(40, 47), vec![ChunkPos { x: 2, z: 2 }, ChunkPos { x: 2, z: 3 }]);
    assert_eq!(
        dirty_chunks_of_edit(47, 32),
        vec![ChunkPos { x: 2, z: 2 }, ChunkPos { x: 3, z: 2 }, ChunkPos { x: 2, z: 1 }]
    );
    // At the edge of the world there is no chunk beyond the border.
    assert_eq!(dirty_chunks_of_edit(0, 0), vec![ChunkPos { x: 0, z: 0 }]);
    assert_eq!(dirty_chunks_of_edit(127, 127), vec![ChunkPos { x: 7, z: 7 }]);
    assert_eq!(dirty_chunks_of_edit(127, 112), vec![ChunkPos { x: 7, z: 7 }, ChunkPos { x: 7, z: 6 }]);
}
