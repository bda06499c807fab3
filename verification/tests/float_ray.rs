use cgmath::{InnerSpace, MetricSpace, Point3, Vector3};
use collision::{Aabb3, Continuous, Ray3};
use minecrust::block::{Block, BlockType};
use minecrust::face::Face;
use minecrust::raycast::{candidate_cubes, Cube, Intersection, RayCandidate, RayHeading, RayHit, MAX_ITER};
use minecrust::world::{ChunkPos, WorldState};

fn cube_under(point: Point3<f32>) -> Cube {
    Cube { x: point.x.floor() as i64, y: point.y.floor() as i64, z: point.z.floor() as i64 }
}

fn entered_face(cube: Cube, point: Point3<f32>) -> Face {
    let sides = [
        (Face::Left, (point.x - cube.x as f32).abs()),
        (Face::Right, (point.x - cube.x as f32 - 1.0).abs()),
        (Face::Bottom, (point.y - cube.y as f32).abs()),
        (Face::Top, (point.y - cube.y as f32 - 1.0).abs()),
        (Face::Back, (point.z - cube.z as f32).abs()),
        (Face::Front, (point.z - cube.z as f32 - 1.0).abs()),
    ];
    let mut nearest = sides[0];
    for side in &sides[1..] {
        if side.1 < nearest.1 {
            nearest = *side;
        }
    }
    nearest.0
}

/// Walks the ray and tests it against each candidate box, in `f32`.
fn probe(eye: Point3<f32>, target: Point3<f32>) -> Vec<RayCandidate> {
    let forward: Vector3<f32> = (target - eye).normalize();
    let mut samples = vec![cube_under(eye)];
    let mut position = eye;
    for _ in 0..MAX_ITER {
        position += forward;
        samples.push(cube_under(position));
    }
    let heading = RayHeading {
        x: forward.x.signum() as i64,
        y: forward.y.signum() as i64,
        z: forward.z.signum() as i64,
    };
    let ray = Ray3::new(eye, forward);
    candidate_cubes(&samples, heading)
        .into_iter()
        .map(|cube| {
            let low = Point3::new(cube.x as f32, cube.y as f32, cube.z as f32);
            let aabb = Aabb3::new(low, Point3::new(low.x + 1.0, low.y + 1.0, low.z + 1.0));
            let hit = ray.intersection(&aabb).map(|point| Intersection {
                distance: point.distance(eye).to_bits() as u64,
                face: entered_face(cube, point),
            });
            RayCandidate { cube, hit }
        })
        .collect()
}

#[test]
fn a_ray_from_above_strikes_the_grass_from_the_top() {
    let mut world = WorldState::new();
    world.initial_setup();
    let eye = Point3::new(0.5, 10.0, 0.5);
    let candidates = probe(eye, Point3::new(0.5, 0.0, 0.5));
    let hit = world.closest_hit(&candidates).expect("the ray reaches the ground");
    assert_eq!(hit.cube, Cube { x: 0, y: 1, z: 0 });
    assert_eq!(hit.face, Face::Top);
    assert_eq!(f32::from_bits(hit.distance as u32), 8.0);
    assert_eq!(world.break_block(&candidates), vec![ChunkPos { x: 0, z: 0 }]);
    assert_eq!(world.block_at(0, 1, 0).block_type, BlockType::Air);
    // The same ray now reaches the dirt below.
    let next = world.closest_hit(&probe(eye, Point3::new(0.5, 0.0, 0.5)));
    assert_eq!(
        next,
        Some(RayHit { cube: Cube { x: 0, y: 0, z: 0 }, face: Face::Top, distance: 9.0f32.to_bits() as u64 })
    );
}

#[test]
fn a_slanted_ray_strikes_the_nearer_of_two_blocks() {
    let mut world = WorldState::new();
    world.set_block_at(70, 20, 64, Block::new(BlockType::Sand));
    world.set_block_at(72, 20, 64, Block::new(BlockType::Dirt));
    let eye = Point3::new(64.5, 20.5, 64.5);
    let candidates = probe(eye, Point3::new(80.0, 20.5, 64.5));
    let hit = world.closest_hit(&candidates).expect("the ray runs into the sand");
    assert_eq!(hit.cube, Cube { x: 70, y: 20, z: 64 });
    assert_eq!(hit.face, Face::Left);
    assert_eq!(f32::from_bits(hit.distance as u32), 5.5);
    let dirty = world.place_block(&candidates, BlockType::Water);
    // The new block lies on the border of its chunk towards smaller `z`.
    assert_eq!(dirty, vec![ChunkPos { x: 4, z: 4 }, ChunkPos { x: 4, z: 3 }]);
    assert_eq!(world.block_at(69, 20, 64).block_type, BlockType::Water);
}

#[test]
fn a_ray_into_the_sky_strikes_nothing() {
    let mut world = WorldState::new();
    world.initial_setup();
    let candidates = probe(Point3::new(64.5, 3.5, 64.5), Point3::new(70.0, 40.0, 66.0));
    assert_eq!(world.closest_hit(&candidates), None);
    assert!(world.break_block(&candidates).is_empty());
    assert_eq!(world.block_at(64, 1, 64).block_type, BlockType::Grass);
}
