//! The ray-voxel intersector: which solid block a targeting ray strikes
//! first, and the two edits made at that block.
//!
//! The ray itself lives in continuous space, which this library does not
//! model. The caller walks the ray and reports the cube under each sample
//! point; for each candidate cube it tests the ray against the cube's box and
//! reports where, if anywhere, the ray enters it. Which cubes are candidates,
//! which of them is the target and what an edit changes is decided here.
use crate::block::{Block, BlockType, ChunkDataType};
use crate::face::{neighbor, Face};
use crate::mesh::lemma_faces_depend_on_blocks;
use crate::world::{in_world, ChunkPos, WorldState, WorldView};
use vstd::prelude::*;

verus! {

/// How many steps along the ray are looked at, beyond the cube of the eye.
pub const MAX_ITER: usize = 20;

/// How many candidates are still looked at after the first one that the ray strikes.
pub const FURTHER_CANDIDATES: usize = 6;

/// A unit cube of space, named by its corner of least coordinates. It need
/// not lie in the world.
#[derive(Clone, Copy, PartialEq, Eq, Structural, Debug)]
pub struct Cube {
    pub x: i64,
    pub y: i64,
    pub z: i64,
}

impl View for Cube {
    type V = (int, int, int);

    open spec fn view(&self) -> (int, int, int) {
        (self.x as int, self.y as int, self.z as int)
    }
}

impl Cube {
    /// The cube at `p`.
    pub open spec fn at(p: (int, int, int)) -> Cube {
        Cube { x: p.0 as i64, y: p.1 as i64, z: p.2 as i64 }
    }

    /// Whether the cube is a cell of the world.
    pub open spec fn spec_in_world(self) -> bool {
        in_world(self.x as int, self.y as int, self.z as int)
    }

    /// Whether the cube is a cell of the world.
    #[verifier::when_used_as_spec(spec_in_world)]
    pub fn in_world(self) -> (inside: bool)
        ensures
            inside == self.spec_in_world(),
    {
        0 <= self.x && self.x < 128 && 0 <= self.y && self.y < 256 && 0 <= self.z && self.z < 128
    }

    /// The cell of the world nearest to the cube: each coordinate is moved
    /// into the range of the world along its axis, and no further.
    pub fn clamp_to_world(self) -> (cell: Cube)
        ensures
            cell.spec_in_world(),
            cell.x == clamp_to(self.x as int, 128),
            cell.y == clamp_to(self.y as int, 256),
            cell.z == clamp_to(self.z as int, 128),
    {
        Cube {
            x: if self.x < 0 {
                0
            } else if self.x > 127 {
                127
            } else {
                self.x
            },
            y: if self.y < 0 {
                0
            } else if self.y > 255 {
                255
            } else {
                self.y
            },
            z: if self.z < 0 {
                0
            } else if self.z > 127 {
                127
            } else {
                self.z
            },
        }
    }
}

/// The value in `0 .. size` nearest to `v`.
pub open spec fn clamp_to(v: int, size: int) -> int {
    if v < 0 {
        0
    } else if v >= size {
        size - 1
    } else {
        v
    }
}

/// The way the ray travels. Of each component only the sign is used.
#[derive(Clone, Copy, PartialEq, Eq, Structural, Debug)]
pub struct RayHeading {
    pub x: i64,
    pub y: i64,
    pub z: i64,
}

/// Where the ray enters a cube: how far from the eye, in a unit of the
/// caller's choice that grows with the distance, and through which face.
#[derive(Clone, Copy, PartialEq, Eq, Structural, Debug)]
pub struct Intersection {
    pub distance: u64,
    pub face: Face,
}

/// A candidate cube together with the outcome of the ray-box test on it.
#[derive(Clone, Copy, Debug)]
pub struct RayCandidate {
    pub cube: Cube,
    pub hit: Option<Intersection>,
}

/// The block under the crosshair.
#[derive(Clone, Copy, PartialEq, Eq, Structural, Debug)]
pub struct RayHit {
    pub cube: Cube,
    pub face: Face,
    pub distance: u64,
}

impl RayHit {
    /// The hit that a struck candidate stands for.
    pub open spec fn of(candidate: RayCandidate) -> RayHit {
        RayHit {
            cube: candidate.cube,
            face: candidate.hit.unwrap().face,
            distance: candidate.hit.unwrap().distance,
        }
    }
}

/// One step against the direction of travel along an axis.
pub open spec fn back_step(heading: int) -> int {
    if heading > 0 {
        -1
    } else if heading < 0 {
        1
    } else {
        0
    }
}

/// How many of the samples after the first are used.
pub open spec fn steps_used(samples: int) -> int {
    if samples <= 0 {
        0
    } else if samples - 1 <= MAX_ITER {
        samples - 1
    } else {
        MAX_ITER as int
    }
}

/// How many cubes the samples propose, repetitions included.
pub open spec fn raw_candidate_count(samples: int) -> int {
    if samples <= 0 {
        0
    } else {
        1 + 4 * steps_used(samples)
    }
}

/// The `i`-th cube that the samples propose. The first sample, the cube of
/// the eye, proposes itself. Each later sample proposes four cubes: itself
/// and the three cubes that touch it at a face on the side the ray comes
/// from, along `z`, along `y` and along `x`.
pub open spec fn raw_candidate(samples: Seq<Cube>, heading: RayHeading, i: int) -> (int, int, int) {
    if i == 0 {
        samples[0]@
    } else {
        let s = samples[1 + (i - 1) / 4]@;
        let n = (i - 1) % 4;
        (
            s.0 + if n == 3 {
                back_step(heading.x as int)
            } else {
                0
            },
            s.1 + if n == 2 {
                back_step(heading.y as int)
            } else {
                0
            },
            s.2 + if n == 1 {
                back_step(heading.z as int)
            } else {
                0
            },
        )
    }
}

/// All cubes that the samples propose, in order, repetitions included.
pub open spec fn raw_candidates(samples: Seq<Cube>, heading: RayHeading) -> Seq<(int, int, int)> {
    Seq::new(
        raw_candidate_count(samples.len() as int) as nat,
        |i: int| raw_candidate(samples, heading, i),
    )
}

/// The cubes of `raw` that lie in the world, each once, in the order in which
/// they first occur.
pub open spec fn distinct_in_world(raw: Seq<(int, int, int)>) -> Seq<Cube>
    decreases raw.len(),
{
    if raw.len() == 0 {
        Seq::empty()
    } else {
        let before = distinct_in_world(raw.drop_last());
        let p = raw.last();
        if in_world(p.0, p.1, p.2) && !before.contains(Cube::at(p)) {
            before.push(Cube::at(p))
        } else {
            before
        }
    }
}

/// `distinct_in_world(raw)` holds cubes of the world only, none of them
/// twice, and every cube of `raw` that lies in the world.
pub proof fn lemma_distinct_in_world(raw: Seq<(int, int, int)>)
    ensures
        distinct_in_world(raw).no_duplicates(),
        distinct_in_world(raw).len() <= raw.len(),
        forall|i: int|
            0 <= i < distinct_in_world(raw).len() ==> {
                &&& (#[trigger] distinct_in_world(raw)[i]).spec_in_world()
                &&& raw.contains(distinct_in_world(raw)[i]@)
            },
        forall|i: int|
            0 <= i < raw.len() && in_world(raw[i].0, raw[i].1, raw[i].2) ==> distinct_in_world(
                raw,
            ).contains(Cube::at(#[trigger] raw[i])),
    decreases raw.len(),
{
    if raw.len() > 0 {
        let shorter = raw.drop_last();
        lemma_distinct_in_world(shorter);
        let before = distinct_in_world(shorter);
        let p = raw.last();
        let all = distinct_in_world(raw);
        assert forall|i: int| 0 <= i < all.len() implies (#[trigger] all[i]).spec_in_world()
            && raw.contains(all[i]@) by {
            if i < before.len() {
                let k = choose|k: int| 0 <= k < shorter.len() && shorter[k] == before[i]@;
                assert(raw[k] == before[i]@);
            } else {
                assert(raw[raw.len() - 1] == all[i]@);
            }
        }
        assert forall|i: int|
            0 <= i < raw.len() && in_world(raw[i].0, raw[i].1, raw[i].2) implies all.contains(
            Cube::at(#[trigger] raw[i]),
        ) by {
            if i < shorter.len() {
                assert(shorter[i] == raw[i]);
                let k = choose|k: int| 0 <= k < before.len() && before[k] == Cube::at(raw[i]);
                assert(all[k] == Cube::at(raw[i]));
            } else if before.contains(Cube::at(p)) {
                let k = choose|k: int| 0 <= k < before.len() && before[k] == Cube::at(p);
                assert(all[k] == Cube::at(p));
            } else {
                assert(all[all.len() - 1] == Cube::at(p));
            }
        }
    }
}

/// Appends the cube one step from `sample` to `cubes`, if it lies in the
/// world and is not in `cubes` yet.
fn push_candidate(cubes: &mut Vec<Cube>, sample: Cube, dx: i64, dy: i64, dz: i64)
    requires
        -1 <= dx <= 1,
        -1 <= dy <= 1,
        -1 <= dz <= 1,
    ensures
        final(cubes)@ == ({
            let p = (sample.x + dx, sample.y + dy, sample.z + dz);
            if in_world(p.0, p.1, p.2) && !old(cubes)@.contains(Cube::at(p)) {
                old(cubes)@.push(Cube::at(p))
            } else {
                old(cubes)@
            }
        }),
{
    if sample.x < -1 || sample.x > 128 || sample.y < -1 || sample.y > 256 || sample.z < -1
        || sample.z > 128 {
        return ;
    }
    let cube = Cube { x: sample.x + dx, y: sample.y + dy, z: sample.z + dz };
    if !cube.in_world() {
        return ;
    }
    let mut i: usize = 0;
    while i < cubes.len()
        invariant
            i <= cubes.len(),
            cubes@ == old(cubes)@,
            cube == Cube::at((sample.x + dx, sample.y + dy, sample.z + dz)),
            forall|k: int| 0 <= k < i ==> cubes[k] != cube,
        decreases cubes.len() - i,
    {
        if cubes[i] == cube {
            assert(old(cubes)@[i as int] == cube);
            return ;
        }
        i += 1;
    }
    cubes.push(cube);
}

/// One step against the direction of travel along an axis.
fn step_back(heading: i64) -> (step: i64)
    ensures
        step == back_step(heading as int),
{
    if heading > 0 {
        -1
    } else if heading < 0 {
        1
    } else {
        0
    }
}

/// The candidate cubes of a ray, from the cubes under its sample points.
///
/// `samples[0]` is the cube that holds the eye; `samples[k]` is the cube that
/// holds the point `k` steps along the ray. At most `MAX_ITER` steps are
/// used. The result holds each proposed cube that lies in the world once, in
/// the order in which the ray proposes them.
pub fn candidate_cubes(samples: &Vec<Cube>, heading: RayHeading) -> (cubes: Vec<Cube>)
    ensures
        cubes@ == distinct_in_world(raw_candidates(samples@, heading)),
        cubes@.no_duplicates(),
        cubes@.len() <= 1 + 4 * MAX_ITER,
        forall|i: int| 0 <= i < cubes@.len() ==> (#[trigger] cubes@[i]).spec_in_world(),
{
    let mut cubes: Vec<Cube> = Vec::new();
    let ghost raw = raw_candidates(samples@, heading);
    proof {
        lemma_distinct_in_world(raw);
    }
    if samples.len() == 0 {
        return cubes;
    }
    push_candidate(&mut cubes, samples[0], 0, 0, 0);
    proof {
        assert(raw.take(1).drop_last() =~= Seq::<(int, int, int)>::empty());
        assert(distinct_in_world(Seq::<(int, int, int)>::empty()) =~= Seq::<Cube>::empty());
        assert(raw.take(1).last() == samples[0]@);
    }
    let steps = if samples.len() - 1 <= MAX_ITER {
        samples.len() - 1
    } else {
        MAX_ITER
    };
    let mut k: usize = 1;
    while k <= steps
        invariant
            1 <= k <= steps + 1,
            steps == steps_used(samples.len() as int),
            steps < samples.len(),
            raw == raw_candidates(samples@, heading),
            cubes@ == distinct_in_world(raw.take(1 + 4 * (k - 1))),
        decreases steps + 1 - k,
    {
        let sample = samples[k];
        let mut n: usize = 0;
        while n < 4
            invariant
                n <= 4,
                1 <= k <= steps,
                steps == steps_used(samples.len() as int),
                steps < samples.len(),
                sample == samples[k as int],
                raw == raw_candidates(samples@, heading),
                cubes@ == distinct_in_world(raw.take(1 + 4 * (k - 1) + n)),
            decreases 4 - n,
        {
            let dx = if n == 3 {
                step_back(heading.x)
            } else {
                0
            };
            let dy = if n == 2 {
                step_back(heading.y)
            } else {
                0
            };
            let dz = if n == 1 {
                step_back(heading.z)
            } else {
                0
            };
            push_candidate(&mut cubes, sample, dx, dy, dz);
            proof {
                let i = 1 + 4 * (k - 1) + n;
                assert(raw.take(i + 1).drop_last() =~= raw.take(i));
                assert(raw.take(i + 1).last() == raw[i]);
                assert(1 + (i - 1) / 4 == k);
                assert((i - 1) % 4 == n);
            }
            n += 1;
        }
        k += 1;
    }
    proof {
        assert(raw.take(raw.len() as int) =~= raw);
    }
    cubes
}

impl WorldView {
    /// Whether the ray strikes a block at this candidate: the cube lies in
    /// the world, holds a block other than air, and the ray enters its box.
    pub open spec fn is_strike(self, candidate: RayCandidate) -> bool {
        &&& candidate.cube.spec_in_world()
        &&& self.block(
            candidate.cube.x as int,
            candidate.cube.y as int,
            candidate.cube.z as int,
        ).block_type.spec_is_solid()
        &&& candidate.hit is Some
    }

    /// The index of the first strike at or after `from`, or the number of
    /// candidates if there is none.
    pub open spec fn first_strike(self, candidates: Seq<RayCandidate>, from: int) -> int
        decreases candidates.len() - from,
    {
        if from >= candidates.len() {
            candidates.len() as int
        } else if self.is_strike(candidates[from]) {
            from
        } else {
            self.first_strike(candidates, from + 1)
        }
    }

    /// Where the scan of the candidates ends: after the first strike and
    /// `FURTHER_CANDIDATES` more candidates, or at the end of the list.
    pub open spec fn scan_end(self, candidates: Seq<RayCandidate>) -> int {
        let first = self.first_strike(candidates, 0);
        if first + FURTHER_CANDIDATES + 1 <= candidates.len() {
            first + FURTHER_CANDIDATES + 1
        } else {
            candidates.len() as int
        }
    }

    /// Whether candidate `m` is the target of the ray: of the strikes that
    /// the scan reaches it is the nearest to the eye, and of several equally
    /// near the first.
    pub open spec fn is_target(self, candidates: Seq<RayCandidate>, m: int) -> bool {
        &&& self.first_strike(candidates, 0) <= m < self.scan_end(candidates)
        &&& self.is_strike(candidates[m])
        &&& forall|j: int|
            self.first_strike(candidates, 0) <= j < self.scan_end(candidates) && self.is_strike(
                #[trigger] candidates[j],
            ) ==> {
                let dm = candidates[m].hit.unwrap().distance;
                let dj = candidates[j].hit.unwrap().distance;
                dm < dj || (dm == dj && m <= j)
            }
    }

    /// The index of the target of the ray, if it has one.
    pub open spec fn target(self, candidates: Seq<RayCandidate>) -> Option<int> {
        if exists|m: int| self.is_target(candidates, m) {
            Some(choose|m: int| self.is_target(candidates, m))
        } else {
            None
        }
    }

    /// The world with the block `block` at `p`.
    pub open spec fn with_block(self, p: (int, int, int), block: Block) -> WorldView {
        WorldView { blocks: self.blocks.insert(p, block), ..self }
    }

    /// The cell in which a block is placed: the one that touches the target
    /// at the face through which the ray enters it, if that cell lies in the
    /// world.
    pub open spec fn placement_cell(self, candidates: Seq<RayCandidate>) -> Option<(int, int, int)> {
        match self.target(candidates) {
            Some(m) => {
                let p = neighbor(candidates[m].cube@, candidates[m].hit.unwrap().face);
                if in_world(p.0, p.1, p.2) {
                    Some(p)
                } else {
                    None
                }
            },
            None => None,
        }
    }
}

/// What `first_strike` returns: the least index of a strike at or after `from`.
pub proof fn lemma_first_strike(world: WorldView, candidates: Seq<RayCandidate>, from: int)
    requires
        0 <= from <= candidates.len(),
    ensures
        from <= world.first_strike(candidates, from) <= candidates.len(),
        world.first_strike(candidates, from) < candidates.len() ==> world.is_strike(
            candidates[world.first_strike(candidates, from)],
        ),
        forall|j: int|
            from <= j < world.first_strike(candidates, from) ==> !world.is_strike(
                #[trigger] candidates[j],
            ),
    decreases candidates.len() - from,
{
    if from < candidates.len() && !world.is_strike(candidates[from]) {
        lemma_first_strike(world, candidates, from + 1);
    }
}

/// A ray has at most one target.
pub proof fn lemma_target_unique(world: WorldView, candidates: Seq<RayCandidate>, m: int)
    requires
        world.is_target(candidates, m),
    ensures
        world.target(candidates) == Some(m),
{
    let chosen = choose|k: int| world.is_target(candidates, k);
    assert(world.is_strike(candidates[chosen]));
    assert(world.is_strike(candidates[m]));
}

/// A ray that strikes nothing has no target, and a ray that strikes
/// something has one.
pub proof fn lemma_target_exists(world: WorldView, candidates: Seq<RayCandidate>)
    ensures
        world.target(candidates) is None <==> forall|i: int|
            0 <= i < candidates.len() ==> !world.is_strike(#[trigger] candidates[i]),
{
    lemma_first_strike(world, candidates, 0);
    let first = world.first_strike(candidates, 0);
    let end = world.scan_end(candidates);
    if first < candidates.len() {
        lemma_nearest_in(world, candidates, first, end);
        let m = nearest_in(world, candidates, first, end).unwrap();
        assert(world.is_target(candidates, m));
    } else {
        assert forall|m: int| !world.is_target(candidates, m) by {}
    }
}

/// The nearest strike among the candidates from `lo` up to `hi`, the first
/// of several equally near.
spec fn nearest_in(world: WorldView, candidates: Seq<RayCandidate>, lo: int, hi: int) -> Option<int>
    decreases hi - lo,
{
    if hi <= lo {
        None
    } else {
        let before = nearest_in(world, candidates, lo, hi - 1);
        if world.is_strike(candidates[hi - 1]) && (before is None || candidates[hi
            - 1].hit.unwrap().distance < candidates[before.unwrap()].hit.unwrap().distance) {
            Some(hi - 1)
        } else {
            before
        }
    }
}

/// What `nearest_in` returns: a strike that no other strike in the range
/// comes before, by distance first and by place in the list second.
proof fn lemma_nearest_in(world: WorldView, candidates: Seq<RayCandidate>, lo: int, hi: int)
    requires
        0 <= lo <= hi <= candidates.len(),
    ensures
        match nearest_in(world, candidates, lo, hi) {
            Some(m) => {
                &&& lo <= m < hi
                &&& world.is_strike(candidates[m])
                &&& forall|j: int|
                    lo <= j < hi && world.is_strike(#[trigger] candidates[j]) ==> {
                        let dm = candidates[m].hit.unwrap().distance;
                        let dj = candidates[j].hit.unwrap().distance;
                        dm < dj || (dm == dj && m <= j)
                    }
            },
            None => forall|j: int| lo <= j < hi ==> !world.is_strike(#[trigger] candidates[j]),
        },
    decreases hi - lo,
{
    if lo < hi {
        lemma_nearest_in(world, candidates, lo, hi - 1);
    }
}

/// The chunks whose mesh an edit of a block in column `(x, z)` can change:
/// the chunk of the block, then each chunk of the grid that shares with it
/// the face of the chunk on which the block lies.
pub open spec fn edit_dirty_chunks(x: int, z: int) -> Seq<ChunkPos> {
    let c = ChunkPos::containing(x, z);
    seq![c] + (if x % 16 == 0 && c.x > 0 {
        seq![ChunkPos { x: (c.x - 1) as usize, z: c.z }]
    } else {
        Seq::empty()
    }) + (if x % 16 == 15 && c.x + 1 < 8 {
        seq![ChunkPos { x: (c.x + 1) as usize, z: c.z }]
    } else {
        Seq::empty()
    }) + (if z % 16 == 0 && c.z > 0 {
        seq![ChunkPos { x: c.x, z: (c.z - 1) as usize }]
    } else {
        Seq::empty()
    }) + (if z % 16 == 15 && c.z + 1 < 8 {
        seq![ChunkPos { x: c.x, z: (c.z + 1) as usize }]
    } else {
        Seq::empty()
    })
}

/// The chunks to mesh again after an edit of a block in column `(x, z)`.
pub fn dirty_chunks_of_edit(x: usize, z: usize) -> (dirty: Vec<ChunkPos>)
    requires
        x < 128,
        z < 128,
    ensures
        dirty@ == edit_dirty_chunks(x as int, z as int),
        dirty@.no_duplicates(),
        forall|i: int| 0 <= i < dirty@.len() ==> (#[trigger] dirty@[i]).in_grid(),
{
    let c = ChunkPos { x: x / 16, z: z / 16 };
    let mut dirty: Vec<ChunkPos> = Vec::new();
    dirty.push(c);
    if x % 16 == 0 && c.x > 0 {
        dirty.push(ChunkPos { x: c.x - 1, z: c.z });
    }
    if x % 16 == 15 && c.x + 1 < 8 {
        dirty.push(ChunkPos { x: c.x + 1, z: c.z });
    }
    if z % 16 == 0 && c.z > 0 {
        dirty.push(ChunkPos { x: c.x, z: c.z - 1 });
    }
    if z % 16 == 15 && c.z + 1 < 8 {
        dirty.push(ChunkPos { x: c.x, z: c.z + 1 });
    }
    proof {
        assert(dirty@ =~= edit_dirty_chunks(x as int, z as int));
    }
    dirty
}

impl WorldState {
    /// The block that the ray strikes first, or `None` if it strikes none.
    ///
    /// The candidates are looked at in order. After the first one that the
    /// ray strikes, `FURTHER_CANDIDATES` more are looked at, and of the
    /// strikes seen the nearest is the target.
    pub fn closest_hit(&self, candidates: &Vec<RayCandidate>) -> (hit: Option<RayHit>)
        requires
            self.wf(),
        ensures
            match self@.target(candidates@) {
                Some(m) => hit == Some(RayHit::of(candidates@[m])),
                None => hit is None,
            },
            hit is None <==> forall|i: int|
                0 <= i < candidates@.len() ==> !self@.is_strike(#[trigger] candidates@[i]),
    {
        let mut closest: Option<RayHit> = None;
        let mut additional_checks: usize = 0;
        let mut i: usize = 0;
        let ghost mut best: int = 0;
        proof {
            lemma_first_strike(self@, candidates@, 0);
            lemma_target_exists(self@, candidates@);
        }
        while i < candidates.len() && additional_checks <= FURTHER_CANDIDATES
            invariant
                self.wf(),
                i <= candidates.len(),
                closest is None ==> additional_checks == 0 && forall|j: int|
                    0 <= j < i ==> !self@.is_strike(#[trigger] candidates@[j]),
                closest is Some ==> {
                    let first = self@.first_strike(candidates@, 0);
                    &&& first <= best < i
                    &&& additional_checks == i - first
                    &&& i <= first + FURTHER_CANDIDATES + 1
                    &&& self@.is_strike(candidates@[best])
                    &&& closest == Some(RayHit::of(candidates@[best]))
                    &&& forall|j: int|
                        first <= j < i && self@.is_strike(#[trigger] candidates@[j]) ==> {
                            let dm = candidates@[best].hit.unwrap().distance;
                            let dj = candidates@[j].hit.unwrap().distance;
                            dm < dj || (dm == dj && best <= j)
                        }
                },
            decreases candidates.len() - i,
        {
            let candidate = candidates[i];
            if candidate.cube.in_world() {
                let block = self.readonly_block_at(
                    candidate.cube.x as usize,
                    candidate.cube.y as usize,
                    candidate.cube.z as usize,
                );
                if block.block_type.is_solid() {
                    if let Some(found) = candidate.hit {
                        proof {
                            if closest is None {
                                lemma_first_strike(self@, candidates@, 0);
                            }
                        }
                        let nearer = match closest {
                            Some(sofar) => found.distance < sofar.distance,
                            None => true,
                        };
                        if nearer {
                            closest =
                            Some(
                                RayHit {
                                    cube: candidate.cube,
                                    face: found.face,
                                    distance: found.distance,
                                },
                            );
                            proof {
                                best = i as int;
                            }
                        }
                    }
                }
            }
            if closest.is_some() {
                additional_checks += 1;
            }
            i += 1;
        }
        proof {
            if closest is Some {
                assert(i == self@.scan_end(candidates@));
                assert(self@.is_target(candidates@, best));
                lemma_target_unique(self@, candidates@, best);
            }
        }
        closest
    }

    /// Breaks the block under the crosshair: the target of the ray becomes
    /// air. Returns the chunks whose mesh has to be made again; those of
    /// them that are allocated are stale from now on. A ray without a target
    /// changes nothing and returns no chunk.
    pub fn break_block(&mut self, candidates: &Vec<RayCandidate>) -> (dirty: Vec<ChunkPos>)
        requires
            old(self).wf(),
        ensures
            final(self).wf(),
            match old(self)@.target(candidates@) {
                Some(m) => {
                    &&& final(self)@ == old(self)@.with_block(
                        candidates@[m].cube@,
                        Block { block_type: BlockType::Air },
                    ).marked_stale(dirty@)
                    &&& dirty@ == edit_dirty_chunks(
                        candidates@[m].cube.x as int,
                        candidates@[m].cube.z as int,
                    )
                },
                None => final(self)@ == old(self)@ && dirty@.len() == 0,
            },
    {
        match self.closest_hit(candidates) {
            Some(hit) => {
                proof {
                    let m = old(self)@.target(candidates@).unwrap();
                    assert(old(self)@.is_target(candidates@, m));
                }
                self.set_block_at(
                    hit.cube.x as usize,
                    hit.cube.y as usize,
                    hit.cube.z as usize,
                    Block { block_type: BlockType::Air },
                );
                let dirty = dirty_chunks_of_edit(hit.cube.x as usize, hit.cube.z as usize);
                self.mark_chunks_stale(&dirty);
                dirty
            },
            None => Vec::new(),
        }
    }

    /// Places a block of kind `block_type` against the block under the
    /// crosshair: in the cell that touches the target at the face through
    /// which the ray enters it. Returns the chunks whose mesh has to be made
    /// again; those of them that are allocated are stale from now on. A ray
    /// without a target, or with that cell outside the world, changes nothing
    /// and returns no chunk.
    pub fn place_block(&mut self, candidates: &Vec<RayCandidate>, block_type: BlockType) -> (dirty:
        Vec<ChunkPos>)
        requires
            old(self).wf(),
        ensures
            final(self).wf(),
            match old(self)@.placement_cell(candidates@) {
                Some(p) => {
                    &&& final(self)@ == old(self)@.with_block(p, Block { block_type }).marked_stale(
                        dirty@,
                    )
                    &&& dirty@ == edit_dirty_chunks(p.0, p.2)
                },
                None => final(self)@ == old(self)@ && dirty@.len() == 0,
            },
    {
        match self.closest_hit(candidates) {
            Some(hit) => {
                proof {
                    let m = old(self)@.target(candidates@).unwrap();
                    assert(old(self)@.is_target(candidates@, m));
                }
                let cell = match hit.face {
                    Face::Top => Cube { x: hit.cube.x, y: hit.cube.y + 1, z: hit.cube.z },
                    Face::Bottom => Cube { x: hit.cube.x, y: hit.cube.y - 1, z: hit.cube.z },
                    Face::Right => Cube { x: hit.cube.x + 1, y: hit.cube.y, z: hit.cube.z },
                    Face::Left => Cube { x: hit.cube.x - 1, y: hit.cube.y, z: hit.cube.z },
                    Face::Front => Cube { x: hit.cube.x, y: hit.cube.y, z: hit.cube.z + 1 },
                    Face::Back => Cube { x: hit.cube.x, y: hit.cube.y, z: hit.cube.z - 1 },
                };
                if cell.in_world() {
                    self.set_block_at(
                        cell.x as usize,
                        cell.y as usize,
                        cell.z as usize,
                        Block { block_type },
                    );
                    let dirty = dirty_chunks_of_edit(cell.x as usize, cell.z as usize);
                    self.mark_chunks_stale(&dirty);
                    dirty
                } else {
                    Vec::new()
                }
            },
            None => Vec::new(),
        }
    }
}

/// Breaking a block and then placing a block of the kind that was there in
/// the same cell gives back the blocks of the world as they were, and so
/// every mesh of it.
///
/// `broken_by` is the ray that breaks: its target is candidate `m`.
/// `placed_by` is the ray that places: in the world with that block broken,
/// it places into the cell of the broken block.
pub proof fn lemma_break_then_place_restores(
    world: WorldView,
    broken_by: Seq<RayCandidate>,
    placed_by: Seq<RayCandidate>,
    m: int,
)
    requires
        world.grid_ok(),
        world.target(broken_by) == Some(m),
        world.with_block(broken_by[m].cube@, Block { block_type: BlockType::Air }).marked_stale(
            edit_dirty_chunks(broken_by[m].cube.x as int, broken_by[m].cube.z as int),
        ).placement_cell(placed_by) == Some(broken_by[m].cube@),
    ensures
        ({
            let cell = broken_by[m].cube@;
            let kind = world.block(cell.0, cell.1, cell.2).block_type;
            let broken = world.with_block(cell, Block { block_type: BlockType::Air }).marked_stale(
                edit_dirty_chunks(cell.0, cell.2),
            );
            let placed_in = broken.placement_cell(placed_by).unwrap();
            let restored = broken.with_block(placed_in, Block { block_type: kind }).marked_stale(
                edit_dirty_chunks(placed_in.0, placed_in.2),
            );
            &&& restored.blocks == world.blocks
            &&& forall|chunk: ChunkPos, class: ChunkDataType| #[trigger]
                restored.chunk_faces(chunk, class) == world.chunk_faces(chunk, class)
        }),
{
    let cell = broken_by[m].cube@;
    let kind = world.block(cell.0, cell.1, cell.2).block_type;
    let broken = world.with_block(cell, Block { block_type: BlockType::Air }).marked_stale(
        edit_dirty_chunks(cell.0, cell.2),
    );
    let restored = broken.with_block(cell, Block { block_type: kind }).marked_stale(
        edit_dirty_chunks(cell.0, cell.2),
    );
    assert(world.is_target(broken_by, m));
    assert(world.blocks.dom().contains(cell));
    assert(restored.blocks =~= world.blocks);
    assert forall|chunk: ChunkPos, class: ChunkDataType| #[trigger]
        restored.chunk_faces(chunk, class) == world.chunk_faces(chunk, class) by {
        lemma_faces_depend_on_blocks(
            restored,
            world,
            chunk,
            class,
            crate::mesh::NUM_FACE_SLOTS_IN_CHUNK as int,
        );
    }
}

} // verus!
