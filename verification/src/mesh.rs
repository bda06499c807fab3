//! The chunk mesh generator: from the blocks of a chunk to the faces that
//! have to be drawn, grouped by the material class of the block they belong to.
use crate::block::{BlockType, ChunkDataType};
use crate::face::{neighbor, Face, NUM_FACES};
use crate::raycast::Cube;
use crate::world::{in_world, ChunkPos, WorldState, WorldView, NUM_BLOCKS_IN_CHUNK};
use vstd::prelude::*;
use vstd::relations::injective_on;
use vstd::set_lib::lemma_map_size;

verus! {

/// `NUM_BLOCKS_IN_CHUNK * NUM_FACES`: the (block, face) pairs of a chunk.
pub const NUM_FACE_SLOTS_IN_CHUNK: usize = 393216;

/// How many face instances the buffer of one material class of one chunk is
/// sized for: half the faces of a chunk, which a checkerboard of blocks
/// reaches, scaled down sixteenfold to bound memory.
/// `NUM_FACE_SLOTS_IN_CHUNK / 2 / 16`.
pub const MAX_INSTANCES_PER_BUFFER: usize = 12288;

/// One face to draw.
#[derive(Clone, Copy, PartialEq, Eq, Structural, Debug)]
pub struct FaceInstance {
    /// The position of the block in the world.
    pub position: Cube,
    /// Which face of the block.
    pub face: Face,
    /// Column of the face's tile in the texture atlas.
    pub atlas_u: u8,
    /// Row of the face's tile in the texture atlas.
    pub atlas_v: u8,
}

/// The faces of one material class of a chunk.
#[derive(Debug)]
pub struct TypedInstances {
    pub data_type: ChunkDataType,
    pub instance_data: Vec<FaceInstance>,
}

/// The mesh of a chunk: one list of faces for each material class, in the
/// order `Opaque`, `Transluscent`, `SemiTransluscent`.
#[derive(Debug)]
pub struct ChunkData {
    pub position: ChunkPos,
    pub typed_instances_vec: Vec<TypedInstances>,
}

/// A mesh that the render buffers cannot take.
#[derive(Clone, Copy, PartialEq, Eq, Structural, Debug)]
pub enum MeshError {
    /// The faces of this class are more than `MAX_INSTANCES_PER_BUFFER`.
    BufferOverflow(ChunkDataType),
}

/// The tile of the texture atlas that shows the face `face` of a block of
/// kind `block_type`, as column and row. Grass has a top, a side and a
/// bottom of its own; every other block shows one tile on all faces.
pub open spec fn spec_atlas_offset(block_type: BlockType, face: Face) -> (u8, u8) {
    match block_type {
        BlockType::Air => (0, 0),
        BlockType::Grass => match face {
            Face::Top => (1, 0),
            Face::Bottom => (2, 0),
            _ => (0, 0),
        },
        BlockType::Dirt => (2, 0),
        BlockType::Sand => (3, 0),
        BlockType::Water => (4, 0),
        BlockType::Leaves => (5, 0),
    }
}

/// The tile of the texture atlas for a face of a block, as column and row.
#[verifier::when_used_as_spec(spec_atlas_offset)]
pub fn atlas_offset(block_type: BlockType, face: Face) -> (offset: (u8, u8))
    ensures
        offset == spec_atlas_offset(block_type, face),
{
    match block_type {
        BlockType::Air => (0, 0),
        BlockType::Grass => match face {
            Face::Top => (1, 0),
            Face::Bottom => (2, 0),
            _ => (0, 0),
        },
        BlockType::Dirt => (2, 0),
        BlockType::Sand => (3, 0),
        BlockType::Water => (4, 0),
        BlockType::Leaves => (5, 0),
    }
}

/// The material class with the given number: the order of the drawing passes.
pub open spec fn class_of_pass(pass: int) -> ChunkDataType {
    if pass == 0 {
        ChunkDataType::Opaque
    } else if pass == 1 {
        ChunkDataType::Transluscent
    } else {
        ChunkDataType::SemiTransluscent
    }
}

/// Whether the cell `p` belongs to the chunk `chunk`.
pub open spec fn cell_in_chunk(p: (int, int, int), chunk: ChunkPos) -> bool {
    in_world(p.0, p.1, p.2) && ChunkPos::containing(p.0, p.2) == chunk
}

/// The cell of the `slot`-th (block, face) pair of a chunk. The pairs are
/// counted block by block, along `x` first, then `y`, then `z`, and for each
/// block face by face.
pub open spec fn slot_cell(chunk: ChunkPos, slot: int) -> (int, int, int) {
    let b = slot / 6;
    (chunk.x * 16 + b % 16, (b / 16) % 256, chunk.z * 16 + b / 4096)
}

/// The face of the `slot`-th (block, face) pair of a chunk.
pub open spec fn slot_face(slot: int) -> Face {
    Face::spec_from_ordinal(slot % 6)
}

/// The number of the (block, face) pair `(p, face)` in its chunk.
pub open spec fn slot_of(p: (int, int, int), face: Face) -> int {
    6 * (p.0 % 16 + p.1 * 16 + (p.2 % 16) * 4096) + face.spec_ordinal()
}

impl WorldView {
    /// Whether the face `face` of the block at `p` can be seen: the block is
    /// not air, and the cell that touches it there holds no opaque block. A
    /// cell beyond the edge of the world holds no block.
    pub open spec fn face_exposed(self, p: (int, int, int), face: Face) -> bool {
        let q = neighbor(p, face);
        &&& self.block(p.0, p.1, p.2).block_type.spec_is_solid()
        &&& !(in_world(q.0, q.1, q.2) && self.block(q.0, q.1, q.2).block_type.spec_is_opaque())
    }

    /// Whether the face `face` of the block at `p` is drawn in the pass of `class`.
    pub open spec fn face_emitted(self, p: (int, int, int), face: Face, class: ChunkDataType) -> bool {
        &&& self.face_exposed(p, face)
        &&& self.block(p.0, p.1, p.2).block_type.spec_data_type() == Some(class)
    }

    /// The instance that draws the face `face` of the block at `p`.
    pub open spec fn face_instance(self, p: (int, int, int), face: Face) -> FaceInstance {
        let offset = spec_atlas_offset(self.block(p.0, p.1, p.2).block_type, face);
        FaceInstance { position: Cube::at(p), face, atlas_u: offset.0, atlas_v: offset.1 }
    }

    /// The faces of class `class` among the first `n` (block, face) pairs of
    /// the chunk, in the order of the pairs.
    pub open spec fn chunk_faces_upto(self, chunk: ChunkPos, class: ChunkDataType, n: int) -> Seq<
        FaceInstance,
    >
        decreases n,
    {
        if n <= 0 {
            Seq::empty()
        } else {
            let before = self.chunk_faces_upto(chunk, class, n - 1);
            let p = slot_cell(chunk, n - 1);
            let face = slot_face(n - 1);
            if self.face_emitted(p, face, class) {
                before.push(self.face_instance(p, face))
            } else {
                before
            }
        }
    }

    /// The faces of class `class` of the chunk: the mesh of that class.
    pub open spec fn chunk_faces(self, chunk: ChunkPos, class: ChunkDataType) -> Seq<FaceInstance> {
        self.chunk_faces_upto(chunk, class, NUM_FACE_SLOTS_IN_CHUNK as int)
    }

    /// Whether `data` is the mesh of the chunk `chunk`.
    pub open spec fn is_mesh_of(self, data: ChunkData, chunk: ChunkPos) -> bool {
        &&& data.position == chunk
        &&& data.typed_instances_vec@.len() == 3
        &&& forall|pass: int|
            0 <= pass < 3 ==> {
                &&& (#[trigger] data.typed_instances_vec@[pass]).data_type == class_of_pass(pass)
                &&& data.typed_instances_vec@[pass].instance_data@ == self.chunk_faces(
                    chunk,
                    class_of_pass(pass),
                )
            }
    }
}

impl ChunkData {
    /// The faces of the class `data_type`.
    pub fn instances_of(&self, data_type: ChunkDataType) -> (instances: Option<&TypedInstances>)
        ensures
            match instances {
                Some(found) => exists|pass: int|
                    {
                        &&& 0 <= pass < self.typed_instances_vec@.len()
                        &&& *found == #[trigger] self.typed_instances_vec@[pass]
                        &&& found.data_type == data_type
                        &&& forall|k: int|
                            0 <= k < pass ==> (#[trigger] self.typed_instances_vec@[k]).data_type
                                != data_type
                    },
                None => forall|pass: int|
                    0 <= pass < self.typed_instances_vec@.len() ==> (
                    #[trigger] self.typed_instances_vec@[pass]).data_type != data_type,
            },
    {
        let mut pass: usize = 0;
        while pass < self.typed_instances_vec.len()
            invariant
                pass <= self.typed_instances_vec@.len(),
                forall|k: int|
                    0 <= k < pass ==> (#[trigger] self.typed_instances_vec@[k]).data_type != data_type,
            decreases self.typed_instances_vec.len() - pass,
        {
            if self.typed_instances_vec[pass].data_type == data_type {
                return Some(&self.typed_instances_vec[pass]);
            }
            pass += 1;
        }
        None
    }

    /// Whether the render buffers can take this mesh: `Ok` if no class has
    /// more than `MAX_INSTANCES_PER_BUFFER` faces, else the first class that has.
    pub fn check_capacity(&self) -> (outcome: Result<(), MeshError>)
        ensures
            match outcome {
                Ok(_) => forall|pass: int|
                    0 <= pass < self.typed_instances_vec@.len() ==> (
                    #[trigger] self.typed_instances_vec@[pass]).instance_data@.len()
                        <= MAX_INSTANCES_PER_BUFFER,
                Err(MeshError::BufferOverflow(class)) => exists|pass: int|
                    {
                        &&& 0 <= pass < self.typed_instances_vec@.len()
                        &&& (#[trigger] self.typed_instances_vec@[pass]).data_type == class
                        &&& self.typed_instances_vec@[pass].instance_data@.len()
                            > MAX_INSTANCES_PER_BUFFER
                        &&& forall|k: int|
                            0 <= k < pass ==> (
                            #[trigger] self.typed_instances_vec@[k]).instance_data@.len()
                                <= MAX_INSTANCES_PER_BUFFER
                    },
            },
    {
        let mut pass: usize = 0;
        while pass < self.typed_instances_vec.len()
            invariant
                pass <= self.typed_instances_vec@.len(),
                forall|k: int|
                    0 <= k < pass ==> (#[trigger] self.typed_instances_vec@[k]).instance_data@.len()
                        <= MAX_INSTANCES_PER_BUFFER,
            decreases self.typed_instances_vec.len() - pass,
        {
            if self.typed_instances_vec[pass].instance_data.len() > MAX_INSTANCES_PER_BUFFER {
                return Err(MeshError::BufferOverflow(self.typed_instances_vec[pass].data_type));
            }
            pass += 1;
        }
        Ok(())
    }
}

impl WorldState {
    /// Whether an opaque block touches the block at `(x, y, z)` at its face `face`.
    fn neighbor_is_opaque(&self, x: usize, y: usize, z: usize, face: Face) -> (hidden: bool)
        requires
            self.grid_wf(),
            in_world(x as int, y as int, z as int),
        ensures
            hidden == ({
                let q = neighbor((x as int, y as int, z as int), face);
                in_world(q.0, q.1, q.2) && self@.block(q.0, q.1, q.2).block_type.spec_is_opaque()
            }),
    {
        match face {
            Face::Top => y + 1 < 256 && self.readonly_block_at(x, y + 1, z).block_type.is_opaque(),
            Face::Bottom => y > 0 && self.readonly_block_at(x, y - 1, z).block_type.is_opaque(),
            Face::Right => x + 1 < 128 && self.readonly_block_at(x + 1, y, z).block_type.is_opaque(),
            Face::Left => x > 0 && self.readonly_block_at(x - 1, y, z).block_type.is_opaque(),
            Face::Front => z + 1 < 128 && self.readonly_block_at(x, y, z + 1).block_type.is_opaque(),
            Face::Back => z > 0 && self.readonly_block_at(x, y, z - 1).block_type.is_opaque(),
        }
    }

    /// The mesh of an allocated chunk.
    ///
    /// For every block of the chunk other than air and each of its six
    /// faces, the face is in the mesh unless an opaque block touches the
    /// block there; the neighbour is looked up in the world, so it may belong
    /// to the next chunk. The faces are grouped by the material class of
    /// their block.
    pub fn compute_chunk_mesh(&self, chunk: ChunkPos) -> (data: ChunkData)
        requires
            self.wf(),
            chunk.in_grid(),
            self@.allocated.contains(chunk),
        ensures
            self@.is_mesh_of(data, chunk),
    {
        let mut opaque: Vec<FaceInstance> = Vec::new();
        let mut transluscent: Vec<FaceInstance> = Vec::new();
        let mut semi_transluscent: Vec<FaceInstance> = Vec::new();
        let mut b: usize = 0;
        while b < NUM_BLOCKS_IN_CHUNK
            invariant
                b <= NUM_BLOCKS_IN_CHUNK,
                self.grid_wf(),
                chunk.in_grid(),
                opaque@ == self@.chunk_faces_upto(chunk, ChunkDataType::Opaque, 6 * b),
                transluscent@ == self@.chunk_faces_upto(chunk, ChunkDataType::Transluscent, 6 * b),
                semi_transluscent@ == self@.chunk_faces_upto(
                    chunk,
                    ChunkDataType::SemiTransluscent,
                    6 * b,
                ),
            decreases NUM_BLOCKS_IN_CHUNK - b,
        {
            let x = chunk.x * 16 + b % 16;
            let y = (b / 16) % 256;
            let z = chunk.z * 16 + b / 4096;
            let block_type = self.readonly_block_at(x, y, z).block_type;
            let class = block_type.data_type();
            let mut f: usize = 0;
            while f < NUM_FACES
                invariant
                    f <= NUM_FACES,
                    b < NUM_BLOCKS_IN_CHUNK,
                    self.grid_wf(),
                    chunk.in_grid(),
                    x == chunk.x * 16 + b % 16,
                    y == (b / 16) % 256,
                    z == chunk.z * 16 + b / 4096,
                    block_type == self@.block(x as int, y as int, z as int).block_type,
                    class == block_type.spec_data_type(),
                    opaque@ == self@.chunk_faces_upto(chunk, ChunkDataType::Opaque, 6 * b + f),
                    transluscent@ == self@.chunk_faces_upto(
                        chunk,
                        ChunkDataType::Transluscent,
                        6 * b + f,
                    ),
                    semi_transluscent@ == self@.chunk_faces_upto(
                        chunk,
                        ChunkDataType::SemiTransluscent,
                        6 * b + f,
                    ),
                decreases NUM_FACES - f,
            {
                let face = Face::from_ordinal(f);
                proof {
                    let slot = 6 * b + f;
                    assert(slot / 6 == b);
                    assert(slot % 6 == f);
                    assert(slot_cell(chunk, slot) == (x as int, y as int, z as int));
                    assert(slot_face(slot) == face);
                }
                if let Some(class) = class {
                    if !self.neighbor_is_opaque(x, y, z, face) {
                        let offset = atlas_offset(block_type, face);
                        let instance = FaceInstance {
                            position: Cube { x: x as i64, y: y as i64, z: z as i64 },
                            face,
                            atlas_u: offset.0,
                            atlas_v: offset.1,
                        };
                        match class {
                            ChunkDataType::Opaque => opaque.push(instance),
                            ChunkDataType::Transluscent => transluscent.push(instance),
                            ChunkDataType::SemiTransluscent => semi_transluscent.push(instance),
                        }
                    }
                }
                f += 1;
            }
            b += 1;
        }
        let mut typed_instances_vec: Vec<TypedInstances> = Vec::new();
        typed_instances_vec.push(
            TypedInstances { data_type: ChunkDataType::Opaque, instance_data: opaque },
        );
        typed_instances_vec.push(
            TypedInstances { data_type: ChunkDataType::Transluscent, instance_data: transluscent },
        );
        typed_instances_vec.push(
            TypedInstances {
                data_type: ChunkDataType::SemiTransluscent,
                instance_data: semi_transluscent,
            },
        );
        ChunkData { position: chunk, typed_instances_vec }
    }
}

/// The (block, face) pairs of the chunk whose face is drawn in the pass of `class`.
pub open spec fn emitted_pairs(world: WorldView, chunk: ChunkPos, class: ChunkDataType) -> Set<
    ((int, int, int), Face),
> {
    Set::new(
        |pair: ((int, int, int), Face)|
            cell_in_chunk(pair.0, chunk) && world.face_emitted(pair.0, pair.1, class),
    )
}

/// The (block, face) pairs of the chunk where the block is solid and the cell
/// that touches it at the face holds air or lies beyond the edge of the world.
pub open spec fn bare_pairs(world: WorldView, chunk: ChunkPos) -> Set<((int, int, int), Face)> {
    Set::new(
        |pair: ((int, int, int), Face)|
            {
                let p = pair.0;
                let q = neighbor(p, pair.1);
                &&& cell_in_chunk(p, chunk)
                &&& world.block(p.0, p.1, p.2).block_type.spec_is_solid()
                &&& (!in_world(q.0, q.1, q.2) || world.block(q.0, q.1, q.2).block_type
                    == BlockType::Air)
            },
    )
}

/// The numbers below `n` of the (block, face) pairs drawn in the pass of `class`.
spec fn emitting_slots(world: WorldView, chunk: ChunkPos, class: ChunkDataType, n: int) -> Set<int> {
    Set::new(|s: int| 0 <= s < n && world.face_emitted(slot_cell(chunk, s), slot_face(s), class))
}

/// The pair with the number `s` in the chunk.
spec fn pair_of_slot(chunk: ChunkPos) -> spec_fn(int) -> ((int, int, int), Face) {
    |s: int| (slot_cell(chunk, s), slot_face(s))
}

/// Numbering the pairs of a chunk: every number below
/// `NUM_FACE_SLOTS_IN_CHUNK` names a pair of the chunk, and every pair of the
/// chunk has the number `slot_of`.
proof fn lemma_slot_numbering(chunk: ChunkPos)
    requires
        chunk.in_grid(),
    ensures
        forall|s: int|
            0 <= s < NUM_FACE_SLOTS_IN_CHUNK ==> {
                &&& cell_in_chunk(#[trigger] slot_cell(chunk, s), chunk)
                &&& slot_of(slot_cell(chunk, s), slot_face(s)) == s
            },
        forall|p: (int, int, int), face: Face|
            cell_in_chunk(p, chunk) ==> {
                &&& 0 <= #[trigger] slot_of(p, face) < NUM_FACE_SLOTS_IN_CHUNK
                &&& slot_cell(chunk, slot_of(p, face)) == p
                &&& slot_face(slot_of(p, face)) == face
            },
{
    assert forall|s: int| 0 <= s < NUM_FACE_SLOTS_IN_CHUNK implies {
        &&& cell_in_chunk(#[trigger] slot_cell(chunk, s), chunk)
        &&& slot_of(slot_cell(chunk, s), slot_face(s)) == s
    } by {
        let b = s / 6;
        let f = s % 6;
        assert(s == 6 * b + f);
        assert(0 <= b < 65536);
        let (lx, ly, lz) = (b % 16, (b / 16) % 256, b / 4096);
        assert(b == lx + 16 * (b / 16));
        assert(b / 16 == ly + 256 * ((b / 16) / 256));
        assert((b / 16) / 256 == lz);
        assert(0 <= lz < 16);
        let p = slot_cell(chunk, s);
        assert(p == (chunk.x * 16 + lx, ly, chunk.z * 16 + lz));
        assert(p.0 / 16 == chunk.x && p.2 / 16 == chunk.z);
        assert(p.0 % 16 == lx && p.2 % 16 == lz);
        assert(Face::spec_from_ordinal(f).spec_ordinal() == f);
    }
    assert forall|p: (int, int, int), face: Face| cell_in_chunk(p, chunk) implies {
        &&& 0 <= #[trigger] slot_of(p, face) < NUM_FACE_SLOTS_IN_CHUNK
        &&& slot_cell(chunk, slot_of(p, face)) == p
        &&& slot_face(slot_of(p, face)) == face
    } by {
        let (lx, lz) = (p.0 % 16, p.2 % 16);
        let b = lx + p.1 * 16 + lz * 4096;
        let s = slot_of(p, face);
        crate::face::lemma_face_ordinals(face);
        assert(s == 6 * b + face.spec_ordinal());
        assert(s / 6 == b && s % 6 == face.spec_ordinal());
        assert(0 <= b < 65536);
        assert(b % 16 == lx);
        assert(b / 16 == p.1 + lz * 256);
        assert((b / 16) % 256 == p.1);
        assert(b / 4096 == lz);
        assert(p.0 == 16 * (p.0 / 16) + lx && p.2 == 16 * (p.2 / 16) + lz);
        assert(p.0 / 16 == chunk.x && p.2 / 16 == chunk.z);
    }
}

/// The faces among the first `n` pairs are as many as the pairs among them
/// that are drawn.
proof fn lemma_faces_count_slots(world: WorldView, chunk: ChunkPos, class: ChunkDataType, n: int)
    requires
        0 <= n,
    ensures
        emitting_slots(world, chunk, class, n).finite(),
        world.chunk_faces_upto(chunk, class, n).len() == emitting_slots(world, chunk, class, n).len(),
        forall|inst: FaceInstance|
            world.chunk_faces_upto(chunk, class, n).contains(inst) <==> exists|s: int|
                #[trigger] emitting_slots(world, chunk, class, n).contains(s)
                    && world.face_instance(slot_cell(chunk, s), slot_face(s)) == inst,
    decreases n,
{
    let now = emitting_slots(world, chunk, class, n);
    let faces = world.chunk_faces_upto(chunk, class, n);
    if n == 0 {
        assert(now =~= Set::<int>::empty());
    } else {
        lemma_faces_count_slots(world, chunk, class, n - 1);
        let before = emitting_slots(world, chunk, class, n - 1);
        let earlier = world.chunk_faces_upto(chunk, class, n - 1);
        let p = slot_cell(chunk, n - 1);
        let face = slot_face(n - 1);
        if world.face_emitted(p, face, class) {
            assert(now =~= before.insert(n - 1));
            assert forall|inst: FaceInstance| faces.contains(inst) <==> exists|s: int|
                #[trigger] now.contains(s) && world.face_instance(slot_cell(chunk, s), slot_face(s))
                    == inst by {
                if faces.contains(inst) {
                    let k = choose|k: int| 0 <= k < faces.len() && faces[k] == inst;
                    if k < earlier.len() {
                        assert(earlier[k] == inst);
                        assert(earlier.contains(inst));
                        let s = choose|s: int|
                            #[trigger] before.contains(s) && world.face_instance(
                                slot_cell(chunk, s),
                                slot_face(s),
                            ) == inst;
                        assert(now.contains(s));
                    } else {
                        assert(now.contains(n - 1));
                    }
                }
                if exists|s: int|
                    #[trigger] now.contains(s) && world.face_instance(
                        slot_cell(chunk, s),
                        slot_face(s),
                    ) == inst {
                    let s = choose|s: int|
                        #[trigger] now.contains(s) && world.face_instance(
                            slot_cell(chunk, s),
                            slot_face(s),
                        ) == inst;
                    if s == n - 1 {
                        assert(faces[faces.len() - 1] == inst);
                    } else {
                        assert(before.contains(s));
                        assert(earlier.contains(inst));
                        let k = choose|k: int| 0 <= k < earlier.len() && earlier[k] == inst;
                        assert(faces[k] == inst);
                    }
                }
            }
        } else {
            assert(now =~= before);
            assert forall|inst: FaceInstance| faces.contains(inst) <==> exists|s: int|
                #[trigger] now.contains(s) && world.face_instance(slot_cell(chunk, s), slot_face(s))
                    == inst by {}
        }
    }
}

/// The mesh of a class of a chunk has one face for each (block, face) pair of
/// the chunk that the class draws: for each pair whose block is of the class
/// and is not touched at that face by an opaque block.
pub proof fn lemma_face_count(world: WorldView, chunk: ChunkPos, class: ChunkDataType)
    requires
        chunk.in_grid(),
    ensures
        emitted_pairs(world, chunk, class).finite(),
        world.chunk_faces(chunk, class).len() == emitted_pairs(world, chunk, class).len(),
{
    let n = NUM_FACE_SLOTS_IN_CHUNK as int;
    let slots = emitting_slots(world, chunk, class, n);
    let pairs = emitted_pairs(world, chunk, class);
    let f = pair_of_slot(chunk);
    lemma_faces_count_slots(world, chunk, class, n);
    lemma_slot_numbering(chunk);
    assert forall|a: int, b: int|
        slots.contains(a) && slots.contains(b) && #[trigger] f(a) == #[trigger] f(b) implies a
        == b by {
        assert(slot_of(slot_cell(chunk, a), slot_face(a)) == a);
        assert(slot_of(slot_cell(chunk, b), slot_face(b)) == b);
    }
    assert(injective_on(f, slots));
    assert forall|pair: ((int, int, int), Face)| slots.map(f).contains(pair) <==> pairs.contains(
        pair,
    ) by {
        if slots.map(f).contains(pair) {
            let s = choose|s: int| slots.contains(s) && f(s) == pair;
            assert(cell_in_chunk(slot_cell(chunk, s), chunk));
        }
        if pairs.contains(pair) {
            let s = slot_of(pair.0, pair.1);
            assert(slots.contains(s) && f(s) == pair);
        }
    }
    assert(slots.map(f) =~= pairs);
    lemma_map_size(slots, pairs, f);
}

/// Which faces a mesh holds: exactly the faces of the (block, face) pairs of
/// the chunk that its class draws.
pub proof fn lemma_mesh_members(
    world: WorldView,
    chunk: ChunkPos,
    class: ChunkDataType,
    inst: FaceInstance,
)
    requires
        chunk.in_grid(),
    ensures
        world.chunk_faces(chunk, class).contains(inst) <==> exists|pair: ((int, int, int), Face)|
            #[trigger] emitted_pairs(world, chunk, class).contains(pair) && world.face_instance(
                pair.0,
                pair.1,
            ) == inst,
{
    let n = NUM_FACE_SLOTS_IN_CHUNK as int;
    let slots = emitting_slots(world, chunk, class, n);
    let pairs = emitted_pairs(world, chunk, class);
    lemma_faces_count_slots(world, chunk, class, n);
    lemma_slot_numbering(chunk);
    if world.chunk_faces(chunk, class).contains(inst) {
        let s = choose|s: int|
            #[trigger] slots.contains(s) && world.face_instance(slot_cell(chunk, s), slot_face(s))
                == inst;
        assert(cell_in_chunk(slot_cell(chunk, s), chunk));
        assert(pairs.contains((slot_cell(chunk, s), slot_face(s))));
    }
    if exists|pair: ((int, int, int), Face)|
        #[trigger] pairs.contains(pair) && world.face_instance(pair.0, pair.1) == inst {
        let pair = choose|pair: ((int, int, int), Face)|
            #[trigger] pairs.contains(pair) && world.face_instance(pair.0, pair.1) == inst;
        let s = slot_of(pair.0, pair.1);
        assert(slots.contains(s));
    }
}

/// In a world whose blocks are all air or opaque, the opaque mesh of a chunk
/// has one face for each (block, face) pair of the chunk where the block is
/// solid and the cell beyond the face holds air or lies outside the world.
pub proof fn lemma_opaque_face_count(world: WorldView, chunk: ChunkPos)
    requires
        chunk.in_grid(),
        forall|x: int, y: int, z: int|
            in_world(x, y, z) ==> {
                let kind = (#[trigger] world.block(x, y, z)).block_type;
                kind == BlockType::Air || kind.spec_is_opaque()
            },
    ensures
        bare_pairs(world, chunk).finite(),
        world.chunk_faces(chunk, ChunkDataType::Opaque).len() == bare_pairs(world, chunk).len(),
{
    lemma_face_count(world, chunk, ChunkDataType::Opaque);
    assert forall|pair: ((int, int, int), Face)|
        bare_pairs(world, chunk).contains(pair) <==> emitted_pairs(
            world,
            chunk,
            ChunkDataType::Opaque,
        ).contains(pair) by {
        let p = pair.0;
        let q = neighbor(p, pair.1);
        if cell_in_chunk(p, chunk) {
            assert(world.block(p.0, p.1, p.2).block_type == BlockType::Air || world.block(
                p.0,
                p.1,
                p.2,
            ).block_type.spec_is_opaque());
            if in_world(q.0, q.1, q.2) {
                assert(world.block(q.0, q.1, q.2).block_type == BlockType::Air || world.block(
                    q.0,
                    q.1,
                    q.2,
                ).block_type.spec_is_opaque());
            }
        }
    }
    assert(bare_pairs(world, chunk) =~= emitted_pairs(world, chunk, ChunkDataType::Opaque));
}

/// The mesh of a chunk depends on the blocks of the world alone.
pub proof fn lemma_faces_depend_on_blocks(
    one: WorldView,
    other: WorldView,
    chunk: ChunkPos,
    class: ChunkDataType,
    n: int,
)
    requires
        one.blocks == other.blocks,
    ensures
        one.chunk_faces_upto(chunk, class, n) == other.chunk_faces_upto(chunk, class, n),
    decreases n,
{
    if n > 0 {
        lemma_faces_depend_on_blocks(one, other, chunk, class, n - 1);
    }
}

/// A mesh of a chunk is a mesh of that chunk in every world that holds the
/// same blocks.
pub proof fn lemma_mesh_depends_on_blocks(
    one: WorldView,
    other: WorldView,
    chunk: ChunkPos,
    data: ChunkData,
)
    requires
        one.blocks == other.blocks,
        one.is_mesh_of(data, chunk),
    ensures
        other.is_mesh_of(data, chunk),
{
    assert forall|pass: int| 0 <= pass < 3 implies {
        &&& (#[trigger] data.typed_instances_vec@[pass]).data_type == class_of_pass(pass)
        &&& data.typed_instances_vec@[pass].instance_data@ == other.chunk_faces(
            chunk,
            class_of_pass(pass),
        )
    } by {
        lemma_faces_depend_on_blocks(
            one,
            other,
            chunk,
            class_of_pass(pass),
            NUM_FACE_SLOTS_IN_CHUNK as int,
        );
    }
}

/// Meshing is repeatable: two meshes made of one chunk, in worlds that hold
/// the same blocks, hold the same faces in the same order.
pub proof fn lemma_mesh_repeatable(
    one: WorldView,
    other: WorldView,
    chunk: ChunkPos,
    first: ChunkData,
    second: ChunkData,
)
    requires
        one.blocks == other.blocks,
        one.is_mesh_of(first, chunk),
        other.is_mesh_of(second, chunk),
    ensures
        first.position == second.position,
        first.typed_instances_vec@.len() == second.typed_instances_vec@.len(),
        forall|pass: int|
            0 <= pass < first.typed_instances_vec@.len() ==> {
                &&& (#[trigger] first.typed_instances_vec@[pass]).data_type
                    == second.typed_instances_vec@[pass].data_type
                &&& first.typed_instances_vec@[pass].instance_data@
                    == second.typed_instances_vec@[pass].instance_data@
            },
{
    assert forall|pass: int| 0 <= pass < first.typed_instances_vec@.len() implies {
        &&& (#[trigger] first.typed_instances_vec@[pass]).data_type
            == second.typed_instances_vec@[pass].data_type
        &&& first.typed_instances_vec@[pass].instance_data@
            == second.typed_instances_vec@[pass].instance_data@
    } by {
        lemma_faces_depend_on_blocks(
            one,
            other,
            chunk,
            class_of_pass(pass),
            NUM_FACE_SLOTS_IN_CHUNK as int,
        );
        assert(second.typed_instances_vec@[pass].data_type == class_of_pass(pass));
    }
}

} // verus!
