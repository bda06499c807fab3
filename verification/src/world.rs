//! The voxel grid: a square of chunks, each a dense array of blocks, together
//! with the bookkeeping that ties chunks to render descriptor slots.
use crate::block::{Block, BlockType};
use vstd::prelude::*;
use vstd::relations::injective_on;
use vstd::set_lib::{lemma_int_range, lemma_len_subset, lemma_map_size, set_int_range};

verus! {

/// Number of blocks along each horizontal axis of a chunk.
pub const CHUNK_XZ_SIZE: usize = 16;

/// Number of blocks along the vertical axis of a chunk.
pub const CHUNK_Y_SIZE: usize = 256;

/// `CHUNK_XZ_SIZE * CHUNK_Y_SIZE * CHUNK_XZ_SIZE`.
pub const NUM_BLOCKS_IN_CHUNK: usize = 65536;

/// Number of chunk slots along each horizontal axis of the world grid.
pub const MAX_CHUNK_WORLD_WIDTH: usize = 8;

/// `MAX_CHUNK_WORLD_WIDTH * MAX_CHUNK_WORLD_WIDTH`.
pub const NUM_CHUNKS_IN_WORLD: usize = 64;

/// `MAX_CHUNK_WORLD_WIDTH * CHUNK_XZ_SIZE`: blocks along each horizontal axis of the world.
pub const WORLD_XZ_SIZE: usize = 128;

/// Blocks along the vertical axis of the world.
pub const WORLD_Y_SIZE: usize = 256;

/// Side of the square window of chunks kept around the observer.
pub const VISIBLE_CHUNK_WIDTH: usize = 5;

/// `VISIBLE_CHUNK_WIDTH / 2`: how far, in chunks, the window reaches from the observer's chunk.
pub const VISIBLE_CHUNK_RADIUS: usize = 2;

/// The render descriptor index of a chunk that holds no slot.
pub const NO_RENDER_DESCRIPTOR_INDEX: usize = usize::MAX;

/// The position of a chunk in chunk-grid coordinates. A chunk is identified by
/// its position alone.
#[derive(Clone, Copy, PartialEq, Eq, Structural, Debug)]
pub struct ChunkPos {
    pub x: usize,
    pub z: usize,
}

/// Whether `(x, y, z)` names a cell of the world, in absolute block coordinates.
pub open spec fn in_world(x: int, y: int, z: int) -> bool {
    0 <= x < WORLD_XZ_SIZE && 0 <= y < WORLD_Y_SIZE && 0 <= z < WORLD_XZ_SIZE
}

impl ChunkPos {
    /// Whether the position names a slot of the world grid.
    pub open spec fn in_grid(self) -> bool {
        self.x < MAX_CHUNK_WORLD_WIDTH && self.z < MAX_CHUNK_WORLD_WIDTH
    }

    /// The chunk that holds the block column `(x, z)`.
    pub open spec fn containing(x: int, z: int) -> ChunkPos {
        ChunkPos { x: (x / 16) as usize, z: (z / 16) as usize }
    }

    /// Whether the two chunks share a face: they differ by one step along one axis.
    pub open spec fn shares_face_with(self, other: ChunkPos) -> bool {
        ||| (self.z == other.z && (self.x + 1 == other.x || other.x + 1 == self.x))
        ||| (self.x == other.x && (self.z + 1 == other.z || other.z + 1 == self.z))
    }

    /// Chebyshev distance between two chunks, in chunks.
    pub open spec fn distance(self, other: ChunkPos) -> int {
        let dx = if self.x >= other.x { self.x - other.x } else { other.x - self.x };
        let dz = if self.z >= other.z { self.z - other.z } else { other.z - self.z };
        if dx >= dz { dx } else { dz }
    }

    /// Whether a chunk at `self` is streamed for an observer standing in chunk `observer`.
    pub open spec fn visible_from(self, observer: ChunkPos) -> bool {
        self.in_grid() && self.distance(observer) <= VISIBLE_CHUNK_RADIUS
    }

    /// The strict order of the chunk order: nearer to the observer first, and
    /// among equally distant chunks by `x`, then by `z`.
    pub open spec fn precedes(self, other: ChunkPos, observer: ChunkPos) -> bool {
        let a = self.distance(observer);
        let b = other.distance(observer);
        a < b || (a == b && (self.x < other.x || (self.x == other.x && self.z < other.z)))
    }
}

/// Whether `order` is the chunk order of an observer in chunk `observer`: it
/// holds every visible chunk, nothing else, each once, nearest first.
pub open spec fn is_chunk_order(order: Seq<ChunkPos>, observer: ChunkPos) -> bool {
    &&& forall|i: int| 0 <= i < order.len() ==> (#[trigger] order[i]).visible_from(observer)
    &&& forall|c: ChunkPos| c.visible_from(observer) ==> order.contains(c)
    &&& forall|i: int, j: int|
        0 <= i < j < order.len() ==> (#[trigger] order[i]).precedes(#[trigger] order[j], observer)
}

/// The state of a chunk: not yet allocated; allocated with its mesh up to
/// date; or allocated and in need of a new mesh.
#[derive(Clone, Copy, PartialEq, Eq, Structural, Debug)]
pub enum ChunkState {
    Unallocated,
    Meshed,
    Stale,
}

/// The mathematical content of a world.
pub struct WorldView {
    /// The block in every cell of the world, by absolute block coordinates.
    pub blocks: Map<(int, int, int), Block>,
    /// The chunks that have been allocated.
    pub allocated: Set<ChunkPos>,
    /// The allocated chunks whose mesh is out of date.
    pub stale: Set<ChunkPos>,
    /// The render descriptor slot of each chunk that holds one.
    pub descriptors: Map<ChunkPos, usize>,
    /// The pool of render descriptor slots: for each slot, the chunk that holds it.
    pub render_slots: Seq<ChunkPos>,
    /// The chunk the observer was in when the chunk order was last computed.
    pub observer_chunk: Option<ChunkPos>,
    /// The chunks around the observer, nearest first.
    pub chunk_order: Seq<ChunkPos>,
}

impl WorldView {
    /// Every cell of the world has a block, only allocated chunks of the grid
    /// are stale or hold render descriptor slots, and every slot of the pool
    /// is held by exactly one chunk.
    pub open spec fn grid_ok(self) -> bool {
        &&& forall|x: int, y: int, z: int|
            self.blocks.dom().contains((x, y, z)) <==> in_world(x, y, z)
        &&& forall|c: ChunkPos| self.allocated.contains(c) ==> c.in_grid()
        &&& forall|c: ChunkPos| self.stale.contains(c) ==> self.allocated.contains(c)
        &&& forall|c: ChunkPos| #[trigger]
            self.descriptors.dom().contains(c) ==> {
                &&& self.allocated.contains(c)
                &&& self.descriptors[c] < self.render_slots.len()
                &&& self.render_slots[self.descriptors[c] as int] == c
            }
        &&& forall|s: int|
            0 <= s < self.render_slots.len() ==> {
                &&& self.descriptors.dom().contains(#[trigger] self.render_slots[s])
                &&& self.descriptors[self.render_slots[s]] == s
            }
    }

    /// The chunk order is that of the observer's chunk, and every chunk in it
    /// is allocated and holds a render descriptor slot.
    pub open spec fn streaming_ok(self) -> bool {
        &&& match self.observer_chunk {
            Some(o) => o.in_grid() && is_chunk_order(self.chunk_order, o),
            None => self.chunk_order.len() == 0,
        }
        &&& forall|i: int|
            0 <= i < self.chunk_order.len() ==> self.descriptors.dom().contains(
                #[trigger] self.chunk_order[i],
            )
    }

    /// The block at `(x, y, z)`.
    pub open spec fn block(self, x: int, y: int, z: int) -> Block {
        self.blocks[(x, y, z)]
    }

    /// The state of a chunk.
    pub open spec fn state_of(self, chunk: ChunkPos) -> ChunkState {
        if !self.allocated.contains(chunk) {
            ChunkState::Unallocated
        } else if self.stale.contains(chunk) {
            ChunkState::Stale
        } else {
            ChunkState::Meshed
        }
    }

    /// The world once `chunk` has been allocated: a chunk that was not
    /// allocated is now allocated and stale.
    pub open spec fn with_allocated(self, chunk: ChunkPos) -> WorldView {
        WorldView {
            allocated: self.allocated.insert(chunk),
            stale: if self.allocated.contains(chunk) {
                self.stale
            } else {
                self.stale.insert(chunk)
            },
            ..self
        }
    }

    /// The world once the allocated chunks among `chunks` have become stale.
    pub open spec fn marked_stale(self, chunks: Seq<ChunkPos>) -> WorldView {
        WorldView {
            stale: Set::new(
                |c: ChunkPos|
                    self.stale.contains(c) || (chunks.contains(c) && self.allocated.contains(c)),
            ),
            ..self
        }
    }

    /// The world once the chunks among `chunks` that hold a render descriptor
    /// slot have been meshed again.
    pub open spec fn marked_meshed(self, chunks: Seq<ChunkPos>) -> WorldView {
        WorldView {
            stale: Set::new(
                |c: ChunkPos|
                    self.stale.contains(c) && !(chunks.contains(c) && self.descriptors.dom().contains(
                        c,
                    )),
            ),
            ..self
        }
    }

    /// Whether the mesh of every chunk that holds a render descriptor slot
    /// is up to date.
    pub open spec fn drawn_chunks_fresh(self) -> bool {
        forall|c: ChunkPos| #[trigger] self.descriptors.dom().contains(c) ==> !self.stale.contains(c)
    }

    /// The render descriptor index of a chunk: the slot it holds, or
    /// `NO_RENDER_DESCRIPTOR_INDEX` if it holds none.
    pub open spec fn descriptor_index(self, chunk: ChunkPos) -> usize {
        if self.descriptors.dom().contains(chunk) {
            self.descriptors[chunk]
        } else {
            NO_RENDER_DESCRIPTOR_INDEX
        }
    }
}

/// The pool of render descriptor slots is never larger than the grid: every
/// slot is held by a chunk of its own.
pub proof fn lemma_slot_pool_bounded(world: WorldView)
    requires
        world.grid_ok(),
    ensures
        world.render_slots.len() <= NUM_CHUNKS_IN_WORLD,
        forall|c: ChunkPos| #[trigger]
            world.descriptors.dom().contains(c) ==> world.descriptors[c]
                != NO_RENDER_DESCRIPTOR_INDEX,
{
    let n = world.render_slots.len() as int;
    let slots = set_int_range(0, n);
    let cells = set_int_range(0, NUM_CHUNKS_IN_WORLD as int);
    let holder = |s: int| world.render_slots[s].x + 8 * world.render_slots[s].z;
    lemma_int_range(0, n);
    lemma_int_range(0, NUM_CHUNKS_IN_WORLD as int);
    assert forall|a: int, b: int|
        slots.contains(a) && slots.contains(b) && #[trigger] holder(a) == #[trigger] holder(
            b,
        ) implies a == b by {
        let ca = world.render_slots[a];
        let cb = world.render_slots[b];
        assert(world.descriptors.dom().contains(ca));
        assert(world.descriptors.dom().contains(cb));
        assert(ca.in_grid() && cb.in_grid());
        assert(ca == cb);
    }
    assert(injective_on(holder, slots));
    let held = slots.map(holder);
    lemma_map_size(slots, held, holder);
    assert forall|k: int| held.contains(k) implies cells.contains(k) by {
        let s = choose|s: int| slots.contains(s) && k == holder(s);
        assert(world.descriptors.dom().contains(world.render_slots[s]));
        assert(world.render_slots[s].in_grid());
    }
    lemma_len_subset(held, cells);
}

/// The blocks of a world that holds nothing but air.
pub open spec fn all_air() -> Map<(int, int, int), Block> {
    Map::new(
        |p: (int, int, int)| in_world(p.0, p.1, p.2),
        |p: (int, int, int)| Block { block_type: BlockType::Air },
    )
}

/// The blocks of a world after the starting terrain has been laid over the
/// columns that come before column `(x, z)`, columns counted along `z` first:
/// dirt in layer 0 and grass in layer 1, every other cell as in `blocks`.
pub open spec fn terrain_laid_before(blocks: Map<(int, int, int), Block>, x: int, z: int) -> Map<
    (int, int, int),
    Block,
> {
    Map::new(
        |p: (int, int, int)| in_world(p.0, p.1, p.2),
        |p: (int, int, int)|
            if (p.0 < x || (p.0 == x && p.2 < z)) && p.1 == 0 {
                Block { block_type: BlockType::Dirt }
            } else if (p.0 < x || (p.0 == x && p.2 < z)) && p.1 == 1 {
                Block { block_type: BlockType::Grass }
            } else {
                blocks[p]
            },
    )
}

/// The blocks of a world after the starting terrain has been laid over all of it.
pub open spec fn with_initial_terrain(blocks: Map<(int, int, int), Block>) -> Map<
    (int, int, int),
    Block,
> {
    terrain_laid_before(blocks, WORLD_XZ_SIZE as int, 0)
}

/// A chunk: a dense array of blocks and what the streaming needs to know of it.
struct Chunk {
    position: ChunkPos,
    blocks: Vec<Block>,
    allocated: bool,
    stale: bool,
    render_descriptor_idx: usize,
}

/// The world: the grid of chunks, the pool of render descriptor slots and the
/// current chunk order.
pub struct WorldState {
    chunks: Vec<Chunk>,
    render_slots: Vec<ChunkPos>,
    observer_chunk: Option<ChunkPos>,
    chunk_order: Vec<ChunkPos>,
}

/// Index of a chunk in the grid's storage.
pub closed spec fn chunk_slot(c: ChunkPos) -> int {
    c.x + c.z * 8
}

/// Index of a block in its chunk's storage, by absolute block coordinates.
pub closed spec fn block_slot(x: int, y: int, z: int) -> int {
    (x % 16) + y * 16 + (z % 16) * 4096
}

impl View for WorldState {
    type V = WorldView;

    closed spec fn view(&self) -> WorldView {
        WorldView {
            blocks: Map::new(
                |p: (int, int, int)| in_world(p.0, p.1, p.2),
                |p: (int, int, int)|
                    self.chunks[chunk_slot(ChunkPos::containing(p.0, p.2))].blocks[block_slot(
                        p.0,
                        p.1,
                        p.2,
                    )],
            ),
            allocated: Set::new(|c: ChunkPos| c.in_grid() && self.chunks[chunk_slot(c)].allocated),
            stale: Set::new(|c: ChunkPos| c.in_grid() && self.chunks[chunk_slot(c)].stale),
            descriptors: Map::new(
                |c: ChunkPos|
                    c.in_grid() && self.chunks[chunk_slot(c)].render_descriptor_idx
                        != NO_RENDER_DESCRIPTOR_INDEX,
                |c: ChunkPos| self.chunks[chunk_slot(c)].render_descriptor_idx,
            ),
            render_slots: self.render_slots@,
            observer_chunk: self.observer_chunk,
            chunk_order: self.chunk_order@,
        }
    }
}

impl WorldState {
    /// The storage has its fixed shape: one chunk per grid slot, each at its
    /// own position and with all its blocks.
    pub closed spec fn repr_ok(&self) -> bool {
        &&& self.chunks.len() == NUM_CHUNKS_IN_WORLD
        &&& forall|i: int|
            0 <= i < self.chunks.len() ==> {
                &&& (#[trigger] self.chunks[i]).blocks.len() == NUM_BLOCKS_IN_CHUNK
                &&& self.chunks[i].position == ChunkPos { x: (i % 8) as usize, z: (i / 8) as usize }
            }
    }

    /// The storage is in shape and the slot bookkeeping is consistent. The
    /// chunk order may be in the middle of an update.
    pub open spec fn grid_wf(&self) -> bool {
        self.repr_ok() && self@.grid_ok()
    }

    /// The invariant of a world: established by `new`, kept by every public operation.
    pub open spec fn wf(&self) -> bool {
        self.grid_wf() && self@.streaming_ok()
    }

    /// A world of air: no chunk allocated, no render descriptor slot, no chunk order.
    pub fn new() -> (world: Self)
        ensures
            world.wf(),
            world@.blocks == all_air(),
            world@.allocated == Set::<ChunkPos>::empty(),
            world@.stale == Set::<ChunkPos>::empty(),
            world@.descriptors == Map::<ChunkPos, usize>::empty(),
            world@.render_slots == Seq::<ChunkPos>::empty(),
            world@.observer_chunk == None::<ChunkPos>,
            world@.chunk_order == Seq::<ChunkPos>::empty(),
    {
        let mut chunks: Vec<Chunk> = Vec::new();
        let mut i: usize = 0;
        while i < NUM_CHUNKS_IN_WORLD
            invariant
                i <= NUM_CHUNKS_IN_WORLD,
                chunks.len() == i,
                forall|k: int|
                    0 <= k < i ==> {
                        &&& (#[trigger] chunks[k]).blocks.len() == NUM_BLOCKS_IN_CHUNK
                        &&& chunks[k].position == ChunkPos { x: (k % 8) as usize, z: (k / 8) as usize }
                        &&& !chunks[k].allocated
                        &&& !chunks[k].stale
                        &&& chunks[k].render_descriptor_idx == NO_RENDER_DESCRIPTOR_INDEX
                        &&& forall|b: int|
                            0 <= b < NUM_BLOCKS_IN_CHUNK ==> (#[trigger] chunks[k].blocks[b]).block_type
                                == BlockType::Air
                    },
            decreases NUM_CHUNKS_IN_WORLD - i,
        {
            let blocks: Vec<Block> = vec![Block { block_type: BlockType::Air }; NUM_BLOCKS_IN_CHUNK];
            chunks.push(
                Chunk {
                    position: ChunkPos { x: i % 8, z: i / 8 },
                    blocks,
                    allocated: false,
                    stale: false,
                    render_descriptor_idx: NO_RENDER_DESCRIPTOR_INDEX,
                },
            );
            i += 1;
        }
        let world = WorldState {
            chunks,
            render_slots: Vec::new(),
            observer_chunk: None,
            chunk_order: Vec::new(),
        };
        proof {
            assert(world@.allocated =~= Set::<ChunkPos>::empty());
            assert(world@.stale =~= Set::<ChunkPos>::empty());
            assert(world@.descriptors =~= Map::<ChunkPos, usize>::empty());
            assert forall|p: (int, int, int)| in_world(p.0, p.1, p.2) implies world@.blocks[p]
                == all_air()[p] by {
                lemma_slots_in_range(p.0, p.1, p.2);
            }
            assert(world@.blocks =~= all_air());
        }
        world
    }

    /// Lays the starting terrain over the whole world: a layer of dirt at
    /// height 0 and a layer of grass at height 1. Nothing else changes.
    pub fn initial_setup(&mut self)
        requires
            old(self).wf(),
        ensures
            final(self).wf(),
            final(self)@ == (WorldView {
                blocks: with_initial_terrain(old(self)@.blocks),
                ..old(self)@
            }),
    {
        let mut x: usize = 0;
        proof {
            assert(self@.blocks =~= terrain_laid_before(old(self)@.blocks, 0, 0));
        }
        while x < WORLD_XZ_SIZE
            invariant
                x <= WORLD_XZ_SIZE,
                self.grid_wf(),
                old(self)@.grid_ok(),
                self@ == (WorldView {
                    blocks: terrain_laid_before(old(self)@.blocks, x as int, 0),
                    ..old(self)@
                }),
            decreases WORLD_XZ_SIZE - x,
        {
            let mut z: usize = 0;
            while z < WORLD_XZ_SIZE
                invariant
                    x < WORLD_XZ_SIZE,
                    z <= WORLD_XZ_SIZE,
                    self.grid_wf(),
                    old(self)@.grid_ok(),
                    self@ == (WorldView {
                        blocks: terrain_laid_before(old(self)@.blocks, x as int, z as int),
                        ..old(self)@
                    }),
                decreases WORLD_XZ_SIZE - z,
            {
                self.set_block_at(x, 0, z, Block { block_type: BlockType::Dirt });
                self.set_block_at(x, 1, z, Block { block_type: BlockType::Grass });
                proof {
                    assert(self@.blocks =~= terrain_laid_before(
                        old(self)@.blocks,
                        x as int,
                        z as int + 1,
                    ));
                }
                z += 1;
            }
            proof {
                assert(terrain_laid_before(old(self)@.blocks, x as int, WORLD_XZ_SIZE as int)
                    =~= terrain_laid_before(old(self)@.blocks, x as int + 1, 0));
            }
            x += 1;
        }
    }

    /// The block at `(x, y, z)`.
    pub fn readonly_block_at(&self, x: usize, y: usize, z: usize) -> (block: &Block)
        requires
            self.grid_wf(),
            in_world(x as int, y as int, z as int),
        ensures
            *block == self@.block(x as int, y as int, z as int),
    {
        proof {
            lemma_slots_in_range(x as int, y as int, z as int);
        }
        let chunk = &self.chunks[x / 16 + (z / 16) * 8];
        &chunk.blocks[x % 16 + y * 16 + (z % 16) * 4096]
    }

    /// The block at `(x, y, z)`, by value.
    pub fn block_at(&self, x: usize, y: usize, z: usize) -> (block: Block)
        requires
            self.grid_wf(),
            in_world(x as int, y as int, z as int),
        ensures
            block == self@.block(x as int, y as int, z as int),
    {
        *self.readonly_block_at(x, y, z)
    }

    /// Stores `block` in the cell `(x, y, z)`. No other cell and nothing of
    /// the chunk bookkeeping changes.
    pub fn set_block_at(&mut self, x: usize, y: usize, z: usize, block: Block)
        requires
            old(self).grid_wf(),
            in_world(x as int, y as int, z as int),
        ensures
            final(self).grid_wf(),
            final(self)@ == (WorldView {
                blocks: old(self)@.blocks.insert((x as int, y as int, z as int), block),
                ..old(self)@
            }),
    {
        proof {
            lemma_slots_in_range(x as int, y as int, z as int);
        }
        self.chunks[x / 16 + (z / 16) * 8].blocks[x % 16 + y * 16 + (z % 16) * 4096] = block;
        proof {
            let after = WorldView {
                blocks: old(self)@.blocks.insert((x as int, y as int, z as int), block),
                ..old(self)@
            };
            assert forall|p: (int, int, int)| in_world(p.0, p.1, p.2) implies self@.blocks[p]
                == after.blocks[p] by {
                lemma_slots_in_range(p.0, p.1, p.2);
                if p != (x as int, y as int, z as int) {
                    lemma_slots_differ(p.0, p.1, p.2, x as int, y as int, z as int);
                }
            }
            assert(self@.blocks =~= after.blocks);
            assert(self@.allocated =~= after.allocated);
            assert(self@.stale =~= after.stale);
            assert(self@.descriptors =~= after.descriptors);
        }
    }

    /// Whether the chunk has been allocated.
    pub fn is_chunk_allocated(&self, chunk: ChunkPos) -> (allocated: bool)
        requires
            self.grid_wf(),
            chunk.in_grid(),
        ensures
            allocated == self@.allocated.contains(chunk),
    {
        self.chunks[chunk.x + chunk.z * 8].allocated
    }

    /// The render descriptor index of the chunk: the slot it holds, or
    /// `NO_RENDER_DESCRIPTOR_INDEX`.
    pub fn get_render_descriptor_idx(&self, chunk: ChunkPos) -> (idx: usize)
        requires
            self.grid_wf(),
            chunk.in_grid(),
        ensures
            idx == self@.descriptor_index(chunk),
            idx != NO_RENDER_DESCRIPTOR_INDEX <==> self@.descriptors.dom().contains(chunk),
    {
        self.chunks[chunk.x + chunk.z * 8].render_descriptor_idx
    }

    /// The number of render descriptor slots in the pool.
    pub fn render_descriptor_count(&self) -> (count: usize)
        ensures
            count == self@.render_slots.len(),
    {
        self.render_slots.len()
    }

    /// The chunk that holds the render descriptor slot `slot`.
    pub fn render_slot_holder(&self, slot: usize) -> (chunk: ChunkPos)
        requires
            slot < self@.render_slots.len(),
        ensures
            chunk == self@.render_slots[slot as int],
    {
        self.render_slots[slot]
    }

    /// The chunks around the observer, nearest first.
    pub fn chunk_order(&self) -> (order: &Vec<ChunkPos>)
        ensures
            order@ == self@.chunk_order,
    {
        &self.chunk_order
    }

    /// The chunk the observer was in when the chunk order was last computed.
    pub fn observer_chunk(&self) -> (observer: Option<ChunkPos>)
        ensures
            observer == self@.observer_chunk,
    {
        self.observer_chunk
    }

    /// Allocates the chunk, if it is not allocated yet: it is then allocated
    /// and stale, for no mesh of it has been made. An allocated chunk stays
    /// as it is.
    pub fn maybe_allocate_chunk(&mut self, chunk: ChunkPos)
        requires
            old(self).grid_wf(),
            chunk.in_grid(),
        ensures
            final(self).grid_wf(),
            final(self)@ == old(self)@.with_allocated(chunk),
    {
        if !self.chunks[chunk.x + chunk.z * 8].allocated {
            self.chunks[chunk.x + chunk.z * 8].allocated = true;
            self.chunks[chunk.x + chunk.z * 8].stale = true;
        }
        proof {
            let after = old(self)@.with_allocated(chunk);
            assert forall|c: ChunkPos| c.in_grid() && c != chunk implies chunk_slot(c)
                != chunk_slot(chunk) by {}
            assert(self@.blocks =~= after.blocks);
            assert(self@.allocated =~= after.allocated);
            assert(self@.stale =~= after.stale);
            assert(self@.descriptors =~= after.descriptors);
        }
    }

    /// The state of the chunk.
    pub fn chunk_state(&self, chunk: ChunkPos) -> (state: ChunkState)
        requires
            self.grid_wf(),
            chunk.in_grid(),
        ensures
            state == self@.state_of(chunk),
    {
        let stored = &self.chunks[chunk.x + chunk.z * 8];
        if !stored.allocated {
            ChunkState::Unallocated
        } else if stored.stale {
            ChunkState::Stale
        } else {
            ChunkState::Meshed
        }
    }

    /// Marks as stale each of `chunks` that is an allocated chunk of the
    /// grid. Nothing else changes.
    pub fn mark_chunks_stale(&mut self, chunks: &Vec<ChunkPos>)
        requires
            old(self).grid_wf(),
        ensures
            final(self).grid_wf(),
            final(self)@ == old(self)@.marked_stale(chunks@),
    {
        let mut k: usize = 0;
        proof {
            assert(self@.stale =~= old(self)@.marked_stale(chunks@.take(0)).stale);
        }
        while k < chunks.len()
            invariant
                k <= chunks.len(),
                self.grid_wf(),
                old(self)@.grid_ok(),
                self@ == old(self)@.marked_stale(chunks@.take(k as int)),
            decreases chunks.len() - k,
        {
            let chunk = chunks[k];
            let ghost before = self@;
            if chunk.x < 8 && chunk.z < 8 {
                if self.chunks[chunk.x + chunk.z * 8].allocated {
                    self.chunks[chunk.x + chunk.z * 8].stale = true;
                }
            }
            proof {
                let after = old(self)@.marked_stale(chunks@.take(k + 1));
                assert(chunks@.take(k + 1) =~= chunks@.take(k as int).push(chunk));
                assert forall|c: ChunkPos| c.in_grid() && chunk.in_grid() && c != chunk implies chunk_slot(
                    c,
                ) != chunk_slot(chunk) by {}
                assert(before.grid_ok());
                assert forall|c: ChunkPos| self@.stale.contains(c) <==> after.stale.contains(c) by {
                    if before.stale.contains(c) {
                        assert(before.allocated.contains(c));
                    }
                    if old(self)@.stale.contains(c) {
                        assert(old(self)@.allocated.contains(c));
                    }
                    if old(self)@.allocated.contains(c) {
                        assert(c.in_grid());
                    }
                    if c == chunk {
                        assert(chunks@.take(k + 1)[k as int] == chunk);
                    } else {
                        let longer = chunks@.take(k + 1);
                        let shorter = chunks@.take(k as int);
                        if longer.contains(c) {
                            let j = choose|j: int| 0 <= j < longer.len() && longer[j] == c;
                            assert(shorter[j] == c);
                        }
                        if shorter.contains(c) {
                            let j = choose|j: int| 0 <= j < shorter.len() && shorter[j] == c;
                            assert(longer[j] == c);
                        }
                    }
                }
                assert(self@.blocks =~= after.blocks);
                assert(self@.allocated =~= after.allocated);
                assert(self@.stale =~= after.stale);
                assert(self@.descriptors =~= after.descriptors);
            }
            k += 1;
        }
        proof {
            assert(chunks@.take(chunks.len() as int) =~= chunks@);
        }
    }

    /// Marks as meshed each of `chunks` that holds a render descriptor slot:
    /// it is stale no longer. Nothing else changes.
    pub(crate) fn mark_chunks_meshed(&mut self, chunks: &Vec<ChunkPos>)
        requires
            old(self).grid_wf(),
        ensures
            final(self).grid_wf(),
            final(self)@ == old(self)@.marked_meshed(chunks@),
    {
        let mut k: usize = 0;
        proof {
            assert(self@.stale =~= old(self)@.marked_meshed(chunks@.take(0)).stale);
        }
        while k < chunks.len()
            invariant
                k <= chunks.len(),
                self.grid_wf(),
                old(self)@.grid_ok(),
                self@ == old(self)@.marked_meshed(chunks@.take(k as int)),
            decreases chunks.len() - k,
        {
            let chunk = chunks[k];
            let ghost before = self@;
            if chunk.x < 8 && chunk.z < 8 {
                if self.chunks[chunk.x + chunk.z * 8].render_descriptor_idx
                    != NO_RENDER_DESCRIPTOR_INDEX {
                    self.chunks[chunk.x + chunk.z * 8].stale = false;
                }
            }
            proof {
                let after = old(self)@.marked_meshed(chunks@.take(k + 1));
                assert(chunks@.take(k + 1) =~= chunks@.take(k as int).push(chunk));
                assert forall|c: ChunkPos| c.in_grid() && chunk.in_grid() && c != chunk implies chunk_slot(
                    c,
                ) != chunk_slot(chunk) by {}
                assert(before.grid_ok());
                assert forall|c: ChunkPos| self@.stale.contains(c) <==> after.stale.contains(c) by {
                    if before.stale.contains(c) {
                        assert(before.allocated.contains(c));
                    }
                    if old(self)@.stale.contains(c) {
                        assert(old(self)@.allocated.contains(c));
                        assert(c.in_grid());
                    }
                    if old(self)@.descriptors.dom().contains(c) {
                        assert(old(self)@.allocated.contains(c));
                        assert(c.in_grid());
                    }
                    if c == chunk {
                        assert(chunks@.take(k + 1)[k as int] == chunk);
                    } else {
                        let longer = chunks@.take(k + 1);
                        let shorter = chunks@.take(k as int);
                        if longer.contains(c) {
                            let j = choose|j: int| 0 <= j < longer.len() && longer[j] == c;
                            assert(shorter[j] == c);
                        }
                        if shorter.contains(c) {
                            let j = choose|j: int| 0 <= j < shorter.len() && shorter[j] == c;
                            assert(longer[j] == c);
                        }
                    }
                }
                assert(self@.blocks =~= after.blocks);
                assert(self@.allocated =~= after.allocated);
                assert(self@.stale =~= after.stale);
                assert(self@.descriptors =~= after.descriptors);
            }
            k += 1;
        }
        proof {
            assert(chunks@.take(chunks.len() as int) =~= chunks@);
        }
    }

    /// Gives an allocated chunk that holds no render descriptor slot a new
    /// slot at the end of the pool, and returns the slot.
    pub(crate) fn assign_fresh_descriptor(&mut self, chunk: ChunkPos) -> (idx: usize)
        requires
            old(self).grid_wf(),
            chunk.in_grid(),
            old(self)@.allocated.contains(chunk),
            !old(self)@.descriptors.dom().contains(chunk),
        ensures
            final(self).grid_wf(),
            idx == old(self)@.render_slots.len(),
            final(self)@ == (WorldView {
                descriptors: old(self)@.descriptors.insert(chunk, idx),
                render_slots: old(self)@.render_slots.push(chunk),
                ..old(self)@
            }),
    {
        proof {
            lemma_slot_pool_bounded(self@);
        }
        let idx = self.render_slots.len();
        self.render_slots.push(chunk);
        self.chunks[chunk.x + chunk.z * 8].render_descriptor_idx = idx;
        proof {
            let after = WorldView {
                descriptors: old(self)@.descriptors.insert(chunk, idx),
                render_slots: old(self)@.render_slots.push(chunk),
                ..old(self)@
            };
            assert forall|c: ChunkPos| c.in_grid() && c != chunk implies chunk_slot(c)
                != chunk_slot(chunk) by {}
            assert(self@.blocks =~= after.blocks);
            assert(self@.allocated =~= after.allocated);
            assert(self@.stale =~= after.stale);
            assert(self@.descriptors =~= after.descriptors);
            assert(self@ == after);
            assert forall|s: int| 0 <= s < after.render_slots.len() implies {
                &&& after.descriptors.dom().contains(#[trigger] after.render_slots[s])
                &&& after.descriptors[after.render_slots[s]] == s
            } by {
                if s < idx {
                    assert(old(self)@.descriptors.dom().contains(old(self)@.render_slots[s]));
                }
            }
        }
        idx
    }

    /// Moves the render descriptor slot of `from` to `to`, an allocated chunk
    /// that holds none, and returns the slot. `from` holds no slot afterwards.
    pub(crate) fn relocate_descriptor(&mut self, from: ChunkPos, to: ChunkPos) -> (idx: usize)
        requires
            old(self).grid_wf(),
            from.in_grid(),
            to.in_grid(),
            old(self)@.descriptors.dom().contains(from),
            old(self)@.allocated.contains(to),
            !old(self)@.descriptors.dom().contains(to),
        ensures
            final(self).grid_wf(),
            idx == old(self)@.descriptors[from],
            final(self)@ == (WorldView {
                descriptors: old(self)@.descriptors.remove(from).insert(to, idx),
                render_slots: old(self)@.render_slots.update(idx as int, to),
                ..old(self)@
            }),
    {
        proof {
            lemma_slot_pool_bounded(self@);
        }
        let idx = self.chunks[from.x + from.z * 8].render_descriptor_idx;
        self.chunks[from.x + from.z * 8].render_descriptor_idx = NO_RENDER_DESCRIPTOR_INDEX;
        self.chunks[to.x + to.z * 8].render_descriptor_idx = idx;
        self.render_slots[idx] = to;
        proof {
            let after = WorldView {
                descriptors: old(self)@.descriptors.remove(from).insert(to, idx),
                render_slots: old(self)@.render_slots.update(idx as int, to),
                ..old(self)@
            };
            assert forall|c: ChunkPos, d: ChunkPos| c.in_grid() && d.in_grid() && c != d implies
                #[trigger] chunk_slot(c) != #[trigger] chunk_slot(d) by {}
            assert(self@.blocks =~= after.blocks);
            assert(self@.allocated =~= after.allocated);
            assert(self@.stale =~= after.stale);
            assert(self@.descriptors =~= after.descriptors);
            assert(self@ == after);
            assert forall|s: int| 0 <= s < after.render_slots.len() implies {
                &&& after.descriptors.dom().contains(#[trigger] after.render_slots[s])
                &&& after.descriptors[after.render_slots[s]] == s
            } by {
                if s != idx {
                    assert(old(self)@.descriptors.dom().contains(old(self)@.render_slots[s]));
                }
            }
        }
        idx
    }

    /// Records the chunk order of an observer in chunk `observer`.
    pub(crate) fn set_chunk_order(&mut self, observer: ChunkPos, order: Vec<ChunkPos>)
        requires
            old(self).grid_wf(),
        ensures
            final(self).grid_wf(),
            final(self)@ == (WorldView {
                observer_chunk: Some(observer),
                chunk_order: order@,
                ..old(self)@
            }),
    {
        self.observer_chunk = Some(observer);
        self.chunk_order = order;
        proof {
            let after = WorldView {
                observer_chunk: Some(observer),
                chunk_order: order@,
                ..old(self)@
            };
            assert(self@.blocks =~= after.blocks);
            assert(self@.allocated =~= after.allocated);
            assert(self@.stale =~= after.stale);
            assert(self@.descriptors =~= after.descriptors);
        }
    }
}

/// The storage indices of an in-world cell are in range.
proof fn lemma_slots_in_range(x: int, y: int, z: int)
    requires
        in_world(x, y, z),
    ensures
        ChunkPos::containing(x, z).in_grid(),
        chunk_slot(ChunkPos::containing(x, z)) == x / 16 + (z / 16) * 8,
        0 <= chunk_slot(ChunkPos::containing(x, z)) < NUM_CHUNKS_IN_WORLD,
        0 <= block_slot(x, y, z) < NUM_BLOCKS_IN_CHUNK,
{
}

/// Two different cells of the world are stored in different places.
proof fn lemma_slots_differ(x1: int, y1: int, z1: int, x2: int, y2: int, z2: int)
    requires
        in_world(x1, y1, z1),
        in_world(x2, y2, z2),
        (x1, y1, z1) != (x2, y2, z2),
    ensures
        chunk_slot(ChunkPos::containing(x1, z1)) != chunk_slot(ChunkPos::containing(x2, z2))
            || block_slot(x1, y1, z1) != block_slot(x2, y2, z2),
{
    let (cx1, cz1, cx2, cz2) = (x1 / 16, z1 / 16, x2 / 16, z2 / 16);
    let (lx1, lz1, lx2, lz2) = (x1 % 16, z1 % 16, x2 % 16, z2 % 16);
    assert(0 <= cx1 < 8 && 0 <= cz1 < 8 && 0 <= cx2 < 8 && 0 <= cz2 < 8);
    assert(x1 == 16 * cx1 + lx1 && z1 == 16 * cz1 + lz1);
    assert(x2 == 16 * cx2 + lx2 && z2 == 16 * cz2 + lz2);
    if cx1 + cz1 * 8 == cx2 + cz2 * 8 && lx1 + y1 * 16 + lz1 * 4096 == lx2 + y2 * 16 + lz2 * 4096 {
        assert(cz1 == cz2);
        assert(cx1 == cx2);
        assert(lz1 == lz2);
        assert(y1 == y2);
        assert(lx1 == lx2);
    }
}

} // verus!
