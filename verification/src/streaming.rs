//! The chunk streaming manager: which chunks are kept around the observer, in
//! what order, and which render descriptor slot each of them holds.
use crate::mesh::ChunkData;
use crate::world::{is_chunk_order, ChunkPos, WorldState, WorldView, VISIBLE_CHUNK_RADIUS};
use vstd::prelude::*;

verus! {

impl ChunkPos {
    /// The chunk that holds the block column `(x, z)`.
    pub fn of_block(x: usize, z: usize) -> (chunk: ChunkPos)
        ensures
            chunk == ChunkPos::containing(x as int, z as int),
            x < 128 && z < 128 ==> chunk.in_grid(),
    {
        ChunkPos { x: x / 16, z: z / 16 }
    }

    /// Chebyshev distance to `other`, in chunks.
    pub fn distance_to(self, other: ChunkPos) -> (d: usize)
        ensures
            d == self.distance(other),
    {
        let dx = if self.x >= other.x {
            self.x - other.x
        } else {
            other.x - self.x
        };
        let dz = if self.z >= other.z {
            self.z - other.z
        } else {
            other.z - self.z
        };
        if dx >= dz {
            dx
        } else {
            dz
        }
    }

    /// Whether the two chunks share a face.
    pub fn touches(self, other: ChunkPos) -> (touching: bool)
        ensures
            touching == self.shares_face_with(other),
    {
        let dx = if self.x >= other.x {
            self.x - other.x
        } else {
            other.x - self.x
        };
        let dz = if self.z >= other.z {
            self.z - other.z
        } else {
            other.z - self.z
        };
        (dx == 1 && dz == 0) || (dx == 0 && dz == 1)
    }
}

/// Whether a chunk comes before the place `(d, x, z)` in the walk that builds
/// a chunk order: ring by ring, and in each ring by `x`, then by `z`.
spec fn walked(c: ChunkPos, observer: ChunkPos, d: int, x: int, z: int) -> bool {
    c.distance(observer) < d || (c.distance(observer) == d && (c.x < x || (c.x == x && c.z < z)))
}

/// Whether `chunk` occurs in `chunks`.
pub fn contains_chunk(chunks: &Vec<ChunkPos>, chunk: ChunkPos) -> (found: bool)
    ensures
        found == chunks@.contains(chunk),
{
    let mut i: usize = 0;
    while i < chunks.len()
        invariant
            i <= chunks.len(),
            forall|k: int| 0 <= k < i ==> chunks@[k] != chunk,
        decreases chunks.len() - i,
    {
        if chunks[i] == chunk {
            return true;
        }
        i += 1;
    }
    false
}

/// The chunk order of an observer in chunk `observer`: every chunk of the
/// grid within `VISIBLE_CHUNK_RADIUS` of it, each once, nearest first.
pub fn get_chunk_order_by_distance(observer: ChunkPos) -> (order: Vec<ChunkPos>)
    requires
        observer.in_grid(),
    ensures
        is_chunk_order(order@, observer),
        order@.no_duplicates(),
{
    let mut order: Vec<ChunkPos> = Vec::new();
    let mut d: usize = 0;
    while d <= VISIBLE_CHUNK_RADIUS
        invariant
            d <= VISIBLE_CHUNK_RADIUS + 1,
            forall|i: int|
                0 <= i < order@.len() ==> (#[trigger] order@[i]).visible_from(observer) && walked(
                    order@[i],
                    observer,
                    d as int,
                    0,
                    0,
                ),
            forall|c: ChunkPos|
                c.visible_from(observer) && walked(c, observer, d as int, 0, 0)
                    ==> #[trigger] order@.contains(c),
            forall|i: int, j: int|
                0 <= i < j < order@.len() ==> (#[trigger] order@[i]).precedes(
                    #[trigger] order@[j],
                    observer,
                ),
        decreases VISIBLE_CHUNK_RADIUS + 1 - d,
    {
        let mut x: usize = 0;
        while x < 8
            invariant
                d <= VISIBLE_CHUNK_RADIUS,
                x <= 8,
                forall|i: int|
                    0 <= i < order@.len() ==> (#[trigger] order@[i]).visible_from(observer)
                        && walked(order@[i], observer, d as int, x as int, 0),
                forall|c: ChunkPos|
                    c.visible_from(observer) && walked(c, observer, d as int, x as int, 0)
                        ==> #[trigger] order@.contains(c),
                forall|i: int, j: int|
                    0 <= i < j < order@.len() ==> (#[trigger] order@[i]).precedes(
                        #[trigger] order@[j],
                        observer,
                    ),
            decreases 8 - x,
        {
            let mut z: usize = 0;
            while z < 8
                invariant
                    d <= VISIBLE_CHUNK_RADIUS,
                    x < 8,
                    z <= 8,
                    forall|i: int|
                        0 <= i < order@.len() ==> (#[trigger] order@[i]).visible_from(observer)
                            && walked(order@[i], observer, d as int, x as int, z as int),
                    forall|c: ChunkPos|
                        c.visible_from(observer) && walked(c, observer, d as int, x as int, z as int)
                            ==> #[trigger] order@.contains(c),
                    forall|i: int, j: int|
                        0 <= i < j < order@.len() ==> (#[trigger] order@[i]).precedes(
                            #[trigger] order@[j],
                            observer,
                        ),
                decreases 8 - z,
            {
                let c = ChunkPos { x, z };
                if c.distance_to(observer) == d {
                    let ghost before = order@;
                    order.push(c);
                    proof {
                        assert(order@[before.len() as int] == c);
                        assert forall|e: ChunkPos|
                            e.visible_from(observer) && walked(
                                e,
                                observer,
                                d as int,
                                x as int,
                                z as int + 1,
                            ) implies #[trigger] order@.contains(e) by {
                            if e == c {
                            } else {
                                assert(before.contains(e));
                                let k = choose|k: int| 0 <= k < before.len() && before[k] == e;
                                assert(order@[k] == e);
                            }
                        }
                    }
                }
                z += 1;
            }
            x += 1;
        }
        d += 1;
    }
    proof {
        assert forall|i: int, j: int| 0 <= i < j < order@.len() implies order@[i] != order@[j] by {
            assert(order@[i].precedes(order@[j], observer));
        }
    }
    order
}

/// The test "does not occur in `others`".
pub open spec fn absent_from(others: Seq<ChunkPos>) -> spec_fn(ChunkPos) -> bool {
    |c: ChunkPos| !others.contains(c)
}

/// The chunks that come into view: those of the new order that the old order
/// does not hold, in the new order's sequence.
pub open spec fn entering_chunks(old_order: Seq<ChunkPos>, new_order: Seq<ChunkPos>) -> Seq<ChunkPos> {
    new_order.filter(absent_from(old_order))
}

/// The chunks that go out of view: those of the old order that the new order
/// does not hold, in the old order's sequence.
pub open spec fn leaving_chunks(old_order: Seq<ChunkPos>, new_order: Seq<ChunkPos>) -> Seq<ChunkPos> {
    old_order.filter(absent_from(new_order))
}

/// Whether `c` shares a face with one of `chunks`.
pub open spec fn touches_any(c: ChunkPos, chunks: Seq<ChunkPos>) -> bool {
    exists|i: int| 0 <= i < chunks.len() && c.shares_face_with(#[trigger] chunks[i])
}

/// The test "was in view before and shares a face with a chunk that comes into view".
pub open spec fn stays_beside(old_order: Seq<ChunkPos>, entering: Seq<ChunkPos>) -> spec_fn(
    ChunkPos,
) -> bool {
    |c: ChunkPos| old_order.contains(c) && touches_any(c, entering)
}

/// The chunks whose border faces a chunk coming into view may change: those
/// that stay in view and share a face with a chunk that comes into view, in
/// the new order's sequence.
pub open spec fn neighbors_of_entering(old_order: Seq<ChunkPos>, new_order: Seq<ChunkPos>) -> Seq<
    ChunkPos,
> {
    new_order.filter(stays_beside(old_order, entering_chunks(old_order, new_order)))
}

/// The test "holds no render descriptor slot".
pub open spec fn lacks_slot(descriptors: Map<ChunkPos, usize>) -> spec_fn(ChunkPos) -> bool {
    |c: ChunkPos| !descriptors.dom().contains(c)
}

/// What a filtered sequence holds: members of the sequence that pass the
/// test, all of them, and none twice if the sequence holds none twice.
pub proof fn lemma_filter_facts(s: Seq<ChunkPos>, pred: spec_fn(ChunkPos) -> bool)
    ensures
        s.filter(pred).len() <= s.len(),
        forall|i: int|
            0 <= i < s.filter(pred).len() ==> pred(#[trigger] s.filter(pred)[i]) && s.contains(
                s.filter(pred)[i],
            ),
        forall|i: int| 0 <= i < s.len() && pred(#[trigger] s[i]) ==> s.filter(pred).contains(s[i]),
        s.no_duplicates() ==> s.filter(pred).no_duplicates(),
    decreases s.len(),
{
    reveal(Seq::filter);
    if s.len() > 0 {
        let shorter = s.drop_last();
        lemma_filter_facts(shorter, pred);
        let before = shorter.filter(pred);
        let all = s.filter(pred);
        assert forall|i: int| 0 <= i < all.len() implies pred(#[trigger] all[i]) && s.contains(
            all[i],
        ) by {
            if i < before.len() {
                let k = choose|k: int| 0 <= k < shorter.len() && shorter[k] == before[i];
                assert(s[k] == all[i]);
            } else {
                assert(s[s.len() - 1] == all[i]);
            }
        }
        assert forall|i: int| 0 <= i < s.len() && pred(#[trigger] s[i]) implies all.contains(
            s[i],
        ) by {
            if i < shorter.len() {
                assert(shorter[i] == s[i]);
                let k = choose|k: int| 0 <= k < before.len() && before[k] == s[i];
                assert(all[k] == s[i]);
            } else {
                assert(all[all.len() - 1] == s[i]);
            }
        }
        if s.no_duplicates() {
            assert forall|i: int, j: int| 0 <= i < j < all.len() implies all[i] != all[j] by {
                if j == before.len() {
                    let k = choose|k: int| 0 <= k < shorter.len() && shorter[k] == before[i];
                    assert(s[k] == all[i]);
                    assert(s[s.len() - 1] == all[j]);
                }
            }
        }
    }
}

/// The chunks of `chunks` that do not occur in `others`, in their sequence.
pub fn chunks_not_in(chunks: &Vec<ChunkPos>, others: &Vec<ChunkPos>) -> (kept: Vec<ChunkPos>)
    ensures
        kept@ == chunks@.filter(absent_from(others@)),
{
    let mut kept: Vec<ChunkPos> = Vec::new();
    let mut i: usize = 0;
    proof {
        reveal(Seq::filter);
        assert(chunks@.take(0).filter(absent_from(others@)) =~= Seq::<ChunkPos>::empty());
    }
    while i < chunks.len()
        invariant
            i <= chunks.len(),
            kept@ == chunks@.take(i as int).filter(absent_from(others@)),
        decreases chunks.len() - i,
    {
        proof {
            assert(chunks@.take(i + 1) =~= chunks@.take(i as int).push(chunks@[i as int]));
            chunks@.take(i as int).lemma_filter_push(chunks@[i as int], absent_from(others@));
        }
        if !contains_chunk(others, chunks[i]) {
            kept.push(chunks[i]);
        }
        i += 1;
    }
    proof {
        assert(chunks@.take(chunks.len() as int) =~= chunks@);
    }
    kept
}

/// Whether `chunk` shares a face with one of `chunks`.
pub fn touches_any_of(chunk: ChunkPos, chunks: &Vec<ChunkPos>) -> (touching: bool)
    ensures
        touching == touches_any(chunk, chunks@),
{
    let mut i: usize = 0;
    while i < chunks.len()
        invariant
            i <= chunks.len(),
            forall|k: int| 0 <= k < i ==> !chunk.shares_face_with(#[trigger] chunks@[k]),
        decreases chunks.len() - i,
    {
        if chunk.touches(chunks[i]) {
            return true;
        }
        i += 1;
    }
    false
}

/// The chunks of the new order that were in the old order and share a face
/// with one of the chunks coming into view, `new_chunks`.
pub fn find_chunk_neighbors(
    new_chunks: &Vec<ChunkPos>,
    old_order: &Vec<ChunkPos>,
    new_order: &Vec<ChunkPos>,
) -> (neighbors: Vec<ChunkPos>)
    ensures
        neighbors@ == new_order@.filter(stays_beside(old_order@, new_chunks@)),
{
    let mut neighbors: Vec<ChunkPos> = Vec::new();
    let mut i: usize = 0;
    let ghost pred = stays_beside(old_order@, new_chunks@);
    proof {
        reveal(Seq::filter);
        assert(new_order@.take(0).filter(pred) =~= Seq::<ChunkPos>::empty());
    }
    while i < new_order.len()
        invariant
            i <= new_order.len(),
            pred == stays_beside(old_order@, new_chunks@),
            neighbors@ == new_order@.take(i as int).filter(pred),
        decreases new_order.len() - i,
    {
        proof {
            assert(new_order@.take(i + 1) =~= new_order@.take(i as int).push(new_order@[i as int]));
            new_order@.take(i as int).lemma_filter_push(new_order@[i as int], pred);
        }
        if contains_chunk(old_order, new_order[i]) && touches_any_of(new_order[i], new_chunks) {
            neighbors.push(new_order[i]);
        }
        i += 1;
    }
    proof {
        assert(new_order@.take(new_order.len() as int) =~= new_order@);
    }
    neighbors
}

impl WorldState {
    /// The chunks of `chunks` that hold no render descriptor slot, in their sequence.
    pub fn chunks_without_slot(&self, chunks: &Vec<ChunkPos>) -> (kept: Vec<ChunkPos>)
        requires
            self.grid_wf(),
            forall|i: int| 0 <= i < chunks@.len() ==> (#[trigger] chunks@[i]).in_grid(),
        ensures
            kept@ == chunks@.filter(lacks_slot(self@.descriptors)),
    {
        let mut kept: Vec<ChunkPos> = Vec::new();
        let mut i: usize = 0;
        let ghost pred = lacks_slot(self@.descriptors);
        proof {
            reveal(Seq::filter);
            assert(chunks@.take(0).filter(pred) =~= Seq::<ChunkPos>::empty());
        }
        while i < chunks.len()
            invariant
                i <= chunks.len(),
                self.grid_wf(),
                forall|k: int| 0 <= k < chunks@.len() ==> (#[trigger] chunks@[k]).in_grid(),
                pred == lacks_slot(self@.descriptors),
                kept@ == chunks@.take(i as int).filter(pred),
            decreases chunks.len() - i,
        {
            proof {
                assert(chunks@.take(i + 1) =~= chunks@.take(i as int).push(chunks@[i as int]));
                chunks@.take(i as int).lemma_filter_push(chunks@[i as int], pred);
            }
            if self.get_render_descriptor_idx(chunks[i]) == crate::world::NO_RENDER_DESCRIPTOR_INDEX {
                kept.push(chunks[i]);
            }
            i += 1;
        }
        proof {
            assert(chunks@.take(chunks.len() as int) =~= chunks@);
        }
        kept
    }
}

/// Whether `c` is one of the first `n` chunks of `needing`.
pub open spec fn served_before(c: ChunkPos, needing: Seq<ChunkPos>, n: int) -> bool {
    exists|k: int| 0 <= k < n && k < needing.len() && #[trigger] needing[k] == c
}

/// The render descriptor slot that the `k`-th chunk in need of one is given:
/// the slot of the `k`-th chunk going out of view, and once those are used
/// up, the next new slot at the end of the pool.
pub open spec fn slot_given(world: WorldView, leaving: Seq<ChunkPos>, k: int) -> int {
    if k < leaving.len() {
        world.descriptors[leaving[k]] as int
    } else {
        world.render_slots.len() + k - leaving.len()
    }
}

impl WorldView {
    /// The chunks coming into view that hold no render descriptor slot, in
    /// the new order's sequence.
    pub open spec fn needing_slot(self, new_order: Seq<ChunkPos>) -> Seq<ChunkPos> {
        entering_chunks(self.chunk_order, new_order).filter(lacks_slot(self.descriptors))
    }

    /// Whether `after` is this world once the chunks around an observer in
    /// chunk `observer` have been streamed in.
    ///
    /// The chunk order is that of `observer`. No block changes. Each chunk
    /// that comes into view without a slot is allocated and given one: the
    /// `k`-th of them takes over the slot of the `k`-th chunk going out of
    /// view, which then holds none; when those slots are used up, the pool
    /// grows by one slot for each chunk still in need. Every other chunk
    /// keeps what it had.
    pub open spec fn streamed_to(self, after: WorldView, observer: ChunkPos) -> bool {
        let needing = self.needing_slot(after.chunk_order);
        let leaving = leaving_chunks(self.chunk_order, after.chunk_order);
        &&& after.observer_chunk == Some(observer)
        &&& is_chunk_order(after.chunk_order, observer)
        &&& after.blocks == self.blocks
        &&& after.render_slots.len() == self.render_slots.len() + if needing.len() > leaving.len() {
            needing.len() - leaving.len()
        } else {
            0
        }
        &&& forall|k: int|
            0 <= k < needing.len() ==> {
                &&& after.descriptors.dom().contains(#[trigger] needing[k])
                &&& after.descriptors[needing[k]] == slot_given(self, leaving, k)
                &&& after.allocated.contains(needing[k])
            }
        &&& forall|k: int|
            0 <= k < needing.len() && k < leaving.len() ==> {
                &&& !after.descriptors.dom().contains(#[trigger] leaving[k])
                &&& after.allocated.contains(leaving[k])
            }
        &&& forall|c: ChunkPos|
            !served_before(c, needing, needing.len() as int) && !served_before(
                c,
                leaving,
                needing.len() as int,
            ) ==> {
                &&& #[trigger] after.descriptors.dom().contains(c) == self.descriptors.dom().contains(c)
                &&& after.descriptors.dom().contains(c) ==> after.descriptors[c]
                    == self.descriptors[c]
                &&& after.allocated.contains(c) == self.allocated.contains(c)
            }
    }
}

impl WorldState {
    /// Brings the streamed chunks up to date with an observer standing in
    /// block column `(observer_x, observer_z)`, and returns the chunks whose
    /// mesh has to be made: those that stay in view beside a chunk coming
    /// into view, then those coming into view.
    ///
    /// The chunks returned are stale from now on. While the observer stays in
    /// one chunk, nothing changes and no chunk is returned.
    pub fn recompute_visible_set(&mut self, observer_x: usize, observer_z: usize) -> (dirty: Vec<
        ChunkPos,
    >)
        requires
            old(self).wf(),
            observer_x < 128,
            observer_z < 128,
        ensures
            final(self).wf(),
            old(self)@.observer_chunk == Some(
                ChunkPos::containing(observer_x as int, observer_z as int),
            ) ==> final(self)@ == old(self)@ && dirty@.len() == 0,
            old(self)@.observer_chunk != Some(
                ChunkPos::containing(observer_x as int, observer_z as int),
            ) ==> {
                &&& old(self)@.streamed_to(
                    final(self)@,
                    ChunkPos::containing(observer_x as int, observer_z as int),
                )
                &&& dirty@ == neighbors_of_entering(
                    old(self)@.chunk_order,
                    final(self)@.chunk_order,
                ) + entering_chunks(old(self)@.chunk_order, final(self)@.chunk_order)
                &&& forall|c: ChunkPos|
                    final(self)@.stale.contains(c) <==> old(self)@.stale.contains(c)
                        || dirty@.contains(c)
            },
    {
        let observer = ChunkPos::of_block(observer_x, observer_z);
        match self.observer_chunk() {
            Some(current) => {
                if current == observer {
                    return Vec::new();
                }
            },
            None => {},
        }
        let ghost w0 = self@;
        let new_order = get_chunk_order_by_distance(observer);
        let entering = chunks_not_in(&new_order, self.chunk_order());
        let leaving = chunks_not_in(self.chunk_order(), &new_order);
        let mut dirty = find_chunk_neighbors(&entering, self.chunk_order(), &new_order);
        proof {
            lemma_filter_facts(new_order@, absent_from(w0.chunk_order));
            lemma_filter_facts(w0.chunk_order, absent_from(new_order@));
            lemma_filter_facts(entering@, lacks_slot(w0.descriptors));
            assert forall|i: int| 0 <= i < entering@.len() implies (
            #[trigger] entering@[i]).in_grid() by {
                let k = choose|k: int| 0 <= k < new_order@.len() && new_order@[k] == entering@[i];
                assert(new_order@[k].visible_from(observer));
            }
            assert(w0.chunk_order.no_duplicates()) by {
                assert forall|i: int, j: int| 0 <= i < j < w0.chunk_order.len() implies w0.chunk_order[i]
                    != w0.chunk_order[j] by {
                    assert(w0.chunk_order[i].precedes(w0.chunk_order[j], w0.observer_chunk.unwrap()));
                }
            }
        }
        let needing = self.chunks_without_slot(&entering);
        let mut i: usize = 0;
        while i < needing.len()
            invariant
                i <= needing.len(),
                self.grid_wf(),
                w0.grid_ok(),
                w0.streaming_ok(),
                observer.in_grid(),
                is_chunk_order(new_order@, observer),
                entering@ == entering_chunks(w0.chunk_order, new_order@),
                leaving@ == leaving_chunks(w0.chunk_order, new_order@),
                needing@ == entering@.filter(lacks_slot(w0.descriptors)),
                needing@.no_duplicates(),
                leaving@.no_duplicates(),
                forall|k: int|
                    0 <= k < needing@.len() ==> {
                        &&& (#[trigger] needing@[k]).in_grid()
                        &&& !w0.descriptors.dom().contains(needing@[k])
                        &&& new_order@.contains(needing@[k])
                    },
                forall|k: int|
                    0 <= k < leaving@.len() ==> {
                        &&& (#[trigger] leaving@[k]).in_grid()
                        &&& w0.descriptors.dom().contains(leaving@[k])
                        &&& !new_order@.contains(leaving@[k])
                    },
                self@.blocks == w0.blocks,
                self@.observer_chunk == w0.observer_chunk,
                self@.chunk_order == w0.chunk_order,
                self@.render_slots.len() == w0.render_slots.len() + if i > leaving@.len() {
                    i - leaving@.len()
                } else {
                    0
                },
                forall|k: int|
                    0 <= k < i ==> {
                        &&& self@.descriptors.dom().contains(#[trigger] needing@[k])
                        &&& self@.descriptors[needing@[k]] == slot_given(w0, leaving@, k)
                        &&& self@.allocated.contains(needing@[k])
                    },
                forall|k: int|
                    0 <= k < i && k < leaving@.len() ==> {
                        &&& !self@.descriptors.dom().contains(#[trigger] leaving@[k])
                        &&& self@.allocated.contains(leaving@[k])
                    },
                forall|c: ChunkPos|
                    !served_before(c, needing@, i as int) && !served_before(c, leaving@, i as int)
                        ==> {
                        &&& #[trigger] self@.descriptors.dom().contains(c)
                            == w0.descriptors.dom().contains(c)
                        &&& self@.descriptors.dom().contains(c) ==> self@.descriptors[c]
                            == w0.descriptors[c]
                        &&& self@.allocated.contains(c) == w0.allocated.contains(c)
                    },
                forall|c: ChunkPos|
                    #[trigger] self@.stale.contains(c) <==> w0.stale.contains(c) || (served_before(
                        c,
                        needing@,
                        i as int,
                    ) && !w0.allocated.contains(c)),
            decreases needing.len() - i,
        {
            let chunk = needing[i];
            let ghost before = self@;
            proof {
                assert(!served_before(chunk, needing@, i as int));
                assert(!served_before(chunk, leaving@, i as int)) by {
                    if served_before(chunk, leaving@, i as int) {
                        let k = choose|k: int|
                            0 <= k < i && k < leaving@.len() && #[trigger] leaving@[k] == chunk;
                        assert(!new_order@.contains(leaving@[k]));
                    }
                }
                assert(!before.descriptors.dom().contains(chunk));
            }
            self.maybe_allocate_chunk(chunk);
            if i < leaving.len() {
                let from = leaving[i];
                proof {
                    assert(!served_before(from, leaving@, i as int));
                    assert(!served_before(from, needing@, i as int)) by {
                        if served_before(from, needing@, i as int) {
                            let k = choose|k: int|
                                0 <= k < i && k < needing@.len() && #[trigger] needing@[k] == from;
                            assert(new_order@.contains(needing@[k]));
                        }
                    }
                    assert(before.descriptors.dom().contains(from));
                    assert(from != chunk);
                }
                self.relocate_descriptor(from, chunk);
            } else {
                self.assign_fresh_descriptor(chunk);
            }
            proof {
                assert forall|c: ChunkPos|
                    !served_before(c, needing@, i + 1) && !served_before(
                        c,
                        leaving@,
                        i + 1,
                    ) implies {
                    &&& #[trigger] self@.descriptors.dom().contains(c)
                        == w0.descriptors.dom().contains(c)
                    &&& self@.descriptors.dom().contains(c) ==> self@.descriptors[c]
                        == w0.descriptors[c]
                    &&& self@.allocated.contains(c) == w0.allocated.contains(c)
                } by {
                    assert(c != needing@[i as int]);
                    if i < leaving@.len() {
                        assert(c != leaving@[i as int]);
                    }
                    assert(!served_before(c, needing@, i as int));
                    assert(!served_before(c, leaving@, i as int));
                    assert(before.descriptors.dom().contains(c) == w0.descriptors.dom().contains(c));
                }
                assert forall|k: int| 0 <= k < i + 1 implies {
                    &&& self@.descriptors.dom().contains(#[trigger] needing@[k])
                    &&& self@.descriptors[needing@[k]] == slot_given(w0, leaving@, k)
                    &&& self@.allocated.contains(needing@[k])
                } by {
                    if k < i {
                        assert(before.descriptors.dom().contains(needing@[k]));
                        assert(needing@[k] != chunk);
                        if i < leaving@.len() {
                            assert(new_order@.contains(needing@[k]));
                            assert(needing@[k] != leaving@[i as int]);
                        }
                    }
                }
                assert forall|k: int| 0 <= k < i + 1 && k < leaving@.len() implies {
                    &&& !self@.descriptors.dom().contains(#[trigger] leaving@[k])
                    &&& self@.allocated.contains(leaving@[k])
                } by {
                    assert(new_order@.contains(chunk));
                    assert(leaving@[k] != chunk);
                    if k < i {
                        assert(!before.descriptors.dom().contains(leaving@[k]));
                    } else {
                        assert(before.descriptors.dom().contains(leaving@[k]));
                    }
                }
                assert forall|c: ChunkPos|
                    #[trigger] self@.stale.contains(c) <==> w0.stale.contains(c) || (served_before(
                        c,
                        needing@,
                        i + 1,
                    ) && !w0.allocated.contains(c)) by {
                    assert(before.allocated.contains(chunk) == w0.allocated.contains(chunk));
                    if w0.stale.contains(chunk) {
                        assert(w0.allocated.contains(chunk));
                    }
                    if c == chunk {
                        assert(needing@[i as int] == c);
                    } else if served_before(c, needing@, i + 1) {
                        let k = choose|k: int|
                            0 <= k < i + 1 && k < needing@.len() && #[trigger] needing@[k] == c;
                        assert(k < i);
                    }
                }
            }
            i += 1;
        }
        let ghost served = self@;
        let mut j: usize = 0;
        while j < entering.len()
            invariant
                j <= entering.len(),
                dirty@ == neighbors_of_entering(w0.chunk_order, new_order@) + entering@.take(j as int),
                entering@ == entering_chunks(w0.chunk_order, new_order@),
            decreases entering.len() - j,
        {
            dirty.push(entering[j]);
            proof {
                assert(entering@.take(j + 1) =~= entering@.take(j as int).push(entering@[j as int]));
            }
            j += 1;
        }
        proof {
            assert(entering@.take(entering.len() as int) =~= entering@);
            lemma_filter_facts(
                new_order@,
                stays_beside(w0.chunk_order, entering_chunks(w0.chunk_order, new_order@)),
            );
        }
        self.mark_chunks_stale(&dirty);
        proof {
            let neighbors = neighbors_of_entering(w0.chunk_order, new_order@);
            assert forall|c: ChunkPos| dirty@.contains(c) implies served.allocated.contains(c) by {
                let d = choose|d: int| 0 <= d < dirty@.len() && dirty@[d] == c;
                assert(!served_before(c, leaving@, needing@.len() as int)) by {
                    if served_before(c, leaving@, needing@.len() as int) {
                        let k = choose|k: int|
                            0 <= k < needing@.len() && k < leaving@.len()
                                && #[trigger] leaving@[k] == c;
                        assert(!new_order@.contains(leaving@[k]));
                        if d < neighbors.len() {
                            assert(new_order@.contains(neighbors[d]));
                        } else {
                            assert(new_order@.contains(entering@[d - neighbors.len()]));
                        }
                    }
                }
                if served_before(c, needing@, needing@.len() as int) {
                    let k = choose|k: int|
                        0 <= k < needing@.len() && k < needing@.len() && #[trigger] needing@[k] == c;
                    assert(served.allocated.contains(needing@[k]));
                } else {
                    assert(served.descriptors.dom().contains(c) == w0.descriptors.dom().contains(c));
                    if d < neighbors.len() {
                        assert(stays_beside(w0.chunk_order, entering@)(neighbors[d]));
                        let m = choose|m: int| 0 <= m < w0.chunk_order.len() && w0.chunk_order[m] == c;
                        assert(w0.descriptors.dom().contains(w0.chunk_order[m]));
                    } else {
                        let e = d - neighbors.len();
                        assert(entering@[e] == c);
                        if lacks_slot(w0.descriptors)(entering@[e]) {
                            assert(needing@.contains(entering@[e]));
                            let k = choose|k: int| 0 <= k < needing@.len() && needing@[k] == c;
                            assert(served_before(c, needing@, needing@.len() as int));
                        }
                    }
                    assert(w0.descriptors.dom().contains(c));
                    assert(w0.allocated.contains(c));
                }
            }
            assert forall|c: ChunkPos|
                self@.stale.contains(c) <==> w0.stale.contains(c) || dirty@.contains(c) by {
                if served_before(c, needing@, needing@.len() as int) {
                    let k = choose|k: int|
                        0 <= k < needing@.len() && k < needing@.len() && #[trigger] needing@[k] == c;
                    let e = choose|e: int| 0 <= e < entering@.len() && entering@[e] == needing@[k];
                    assert(dirty@[neighbors.len() + e] == c);
                }
            }
        }
        self.set_chunk_order(observer, new_order);
        proof {
            assert forall|n: int| 0 <= n < self@.chunk_order.len() implies self@.descriptors.dom().contains(
                #[trigger] self@.chunk_order[n],
            ) by {
                let c = self@.chunk_order[n];
                if served_before(c, needing@, needing@.len() as int) {
                } else {
                    assert(!served_before(c, leaving@, needing@.len() as int)) by {
                        if served_before(c, leaving@, needing@.len() as int) {
                            let k = choose|k: int|
                                0 <= k < needing@.len() && k < leaving@.len()
                                    && #[trigger] leaving@[k] == c;
                            assert(!new_order@.contains(leaving@[k]));
                        }
                    }
                    assert(served.descriptors.dom().contains(c) == w0.descriptors.dom().contains(c));
                    if w0.chunk_order.contains(c) {
                        let m = choose|m: int| 0 <= m < w0.chunk_order.len() && w0.chunk_order[m] == c;
                        assert(w0.descriptors.dom().contains(w0.chunk_order[m]));
                    } else {
                        assert(absent_from(w0.chunk_order)(new_order@[n]));
                        assert(entering@.contains(c));
                        let e = choose|e: int| 0 <= e < entering@.len() && entering@[e] == c;
                        if lacks_slot(w0.descriptors)(entering@[e]) {
                            assert(needing@.contains(entering@[e]));
                            let k = choose|k: int| 0 <= k < needing@.len() && needing@[k] == c;
                            assert(served_before(c, needing@, needing@.len() as int));
                        }
                    }
                }
            }
        }
        dirty
    }
}

/// The chunks that a move makes dirty are chunks of the new order.
pub proof fn lemma_dirty_in_view(old_order: Seq<ChunkPos>, new_order: Seq<ChunkPos>, c: ChunkPos)
    requires
        (neighbors_of_entering(old_order, new_order) + entering_chunks(
            old_order,
            new_order,
        )).contains(c),
    ensures
        new_order.contains(c),
{
    let neighbors = neighbors_of_entering(old_order, new_order);
    let entering = entering_chunks(old_order, new_order);
    let dirty = neighbors + entering;
    lemma_filter_facts(new_order, stays_beside(old_order, entering));
    lemma_filter_facts(new_order, absent_from(old_order));
    let d = choose|d: int| 0 <= d < dirty.len() && dirty[d] == c;
    if d < neighbors.len() {
        assert(new_order.contains(neighbors[d]));
    } else {
        assert(new_order.contains(entering[d - neighbors.len()]));
    }
}

/// The new mesh of a chunk together with the render descriptor slot whose
/// buffers take it.
#[derive(Debug)]
pub struct ChunkUpdate {
    pub data: ChunkData,
    pub render_descriptor_idx: usize,
}

impl WorldView {
    /// The chunks of `dirty` whose mesh is made again: those that hold a
    /// render descriptor slot, each once, in the order in which they first
    /// occur.
    pub open spec fn remesh_targets(self, dirty: Seq<ChunkPos>) -> Seq<ChunkPos>
        decreases dirty.len(),
    {
        if dirty.len() == 0 {
            Seq::empty()
        } else {
            let before = self.remesh_targets(dirty.drop_last());
            let c = dirty.last();
            if self.descriptors.dom().contains(c) && !before.contains(c) {
                before.push(c)
            } else {
                before
            }
        }
    }

    /// Whether `updates` holds, for each of `targets` in turn, the mesh of
    /// the chunk and the slot that the chunk holds.
    pub open spec fn are_updates_of(self, updates: Seq<ChunkUpdate>, targets: Seq<ChunkPos>) -> bool {
        &&& updates.len() == targets.len()
        &&& forall|k: int|
            0 <= k < updates.len() ==> {
                &&& self.is_mesh_of((#[trigger] updates[k]).data, targets[k])
                &&& self.descriptors.dom().contains(targets[k])
                &&& updates[k].render_descriptor_idx == self.descriptors[targets[k]]
            }
    }
}

impl WorldState {
    /// Makes the meshes of the dirty chunks again and marks the chunks as
    /// meshed. A chunk that occurs more than once is meshed once; a chunk
    /// that holds no render descriptor slot is not drawn and is passed over:
    /// it stays as it is.
    pub fn regenerate(&mut self, dirty: &Vec<ChunkPos>) -> (updates: Vec<ChunkUpdate>)
        requires
            old(self).wf(),
        ensures
            final(self).wf(),
            final(self)@ == old(self)@.marked_meshed(dirty@),
            old(self)@.are_updates_of(updates@, old(self)@.remesh_targets(dirty@)),
            (forall|c: ChunkPos|
                old(self)@.stale.contains(c) && old(self)@.descriptors.dom().contains(c)
                    ==> dirty@.contains(c)) ==> final(self)@.drawn_chunks_fresh(),
    {
        let updates = self.compute_meshes(dirty);
        self.mark_chunks_meshed(dirty);
        updates
    }

    /// The meshes of the dirty chunks, for each of them that holds a render
    /// descriptor slot, each once.
    pub fn compute_meshes(&self, dirty: &Vec<ChunkPos>) -> (updates: Vec<ChunkUpdate>)
        requires
            self.wf(),
        ensures
            self@.are_updates_of(updates@, self@.remesh_targets(dirty@)),
    {
        let mut updates: Vec<ChunkUpdate> = Vec::new();
        let mut done: Vec<ChunkPos> = Vec::new();
        let mut i: usize = 0;
        proof {
            assert(dirty@.take(0) =~= Seq::<ChunkPos>::empty());
        }
        while i < dirty.len()
            invariant
                i <= dirty.len(),
                self.wf(),
                done@ == self@.remesh_targets(dirty@.take(i as int)),
                self@.are_updates_of(updates@, done@),
            decreases dirty.len() - i,
        {
            let chunk = dirty[i];
            proof {
                assert(dirty@.take(i + 1).drop_last() =~= dirty@.take(i as int));
                assert(dirty@.take(i + 1).last() == chunk);
                if self@.descriptors.dom().contains(chunk) {
                    assert(self@.allocated.contains(chunk));
                    assert(chunk.in_grid());
                }
            }
            if chunk.x < 8 && chunk.z < 8 {
                let idx = self.get_render_descriptor_idx(chunk);
                if idx != crate::world::NO_RENDER_DESCRIPTOR_INDEX && !contains_chunk(&done, chunk) {
                    let data = self.compute_chunk_mesh(chunk);
                    let ghost before = updates@;
                    updates.push(ChunkUpdate { data, render_descriptor_idx: idx });
                    done.push(chunk);
                    proof {
                        assert forall|k: int| 0 <= k < updates@.len() implies {
                            &&& self@.is_mesh_of((#[trigger] updates@[k]).data, done@[k])
                            &&& self@.descriptors.dom().contains(done@[k])
                            &&& updates@[k].render_descriptor_idx == self@.descriptors[done@[k]]
                        } by {
                            if k < before.len() {
                                assert(updates@[k] == before[k]);
                            }
                        }
                    }
                }
            }
            i += 1;
        }
        proof {
            assert(dirty@.take(dirty.len() as int) =~= dirty@);
        }
        updates
    }

    /// Streams in the chunks around an observer standing in block column
    /// `(observer_x, observer_z)`, makes the mesh of every chunk in view and
    /// marks these chunks as meshed. Returns the meshes together with the
    /// chunk order they follow.
    pub fn generate_vertex_data(&mut self, observer_x: usize, observer_z: usize) -> (world_data: (
        Vec<ChunkData>,
        Vec<ChunkPos>,
    ))
        requires
            old(self).wf(),
            observer_x < 128,
            observer_z < 128,
        ensures
            final(self).wf(),
            old(self)@.observer_chunk == Some(
                ChunkPos::containing(observer_x as int, observer_z as int),
            ) ==> final(self)@ == old(self)@.marked_meshed(old(self)@.chunk_order),
            old(self)@.observer_chunk != Some(
                ChunkPos::containing(observer_x as int, observer_z as int),
            ) ==> old(self)@.streamed_to(
                final(self)@,
                ChunkPos::containing(observer_x as int, observer_z as int),
            ),
            forall|c: ChunkPos|
                final(self)@.stale.contains(c) <==> old(self)@.stale.contains(c)
                    && !final(self)@.chunk_order.contains(c),
            world_data.1@ == final(self)@.chunk_order,
            world_data.0@.len() == world_data.1@.len(),
            forall|k: int|
                0 <= k < world_data.0@.len() ==> final(self)@.is_mesh_of(
                    #[trigger] world_data.0@[k],
                    world_data.1@[k],
                ),
    {
        let dirty = self.recompute_visible_set(observer_x, observer_z);
        let mut order: Vec<ChunkPos> = Vec::new();
        let mut meshes: Vec<ChunkData> = Vec::new();
        let mut i: usize = 0;
        while i < self.chunk_order().len()
            invariant
                i <= self@.chunk_order.len(),
                self.wf(),
                order@ == self@.chunk_order.take(i as int),
                meshes@.len() == i,
                forall|k: int|
                    0 <= k < i ==> self@.is_mesh_of(#[trigger] meshes@[k], self@.chunk_order[k]),
            decreases self@.chunk_order.len() - i,
        {
            let chunk = self.chunk_order()[i];
            proof {
                assert(self@.descriptors.dom().contains(self@.chunk_order[i as int]));
                assert(self@.chunk_order.take(i + 1) =~= self@.chunk_order.take(i as int).push(chunk));
            }
            let data = self.compute_chunk_mesh(chunk);
            let ghost before = meshes@;
            meshes.push(data);
            order.push(chunk);
            proof {
                assert forall|k: int| 0 <= k < i + 1 implies self@.is_mesh_of(
                    #[trigger] meshes@[k],
                    self@.chunk_order[k],
                ) by {
                    if k < i {
                        assert(meshes@[k] == before[k]);
                    }
                }
            }
            i += 1;
        }
        proof {
            assert(self@.chunk_order.take(self@.chunk_order.len() as int) =~= self@.chunk_order);
        }
        let ghost streamed = self@;
        self.mark_chunks_meshed(&order);
        proof {
            assert forall|k: int| 0 <= k < meshes@.len() implies self@.is_mesh_of(
                #[trigger] meshes@[k],
                order@[k],
            ) by {
                assert(streamed.is_mesh_of(meshes@[k], streamed.chunk_order[k]));
                crate::mesh::lemma_mesh_depends_on_blocks(streamed, self@, order@[k], meshes@[k]);
            }
            assert forall|c: ChunkPos|
                self@.stale.contains(c) <==> old(self)@.stale.contains(c)
                    && !self@.chunk_order.contains(c) by {
                if order@.contains(c) {
                    let n = choose|n: int| 0 <= n < order@.len() && order@[n] == c;
                    assert(streamed.descriptors.dom().contains(streamed.chunk_order[n]));
                }
                if dirty@.contains(c) {
                    lemma_dirty_in_view(old(self)@.chunk_order, streamed.chunk_order, c);
                }
            }
        }
        (meshes, order)
    }
}

/// Two chunk orders of one observer chunk agree on their first `n` chunks.
proof fn lemma_chunk_order_prefix(a: Seq<ChunkPos>, b: Seq<ChunkPos>, observer: ChunkPos, n: int)
    requires
        is_chunk_order(a, observer),
        is_chunk_order(b, observer),
        0 <= n <= a.len(),
        n <= b.len(),
    ensures
        forall|i: int| 0 <= i < n ==> a[i] == b[i],
    decreases n,
{
    if n > 0 {
        lemma_chunk_order_prefix(a, b, observer, n - 1);
        let m = n - 1;
        if a[m] != b[m] {
            assert(a[m].visible_from(observer));
            assert(b.contains(a[m]));
            let j = choose|j: int| 0 <= j < b.len() && b[j] == a[m];
            if j < m {
                assert(a[j].precedes(a[m], observer));
            }
            assert(b[m].precedes(b[j], observer));
            assert(b[m].visible_from(observer));
            assert(a.contains(b[m]));
            let k = choose|k: int| 0 <= k < a.len() && a[k] == b[m];
            if k < m {
                assert(b[k].precedes(b[m], observer));
            }
            assert(a[m].precedes(a[k], observer));
        }
    }
}

/// An observer chunk has one chunk order: it holds each chunk within the
/// visible radius of the observer's chunk once and no other chunk, and the
/// order among them is fixed.
pub proof fn lemma_chunk_order_unique(a: Seq<ChunkPos>, b: Seq<ChunkPos>, observer: ChunkPos)
    requires
        is_chunk_order(a, observer),
        is_chunk_order(b, observer),
    ensures
        a == b,
        a.no_duplicates(),
        forall|c: ChunkPos| a.contains(c) <==> c.visible_from(observer),
{
    let n = if a.len() <= b.len() {
        a.len() as int
    } else {
        b.len() as int
    };
    lemma_chunk_order_prefix(a, b, observer, n);
    if a.len() > n {
        assert(a[n].visible_from(observer));
        assert(b.contains(a[n]));
        let j = choose|j: int| 0 <= j < b.len() && b[j] == a[n];
        assert(a[j].precedes(a[n], observer));
    }
    if b.len() > n {
        assert(b[n].visible_from(observer));
        assert(a.contains(b[n]));
        let j = choose|j: int| 0 <= j < a.len() && a[j] == b[n];
        assert(b[j].precedes(b[n], observer));
    }
    assert(a =~= b);
    assert forall|i: int, j: int| 0 <= i < j < a.len() implies a[i] != a[j] by {
        assert(a[i].precedes(a[j], observer));
    }
    assert forall|c: ChunkPos| a.contains(c) implies c.visible_from(observer) by {
        let i = choose|i: int| 0 <= i < a.len() && a[i] == c;
        assert(a[i].visible_from(observer));
    }
}

/// An observer that moves without leaving its chunk keeps its chunk order:
/// the chunk orders of two block columns of one chunk are the same.
pub proof fn lemma_order_fixed_within_chunk(
    from: (int, int),
    to: (int, int),
    before: Seq<ChunkPos>,
    after: Seq<ChunkPos>,
)
    requires
        ChunkPos::containing(from.0, from.1) == ChunkPos::containing(to.0, to.1),
        is_chunk_order(before, ChunkPos::containing(from.0, from.1)),
        is_chunk_order(after, ChunkPos::containing(to.0, to.1)),
    ensures
        before == after,
{
    lemma_chunk_order_unique(before, after, ChunkPos::containing(from.0, from.1));
}

} // verus!
