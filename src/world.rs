use vstd::prelude::*;
use crate::block::{Block, BlockPos, BlockType, ChunkCoord};
use crate::chunk::{add_spec, in_footprint, lemma_add_keeps_blocks, remove_spec, slot_in, Chunk};
use crate::coords::{
    axis_in_range, chunk_axis, chunk_axis_spec, local_axis, local_axis_spec,
};
use crate::mesh::{find_chunk, is_loaded, unique_coords, Mesh};
use crate::noise::{NoiseField, MAX_HEIGHT};

verus! {

/// The loaded chunks, at most one per coordinate.
pub struct World {
    pub chunks: Vec<Chunk>,
}

/// A block that a chunk can hold at its relative position.
pub open spec fn block_fits(b: Block) -> bool {
    in_footprint(b.position.x as int, b.position.z as int) && 0 <= b.position.y < MAX_HEIGHT
}

/// The chunks of `a` and `b` stand at the same coordinates, in the same order.
pub open spec fn same_coords(a: Seq<Chunk>, b: Seq<Chunk>) -> bool {
    &&& a.len() == b.len()
    &&& forall|i: int|
        #![trigger a[i]]
        #![trigger b[i]]
        0 <= i < a.len() ==> a[i].x == b[i].x && a[i].y == b[i].y
}

/// No block present in a chunk of `a` is missing from the chunk of `b` at the same index.
pub open spec fn keeps_blocks(a: Seq<Chunk>, b: Seq<Chunk>) -> bool {
    forall|i: int, px: int, py: int, pz: int|
        0 <= i < a.len() && (#[trigger] slot_in(a[i].cols(), px, py, pz)) is Some ==> slot_in(
            b[i].cols(),
            px,
            py,
            pz,
        ) is Some
}

/// The chunk that holds `b` is among `cs` and has a block at `b`'s position.
pub open spec fn delivered(cs: Seq<Chunk>, b: Block) -> bool {
    exists|j: int|
        0 <= j < cs.len() && cs[j].x == b.chunk.x && cs[j].y == b.chunk.y && (#[trigger] slot_in(
            cs[j].cols(),
            b.position.x as int,
            b.position.y as int,
            b.position.z as int,
        )) is Some
}

/// `b` can be handed to its chunk in `cs`: the chunk is loaded and can hold it.
pub open spec fn deliverable(cs: Seq<Chunk>, b: Block) -> bool {
    block_fits(b) && is_loaded(cs, b.chunk.x as int, b.chunk.y as int)
}

proof fn lemma_same_coords_loaded(a: Seq<Chunk>, b: Seq<Chunk>)
    requires
        same_coords(a, b),
    ensures
        forall|cx: int, cz: int| #[trigger] is_loaded(a, cx, cz) == is_loaded(b, cx, cz),
        unique_coords(a) ==> unique_coords(b),
{
    assert forall|cx: int, cz: int| #[trigger] is_loaded(a, cx, cz) == is_loaded(b, cx, cz) by {
        if is_loaded(a, cx, cz) {
            let i = choose|i: int| 0 <= i < a.len() && a[i].x == cx && #[trigger] a[i].y == cz;
            assert(b[i].x == cx && b[i].y == cz);
        }
        if is_loaded(b, cx, cz) {
            let i = choose|i: int| 0 <= i < b.len() && b[i].x == cx && #[trigger] b[i].y == cz;
            assert(a[i].x == cx && a[i].y == cz);
        }
    }
    if unique_coords(a) {
        assert forall|i: int, j: int| 0 <= i < b.len() && 0 <= j < b.len() && i != j implies !(b[i].x == b[j].x
            && #[trigger] b[i].y == #[trigger] b[j].y) by {
            assert(a[i].x == b[i].x && a[j].x == b[j].x);
        }
    }
}

proof fn lemma_delivered_kept(a: Seq<Chunk>, b: Seq<Chunk>, blk: Block)
    requires
        same_coords(a, b),
        keeps_blocks(a, b),
        delivered(a, blk),
    ensures
        delivered(b, blk),
{
    let j = choose|j: int|
        0 <= j < a.len() && a[j].x == blk.chunk.x && a[j].y == blk.chunk.y && (#[trigger] slot_in(
            a[j].cols(),
            blk.position.x as int,
            blk.position.y as int,
            blk.position.z as int,
        )) is Some;
    assert(b[j].x == blk.chunk.x && b[j].y == blk.chunk.y);
    assert(slot_in(b[j].cols(), blk.position.x as int, blk.position.y as int, blk.position.z as int) is Some);
}

impl World {
    pub open spec fn wf(&self) -> bool {
        &&& unique_coords(self.chunks@)
        &&& forall|i: int| 0 <= i < self.chunks@.len() ==> (#[trigger] self.chunks@[i]).wf()
    }

    /// A world with no chunk loaded.
    pub fn new() -> (r: World)
        ensures
            r.wf(),
            r.chunks@.len() == 0,
    {
        World { chunks: Vec::new() }
    }

    /// Index of the loaded chunk at `(x, y)`, if there is one.
    pub fn get_chunk_index(&self, x: i32, y: i32) -> (r: Option<usize>)
        ensures
            r matches Some(i) ==> i < self.chunks@.len() && self.chunks@[i as int].x == x
                && self.chunks@[i as int].y == y,
            r is None <==> !is_loaded(self.chunks@, x as int, y as int),
    {
        find_chunk(&self.chunks, x as i64, y as i64)
    }

    /// Loads `chunk`, in place of the chunk loaded at its coordinate if there is one.
    pub fn insert_chunk(&mut self, chunk: Chunk)
        requires
            old(self).wf(),
            chunk.wf(),
        ensures
            final(self).wf(),
            is_loaded(old(self).chunks@, chunk.x as int, chunk.y as int) ==> exists|i: int|
                0 <= i < old(self).chunks@.len() && old(self).chunks@[i].x == chunk.x
                    && old(self).chunks@[i].y == chunk.y && final(self).chunks@ == #[trigger] old(
                    self,
                ).chunks@.update(i, chunk),
            !is_loaded(old(self).chunks@, chunk.x as int, chunk.y as int) ==> final(self).chunks@
                == old(self).chunks@.push(chunk),
    {
        match find_chunk(&self.chunks, chunk.x as i64, chunk.y as i64) {
            Some(i) => {
                let ghost before = self.chunks@;
                self.chunks.set(i, chunk);
                proof {
                    assert(self.chunks@ == before.update(i as int, chunk));
                    assert forall|a: int, b: int|
                        0 <= a < self.chunks@.len() && 0 <= b < self.chunks@.len() && a != b implies !(
                        self.chunks@[a].x == self.chunks@[b].x && #[trigger] self.chunks@[a].y
                            == #[trigger] self.chunks@[b].y) by {
                        if a != i && b != i {
                            assert(self.chunks@[a] == before[a]);
                            assert(self.chunks@[b] == before[b]);
                        }
                    }
                }
            },
            None => {
                let ghost before = self.chunks@;
                self.chunks.push(chunk);
                proof {
                    assert forall|a: int, b: int|
                        0 <= a < self.chunks@.len() && 0 <= b < self.chunks@.len() && a != b implies !(
                        self.chunks@[a].x == self.chunks@[b].x && #[trigger] self.chunks@[a].y
                            == #[trigger] self.chunks@[b].y) by {
                        if a < before.len() && b < before.len() {
                            assert(self.chunks@[a] == before[a]);
                            assert(self.chunks@[b] == before[b]);
                        } else if a < before.len() {
                            assert(self.chunks@[a] == before[a]);
                        } else if b < before.len() {
                            assert(self.chunks@[b] == before[b]);
                        }
                    }
                }
            },
        }
    }

    /// Unloads the chunk at `(x, y)` and hands it back, if one is loaded.
    pub fn remove_chunk(&mut self, x: i32, y: i32) -> (r: Option<Chunk>)
        requires
            old(self).wf(),
        ensures
            final(self).wf(),
            r is Some <==> is_loaded(old(self).chunks@, x as int, y as int),
            r is None ==> final(self).chunks@ == old(self).chunks@,
            r matches Some(ch) ==> ch.x == x && ch.y == y && exists|i: int|
                0 <= i < old(self).chunks@.len() && old(self).chunks@[i] == ch && final(self).chunks@
                    == #[trigger] old(self).chunks@.remove(i),
            !is_loaded(final(self).chunks@, x as int, y as int),
    {
        match find_chunk(&self.chunks, x as i64, y as i64) {
            Some(i) => {
                let ghost before = self.chunks@;
                let ch = self.chunks.remove(i);
                proof {
                    assert(self.chunks@ == before.remove(i as int));
                    assert forall|a: int| 0 <= a < self.chunks@.len() implies #[trigger] self.chunks@[a]
                        == before[if a < i { a } else { a + 1 }] by {}
                    assert forall|a: int, b: int|
                        0 <= a < self.chunks@.len() && 0 <= b < self.chunks@.len() && a != b implies !(
                        self.chunks@[a].x == self.chunks@[b].x && #[trigger] self.chunks@[a].y
                            == #[trigger] self.chunks@[b].y) by {
                        assert(self.chunks@[a] == before[if a < i { a } else { a + 1 }]);
                        assert(self.chunks@[b] == before[if b < i { b } else { b + 1 }]);
                    }
                    assert forall|a: int| 0 <= a < self.chunks@.len() implies (#[trigger] self.chunks@[a]).wf() by {
                        assert(self.chunks@[a] == before[if a < i { a } else { a + 1 }]);
                    }
                    if is_loaded(self.chunks@, x as int, y as int) {
                        let a = choose|a: int| 0 <= a < self.chunks@.len() && self.chunks@[a].x == x && #[trigger] self.chunks@[a].y == y;
                        assert(self.chunks@[a] == before[if a < i { a } else { a + 1 }]);
                    }
                }
                Some(ch)
            },
            None => None,
        }
    }

    /// Whether a block is present at world position `position`; `false` where its chunk is
    /// not loaded.
    pub fn exists_block_absolute(&self, position: &BlockPos) -> (r: bool)
        requires
            self.wf(),
            axis_in_range(position.x as int),
            axis_in_range(position.z as int),
        ensures
            r == exists|i: int|
                0 <= i < self.chunks@.len() && self.chunks@[i].x == chunk_axis_spec(position.x as int)
                    && self.chunks@[i].y == chunk_axis_spec(position.z as int) && (#[trigger] slot_in(
                    self.chunks@[i].cols(),
                    local_axis_spec(position.x as int),
                    position.y as int,
                    local_axis_spec(position.z as int),
                )) is Some,
    {
        let cx = chunk_axis(position.x);
        let cz = chunk_axis(position.z);
        let rel = BlockPos { x: local_axis(position.x), y: position.y, z: local_axis(position.z) };
        match find_chunk(&self.chunks, cx, cz) {
            Some(i) => {
                let r = self.chunks[i].exists_block_at(&rel);
                proof {
                    if !r {
                        assert forall|j: int|
                            0 <= j < self.chunks@.len() && self.chunks@[j].x == cx && self.chunks@[j].y == cz
                                implies !(#[trigger] slot_in(self.chunks@[j].cols(), rel.x as int, rel.y as int, rel.z as int) is Some) by {
                            assert(j == i);
                        }
                    }
                }
                r
            },
            None => false,
        }
    }

    /// Puts a block of type `block_type` at world position `position` into the chunk that
    /// holds it. Returns `false`, changing nothing, where that chunk is not loaded.
    pub fn place_block(&mut self, position: &BlockPos, block_type: BlockType) -> (r: bool)
        requires
            old(self).wf(),
            axis_in_range(position.x as int),
            axis_in_range(position.z as int),
            0 <= position.y < MAX_HEIGHT,
        ensures
            final(self).wf(),
            r == is_loaded(old(self).chunks@, chunk_axis_spec(position.x as int), chunk_axis_spec(position.z as int)),
            !r ==> final(self).chunks@ == old(self).chunks@,
            r ==> exists|i: int|
                0 <= i < old(self).chunks@.len() && old(self).chunks@[i].x == chunk_axis_spec(position.x as int)
                    && old(self).chunks@[i].y == chunk_axis_spec(position.z as int)
                    && final(self).chunks@.len() == old(self).chunks@.len()
                    && (forall|j: int| 0 <= j < old(self).chunks@.len() && j != i ==> final(self).chunks@[j] == old(self).chunks@[j])
                    && (#[trigger] final(self).chunks@[i]).cols() == add_spec(
                        old(self).chunks@[i].cols(),
                        local_axis_spec(position.x as int),
                        position.y as int,
                        local_axis_spec(position.z as int),
                        block_type,
                    ),
    {
        let cx = chunk_axis(position.x);
        let cz = chunk_axis(position.z);
        let rel = BlockPos { x: local_axis(position.x), y: position.y, z: local_axis(position.z) };
        match find_chunk(&self.chunks, cx, cz) {
            Some(i) => {
                let ghost before = self.chunks@;
                let block = Block::new(rel, ChunkCoord { x: cx as i32, y: cz as i32 }, block_type);
                let mut chunk = self.chunks.remove(i);
                chunk.add_block(block);
                self.chunks.insert(i, chunk);
                proof {
                    assert forall|j: int| 0 <= j < before.len() && j != i implies self.chunks@[j] == before[j] by {}
                    assert(self.chunks@[i as int].x == before[i as int].x);
                    assert forall|a: int, b: int|
                        0 <= a < self.chunks@.len() && 0 <= b < self.chunks@.len() && a != b implies !(
                        self.chunks@[a].x == self.chunks@[b].x && #[trigger] self.chunks@[a].y
                            == #[trigger] self.chunks@[b].y) by {
                        assert(self.chunks@[a].x == before[a].x && self.chunks@[a].y == before[a].y);
                        assert(self.chunks@[b].x == before[b].x && self.chunks@[b].y == before[b].y);
                    }
                    assert forall|a: int| 0 <= a < self.chunks@.len() implies (#[trigger] self.chunks@[a]).wf() by {
                        if a != i {
                            assert(self.chunks@[a] == before[a]);
                        }
                    }
                }
                true
            },
            None => false,
        }
    }

    /// Empties the slot at world position `position` in the chunk that holds it. Returns
    /// `false`, changing nothing, where that chunk is not loaded.
    pub fn remove_block(&mut self, position: &BlockPos) -> (r: bool)
        requires
            old(self).wf(),
            axis_in_range(position.x as int),
            axis_in_range(position.z as int),
        ensures
            final(self).wf(),
            r == is_loaded(old(self).chunks@, chunk_axis_spec(position.x as int), chunk_axis_spec(position.z as int)),
            !r ==> final(self).chunks@ == old(self).chunks@,
            r ==> exists|i: int|
                0 <= i < old(self).chunks@.len() && old(self).chunks@[i].x == chunk_axis_spec(position.x as int)
                    && old(self).chunks@[i].y == chunk_axis_spec(position.z as int)
                    && final(self).chunks@.len() == old(self).chunks@.len()
                    && (forall|j: int| 0 <= j < old(self).chunks@.len() && j != i ==> final(self).chunks@[j] == old(self).chunks@[j])
                    && (#[trigger] final(self).chunks@[i]).cols() == remove_spec(
                        old(self).chunks@[i].cols(),
                        local_axis_spec(position.x as int),
                        position.y as int,
                        local_axis_spec(position.z as int),
                    ),
    {
        let cx = chunk_axis(position.x);
        let cz = chunk_axis(position.z);
        let rel = BlockPos { x: local_axis(position.x), y: position.y, z: local_axis(position.z) };
        match find_chunk(&self.chunks, cx, cz) {
            Some(i) => {
                let ghost before = self.chunks@;
                let mut chunk = self.chunks.remove(i);
                chunk.remove_block(&rel);
                self.chunks.insert(i, chunk);
                proof {
                    assert forall|j: int| 0 <= j < before.len() && j != i implies self.chunks@[j] == before[j] by {}
                    assert(self.chunks@[i as int].x == before[i as int].x);
                    assert(self.chunks@[i as int].cols() == remove_spec(
                        before[i as int].cols(),
                        local_axis_spec(position.x as int),
                        position.y as int,
                        local_axis_spec(position.z as int),
                    ));
                    assert forall|a: int, b: int|
                        0 <= a < self.chunks@.len() && 0 <= b < self.chunks@.len() && a != b implies !(
                        self.chunks@[a].x == self.chunks@[b].x && #[trigger] self.chunks@[a].y
                            == #[trigger] self.chunks@[b].y) by {
                        assert(self.chunks@[a].x == before[a].x && self.chunks@[a].y == before[a].y);
                        assert(self.chunks@[b].x == before[b].x && self.chunks@[b].y == before[b].y);
                    }
                    assert forall|a: int| 0 <= a < self.chunks@.len() implies (#[trigger] self.chunks@[a]).wf() by {
                        if a != i {
                            assert(self.chunks@[a] == before[a]);
                        }
                    }
                }
                true
            },
            None => false,
        }
    }

    /// Meshes the loaded chunk at index `index` against all loaded chunks.
    pub fn build_chunk_mesh(&self, index: usize, noise_data: &NoiseField) -> (r: Mesh)
        requires
            self.wf(),
            noise_data.wf(),
            index < self.chunks@.len(),
        ensures
            r.is_mesh_of(&self.chunks@[index as int], self.chunks@, noise_data),
    {
        self.chunks[index].build_mesh(&self.chunks, noise_data)
    }
}

impl World {
    /// Hands the blocks that chunks queued for other chunks to those chunks where they are
    /// loaded. Blocks whose chunk is not loaded, or that do not fit in a chunk, stay queued.
    pub fn deliver_outside_blocks(&mut self)
        requires
            old(self).wf(),
        ensures
            final(self).wf(),
            same_coords(old(self).chunks@, final(self).chunks@),
            keeps_blocks(old(self).chunks@, final(self).chunks@),
            forall|i: int, k: int|
                0 <= i < old(self).chunks@.len() && 0 <= k < old(self).chunks@[i].outside_blocks@.len()
                    && deliverable(old(self).chunks@, #[trigger] old(self).chunks@[i].outside_blocks@[k])
                    ==> delivered(final(self).chunks@, old(self).chunks@[i].outside_blocks@[k]),
            forall|i: int, k: int|
                0 <= i < final(self).chunks@.len() && 0 <= k < final(self).chunks@[i].outside_blocks@.len()
                    ==> !deliverable(final(self).chunks@, #[trigger] final(self).chunks@[i].outside_blocks@[k]),
    {
        let ghost start = self.chunks@;
        proof {
            lemma_same_coords_loaded(start, start);
        }
        let n = self.chunks.len();
        let mut i: usize = 0;
        while i < n
            invariant
                n == start.len(),
                i <= n,
                self.wf(),
                same_coords(start, self.chunks@),
                keeps_blocks(start, self.chunks@),
                forall|a: int| i <= a < n ==> (#[trigger] self.chunks@[a]).outside_blocks == start[a].outside_blocks,
                forall|a: int, k: int|
                    0 <= a < i && 0 <= k < start[a].outside_blocks@.len() && deliverable(start, #[trigger] start[a].outside_blocks@[k])
                        ==> delivered(self.chunks@, start[a].outside_blocks@[k]),
                forall|a: int, k: int|
                    0 <= a < i && 0 <= k < self.chunks@[a].outside_blocks@.len()
                        ==> !deliverable(self.chunks@, #[trigger] self.chunks@[a].outside_blocks@[k]),
            decreases n - i,
        {
            let ghost pre = self.chunks@;
            let mut queue: Vec<Block> = Vec::new();
            std::mem::swap(&mut queue, &mut self.chunks[i].outside_blocks);
            assert(queue@ == start[i as int].outside_blocks@);
            let ghost mid = self.chunks@;
            proof {
                assert(same_coords(start, mid));
                assert forall|a: int, px: int, py: int, pz: int|
                    0 <= a < start.len() && (#[trigger] slot_in(start[a].cols(), px, py, pz)) is Some implies slot_in(
                    mid[a].cols(), px, py, pz) is Some by {
                    if a != i {
                        assert(mid[a] == pre[a]);
                    }
                }
                assert forall|a: int| 0 <= a < pre.len() && a != i implies mid[a] == pre[a] by {}
                assert(mid[i as int].cols() == pre[i as int].cols());
                assert(same_coords(pre, mid));
                assert(keeps_blocks(pre, mid));
                lemma_same_coords_loaded(start, mid);
                assert forall|a: int, k: int|
                    0 <= a < i && 0 <= k < start[a].outside_blocks@.len() && deliverable(start, #[trigger] start[a].outside_blocks@[k])
                    implies delivered(mid, start[a].outside_blocks@[k]) by {
                    lemma_delivered_kept(pre, mid, start[a].outside_blocks@[k]);
                }
            }
            let mut k: usize = 0;
            while k < queue.len()
                invariant
                    n == start.len(),
                    i < n,
                    k <= queue@.len(),
                    queue@ == start[i as int].outside_blocks@,
                    self.wf(),
                    same_coords(start, self.chunks@),
                    keeps_blocks(start, self.chunks@),
                    forall|a: int| i < a < n ==> (#[trigger] self.chunks@[a]).outside_blocks == start[a].outside_blocks,
                    forall|a: int, k2: int|
                        0 <= a < i && 0 <= k2 < start[a].outside_blocks@.len() && deliverable(start, #[trigger] start[a].outside_blocks@[k2])
                            ==> delivered(self.chunks@, start[a].outside_blocks@[k2]),
                    forall|k2: int|
                        0 <= k2 < k && deliverable(start, #[trigger] queue@[k2]) ==> delivered(self.chunks@, queue@[k2]),
                    forall|a: int, k2: int|
                        0 <= a <= i && 0 <= k2 < self.chunks@[a].outside_blocks@.len()
                            ==> !deliverable(self.chunks@, #[trigger] self.chunks@[a].outside_blocks@[k2]),
                decreases queue@.len() - k,
            {
                let b = queue[k];
                let ghost before = self.chunks@;
                proof {
                    lemma_same_coords_loaded(start, before);
                }
                let fits = b.position.x >= 0 && b.position.x < 16 && b.position.z >= 0 && b.position.z < 16
                    && b.position.y >= 0 && b.position.y < MAX_HEIGHT as i64;
                let owner = if fits {
                    find_chunk(&self.chunks, b.chunk.x as i64, b.chunk.y as i64)
                } else {
                    None
                };
                match owner {
                    Some(j) => {
                        let mut chunk = self.chunks.remove(j);
                        chunk.add_block(b);
                        self.chunks.insert(j, chunk);
                        proof {
                            assert forall|a: int| 0 <= a < before.len() && a != j implies self.chunks@[a] == before[a] by {}
                            assert(same_coords(before, self.chunks@));
                            assert(same_coords(start, self.chunks@));
                            assert forall|a: int, px: int, py: int, pz: int|
                                0 <= a < before.len() && (#[trigger] slot_in(before[a].cols(), px, py, pz)) is Some implies slot_in(
                                self.chunks@[a].cols(), px, py, pz) is Some by {
                                if a == j {
                                    lemma_add_keeps_blocks(before[a].cols(), b.position.x as int, b.position.y as int,
                                        b.position.z as int, b.block_type, px, py, pz);
                                }
                            }
                            assert(keeps_blocks(start, self.chunks@));
                            lemma_same_coords_loaded(before, self.chunks@);
                            assert forall|a: int| 0 <= a < self.chunks@.len() implies (#[trigger] self.chunks@[a]).wf() by {
                                if a != j {
                                    assert(self.chunks@[a] == before[a]);
                                }
                            }
                            assert(slot_in(self.chunks@[j as int].cols(), b.position.x as int, b.position.y as int, b.position.z as int) is Some);
                            assert(delivered(self.chunks@, b));
                            assert forall|a: int, k2: int|
                                0 <= a < i && 0 <= k2 < start[a].outside_blocks@.len() && deliverable(start, #[trigger] start[a].outside_blocks@[k2])
                                implies delivered(self.chunks@, start[a].outside_blocks@[k2]) by {
                                lemma_delivered_kept(before, self.chunks@, start[a].outside_blocks@[k2]);
                            }
                            assert forall|k2: int| 0 <= k2 < k + 1 && deliverable(start, #[trigger] queue@[k2])
                                implies delivered(self.chunks@, queue@[k2]) by {
                                if k2 < k {
                                    lemma_delivered_kept(before, self.chunks@, queue@[k2]);
                                }
                            }
                            assert forall|a: int, k2: int|
                                0 <= a <= i && 0 <= k2 < self.chunks@[a].outside_blocks@.len()
                                implies !deliverable(self.chunks@, #[trigger] self.chunks@[a].outside_blocks@[k2]) by {
                                assert(self.chunks@[a].outside_blocks == before[a].outside_blocks);
                            }
                        }
                    },
                    None => {
                        let ghost before_out = self.chunks@[i as int].outside_blocks@;
                        self.chunks[i].outside_blocks.push(b);
                        proof {
                            assert forall|a: int| 0 <= a < before.len() && a != i implies self.chunks@[a] == before[a] by {}
                            assert(self.chunks@[i as int].cols() == before[i as int].cols());
                            assert(same_coords(before, self.chunks@));
                            assert(same_coords(start, self.chunks@));
                            assert(keeps_blocks(start, self.chunks@));
                            lemma_same_coords_loaded(before, self.chunks@);
                            assert forall|a: int| 0 <= a < self.chunks@.len() implies (#[trigger] self.chunks@[a]).wf() by {
                                if a != i {
                                    assert(self.chunks@[a] == before[a]);
                                }
                            }
                            assert(!deliverable(start, b));
                            assert forall|a: int, k2: int|
                                0 <= a < i && 0 <= k2 < start[a].outside_blocks@.len() && deliverable(start, #[trigger] start[a].outside_blocks@[k2])
                                implies delivered(self.chunks@, start[a].outside_blocks@[k2]) by {
                                lemma_delivered_kept(before, self.chunks@, start[a].outside_blocks@[k2]);
                            }
                            assert forall|k2: int| 0 <= k2 < k + 1 && deliverable(start, #[trigger] queue@[k2])
                                implies delivered(self.chunks@, queue@[k2]) by {
                                if k2 < k {
                                    lemma_delivered_kept(before, self.chunks@, queue@[k2]);
                                }
                            }
                            assert forall|a: int, k2: int|
                                0 <= a <= i && 0 <= k2 < self.chunks@[a].outside_blocks@.len()
                                implies !deliverable(self.chunks@, #[trigger] self.chunks@[a].outside_blocks@[k2]) by {
                                if a == i && k2 == before_out.len() {
                                    assert(self.chunks@[a].outside_blocks@[k2] == b);
                                } else if a == i {
                                    assert(self.chunks@[a].outside_blocks@[k2] == before_out[k2]);
                                } else {
                                    assert(self.chunks@[a].outside_blocks == before[a].outside_blocks);
                                }
                            }
                        }
                    },
                }
                k += 1;
            }
            proof {
                assert forall|a: int, k2: int|
                    0 <= a < i + 1 && 0 <= k2 < start[a].outside_blocks@.len() && deliverable(start, #[trigger] start[a].outside_blocks@[k2])
                    implies delivered(self.chunks@, start[a].outside_blocks@[k2]) by {
                    if a == i {
                        assert(start[a].outside_blocks@[k2] == queue@[k2]);
                    }
                }
            }
            i += 1;
        }
        proof {
            lemma_same_coords_loaded(start, self.chunks@);
            assert forall|a: int, k: int|
                0 <= a < start.len() && 0 <= k < start[a].outside_blocks@.len() && deliverable(start, #[trigger] start[a].outside_blocks@[k])
                implies delivered(self.chunks@, start[a].outside_blocks@[k]) by {}
        }
    }
}

} // verus!
