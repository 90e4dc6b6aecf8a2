use vstd::prelude::*;
use crate::block::{terrain_type_spec, Block, BlockPos, BlockType, ChunkCoord, CHUNK_AREA, CHUNK_SIZE};
use crate::noise::{NoiseField, MAX_HEIGHT};

verus! {

/// Index of column `(x, z)` in a chunk's column array.
pub open spec fn column_of(x: int, z: int) -> int {
    x * 16 + z
}

/// Whether `(x, z)` lies in a chunk's footprint.
pub open spec fn in_footprint(x: int, z: int) -> bool {
    0 <= x < 16 && 0 <= z < 16
}

/// A chunk's columns are well formed: one per footprint cell, each shorter than `MAX_HEIGHT`.
pub open spec fn cols_wf(cols: Seq<Seq<Option<BlockType>>>) -> bool {
    &&& cols.len() == CHUNK_AREA
    &&& forall|c: int| 0 <= c < cols.len() ==> #[trigger] cols[c].len() <= MAX_HEIGHT
}

/// What the slot at relative position `(x, y, z)` holds; `None` outside the footprint,
/// below the floor or above the column.
pub open spec fn slot_in(cols: Seq<Seq<Option<BlockType>>>, x: int, y: int, z: int) -> Option<
    BlockType,
> {
    if in_footprint(x, z) && 0 <= y < cols[column_of(x, z)].len() {
        cols[column_of(x, z)][y]
    } else {
        None
    }
}

/// Sets slot `y` of a column to `v`, first growing the column with empty slots if it is
/// too short.
pub open spec fn set_grow_spec(col: Seq<Option<BlockType>>, y: int, v: Option<BlockType>) -> Seq<
    Option<BlockType>,
> {
    if y < col.len() {
        col.update(y, v)
    } else {
        col + Seq::new((y - col.len()) as nat, |i: int| None::<BlockType>) + seq![v]
    }
}

/// The columns after a block of type `t` is put at `(x, y, z)`.
pub open spec fn add_spec(
    cols: Seq<Seq<Option<BlockType>>>,
    x: int,
    y: int,
    z: int,
    t: BlockType,
) -> Seq<Seq<Option<BlockType>>> {
    cols.update(column_of(x, z), set_grow_spec(cols[column_of(x, z)], y, Some(t)))
}

/// The columns after the slot at `(x, y, z)` is emptied; a slot above the column is
/// already empty.
pub open spec fn remove_spec(cols: Seq<Seq<Option<BlockType>>>, x: int, y: int, z: int) -> Seq<
    Seq<Option<BlockType>>,
> {
    if 0 <= y < cols[column_of(x, z)].len() {
        cols.update(column_of(x, z), cols[column_of(x, z)].update(y, None))
    } else {
        cols
    }
}

/// Surface height of column `(x, z)` of chunk `(cx, cz)`.
pub open spec fn height_spec(noise: &NoiseField, cx: int, cz: int, x: int, z: int) -> int {
    noise.height_at(cx * 16 + x, cz * 16 + z)
}

/// A freshly generated column with surface `top`: filled from 0 up to `top` inclusive.
pub open spec fn terrain_column(top: int) -> Seq<Option<BlockType>> {
    Seq::new((top + 1) as nat, |y: int| Some(terrain_type_spec(y, top)))
}

/// The columns of chunk `(cx, cz)` as terrain generation makes them.
pub open spec fn generated_terrain(noise: &NoiseField, cx: int, cz: int) -> Seq<
    Seq<Option<BlockType>>,
> {
    Seq::new(
        CHUNK_AREA as nat,
        |c: int| terrain_column(height_spec(noise, cx, cz, c / 16, c % 16)),
    )
}

/// A chunk: a 16 by 16 footprint of columns, each a sequence of slots indexed by height.
/// An empty slot is empty space. `outside_blocks` holds structure blocks that belong to
/// other chunks and wait to be handed to them.
pub struct Chunk {
    pub x: i32,
    pub y: i32,
    pub blocks: Vec<Vec<Option<BlockType>>>,
    pub outside_blocks: Vec<Block>,
}

/// Sets slot `y` of `col` to `v`, growing the column with empty slots as needed.
fn set_grow(col: &mut Vec<Option<BlockType>>, y: usize, v: Option<BlockType>)
    requires
        y < MAX_HEIGHT,
    ensures
        final(col)@ == set_grow_spec(old(col)@, y as int, v),
{
    let ghost start = col@;
    while col.len() <= y
        invariant
            y < MAX_HEIGHT,
            start.len() <= col@.len(),
            start.len() <= y ==> col@.len() <= y + 1,
            start.len() > y ==> col@ == start,
            col@ == start + Seq::new((col@.len() - start.len()) as nat, |i: int| None::<BlockType>),
        decreases y + 1 - col@.len(),
    {
        col.push(None);
    }
    col[y] = v;
    proof {
        if y >= start.len() {
            assert(final(col)@ =~= set_grow_spec(start, y as int, v));
        } else {
            assert(final(col)@ =~= set_grow_spec(start, y as int, v));
        }
    }
}

impl Chunk {
    /// The columns as sequences of slots.
    pub open spec fn cols(&self) -> Seq<Seq<Option<BlockType>>> {
        self.blocks@.map_values(|c: Vec<Option<BlockType>>| c@)
    }

    pub open spec fn wf(&self) -> bool {
        cols_wf(self.cols())
    }

    pub open spec fn coord(&self) -> ChunkCoord {
        ChunkCoord { x: self.x, y: self.y }
    }

    /// What the slot at relative position `p` holds.
    pub open spec fn slot(&self, p: BlockPos) -> Option<BlockType> {
        slot_in(self.cols(), p.x as int, p.y as int, p.z as int)
    }

    /// Whether a block is present at relative position `position`; `false` outside the
    /// footprint, below the floor or above the column.
    pub fn exists_block_at(&self, position: &BlockPos) -> (r: bool)
        requires
            self.wf(),
        ensures
            r == self.slot(*position) is Some,
    {
        if position.x < 0 || position.x >= 16 || position.z < 0 || position.z >= 16
            || position.y < 0 {
            return false;
        }
        let c = (position.x * 16 + position.z) as usize;
        let col = &self.blocks[c];
        assert(col@ == self.cols()[c as int]);
        if position.y as u64 >= col.len() as u64 {
            false
        } else {
            col[position.y as usize].is_some()
        }
    }

    /// The block at relative position `position`, or `None` where the slot is empty or
    /// out of range.
    pub fn get_block_at_relative(&self, position: &BlockPos) -> (r: Option<Block>)
        requires
            self.wf(),
        ensures
            r == (match self.slot(*position) {
                Some(t) => Some(Block { position: *position, chunk: self.coord(), block_type: t }),
                None => None,
            }),
    {
        if position.x < 0 || position.x >= 16 || position.z < 0 || position.z >= 16
            || position.y < 0 {
            return None;
        }
        let c = (position.x * 16 + position.z) as usize;
        let col = &self.blocks[c];
        assert(col@ == self.cols()[c as int]);
        if position.y as u64 >= col.len() as u64 {
            None
        } else {
            match col[position.y as usize] {
                Some(t) => Some(
                    Block { position: *position, chunk: ChunkCoord { x: self.x, y: self.y }, block_type: t },
                ),
                None => None,
            }
        }
    }

    /// Puts `block` into its slot, growing the column with empty slots if needed. The
    /// block's relative position must lie in the footprint.
    pub fn add_block(&mut self, block: Block)
        requires
            old(self).wf(),
            in_footprint(block.position.x as int, block.position.z as int),
            0 <= block.position.y < MAX_HEIGHT,
        ensures
            final(self).wf(),
            final(self).x == old(self).x,
            final(self).y == old(self).y,
            final(self).outside_blocks == old(self).outside_blocks,
            final(self).cols() == add_spec(
                old(self).cols(),
                block.position.x as int,
                block.position.y as int,
                block.position.z as int,
                block.block_type,
            ),
    {
        let c = (block.position.x * 16 + block.position.z) as usize;
        let y = block.position.y as usize;
        let ghost before = self.cols();
        assert(self.blocks@[c as int]@ == before[c as int]);
        set_grow(&mut self.blocks[c], y, Some(block.block_type));
        proof {
            let after = add_spec(
                before,
                block.position.x as int,
                block.position.y as int,
                block.position.z as int,
                block.block_type,
            );
            assert(self.cols() =~= after);
            assert forall|i: int| 0 <= i < self.cols().len() implies #[trigger] self.cols()[i].len()
                <= MAX_HEIGHT by {
                if i != c {
                    assert(self.cols()[i] == before[i]);
                }
            }
        }
    }

    /// Empties the slot at relative position `position`; the column keeps its length. The
    /// position must lie in the footprint; a slot above the column is left as it is.
    pub fn remove_block(&mut self, position: &BlockPos)
        requires
            old(self).wf(),
            in_footprint(position.x as int, position.z as int),
        ensures
            final(self).wf(),
            final(self).x == old(self).x,
            final(self).y == old(self).y,
            final(self).outside_blocks == old(self).outside_blocks,
            final(self).cols() == remove_spec(
                old(self).cols(),
                position.x as int,
                position.y as int,
                position.z as int,
            ),
    {
        let c = (position.x * 16 + position.z) as usize;
        let ghost before = self.cols();
        assert(self.blocks@[c as int]@ == before[c as int]);
        if position.y >= 0 && (position.y as u64) < (self.blocks[c].len() as u64) {
            self.blocks[c][position.y as usize] = None;
            proof {
                assert(self.cols() =~= remove_spec(
                    before,
                    position.x as int,
                    position.y as int,
                    position.z as int,
                ));
                assert forall|i: int| 0 <= i < self.cols().len() implies #[trigger] self.cols()[i].len()
                    <= MAX_HEIGHT by {
                    if i != c {
                        assert(self.cols()[i] == before[i]);
                    }
                }
            }
        }
    }

    /// Whether `(x, z)` of `position` lies outside the chunk's footprint.
    pub fn is_outside_chunk(position: &BlockPos) -> (r: bool)
        ensures
            r == !in_footprint(position.x as int, position.z as int),
    {
        position.x < 0 || position.x >= CHUNK_SIZE as i64 || position.z < 0 || position.z
            >= CHUNK_SIZE as i64
    }

    /// Whether `position` lies below the world's floor.
    pub fn is_outside_bounds(position: &BlockPos) -> (r: bool)
        ensures
            r == (position.y < 0),
    {
        position.y < 0
    }

    /// Surface height of column `(x, z)` of chunk `(chunk_x, chunk_y)`, read from the noise
    /// tile with wraparound. Needs no chunk, so it also stands for chunks not yet loaded.
    pub fn get_height_value(chunk_x: i32, chunk_y: i32, x: u32, z: u32, noise_data: &NoiseField) -> (r: u32)
        requires
            noise_data.wf(),
        ensures
            r as int == height_spec(noise_data, chunk_x as int, chunk_y as int, x as int, z as int),
            r < MAX_HEIGHT,
    {
        let wx: i64 = chunk_x as i64 * 16 + x as i64;
        let wz: i64 = chunk_y as i64 * 16 + z as i64;
        noise_data.height_at_world(wx, wz)
    }

    /// The columns of chunk `(chunk_x, chunk_y)` as terrain generation makes them: each
    /// column dense from 0 up to its surface height, with stone below `STONE_LEVEL`, dirt
    /// above, and grass on a dirt surface.
    pub fn create_blocks_data(chunk_x: i32, chunk_y: i32, noise_data: &NoiseField) -> (r: Vec<
        Vec<Option<BlockType>>,
    >)
        requires
            noise_data.wf(),
        ensures
            r@.map_values(|c: Vec<Option<BlockType>>| c@) == generated_terrain(
                noise_data,
                chunk_x as int,
                chunk_y as int,
            ),
            cols_wf(generated_terrain(noise_data, chunk_x as int, chunk_y as int)),
    {
        let ghost want = generated_terrain(noise_data, chunk_x as int, chunk_y as int);
        let mut blocks: Vec<Vec<Option<BlockType>>> = Vec::new();
        let mut x: u32 = 0;
        while x < CHUNK_SIZE
            invariant
                noise_data.wf(),
                x <= 16,
                want == generated_terrain(noise_data, chunk_x as int, chunk_y as int),
                blocks@.len() == x * 16,
                forall|c: int| 0 <= c < blocks@.len() ==> #[trigger] blocks@[c]@ == want[c],
                forall|c: int| 0 <= c < blocks@.len() ==> (#[trigger] want[c]).len() <= MAX_HEIGHT,
            decreases 16 - x,
        {
            let mut z: u32 = 0;
            while z < CHUNK_SIZE
                invariant
                    noise_data.wf(),
                    x < 16,
                    z <= 16,
                    want == generated_terrain(noise_data, chunk_x as int, chunk_y as int),
                    blocks@.len() == x * 16 + z,
                    forall|c: int| 0 <= c < blocks@.len() ==> #[trigger] blocks@[c]@ == want[c],
                    forall|c: int| 0 <= c < blocks@.len() ==> (#[trigger] want[c]).len() <= MAX_HEIGHT,
                decreases 16 - z,
            {
                let top = Chunk::get_height_value(chunk_x, chunk_y, x, z, noise_data);
                let mut col: Vec<Option<BlockType>> = Vec::new();
                let mut y: u32 = 0;
                while y <= top
                    invariant
                        top < MAX_HEIGHT,
                        y <= top + 1,
                        col@.len() == y,
                        forall|i: int| 0 <= i < y ==> #[trigger] col@[i] == Some(
                            terrain_type_spec(i, top as int),
                        ),
                    decreases top + 1 - y,
                {
                    let baseline = BlockType::from_y_position(y);
                    let block_type = match baseline {
                        BlockType::Dirt => {
                            if y == top {
                                BlockType::grass()
                            } else {
                                baseline
                            }
                        },
                        b => b,
                    };
                    col.push(Some(block_type));
                    y += 1;
                }
                proof {
                    let c: int = x * 16 + z;
                    assert(0 <= c < 256);
                    assert(c / 16 == x as int && c % 16 == z as int);
                    assert(height_spec(noise_data, chunk_x as int, chunk_y as int, c / 16, c % 16)
                        == top as int);
                    assert(want[c] == terrain_column(
                        height_spec(noise_data, chunk_x as int, chunk_y as int, c / 16, c % 16),
                    ));
                    assert(col@ =~= want[c]);
                }
                blocks.push(col);
                z += 1;
            }
            x += 1;
        }
        assert(blocks@.map_values(|c: Vec<Option<BlockType>>| c@) =~= want);
        blocks
    }
}

/// A freshly generated chunk is dense: every column is filled from the floor up to its
/// surface height inclusive, and holds nothing above it.
pub proof fn lemma_generated_dense(noise: &NoiseField, cx: int, cz: int, x: int, y: int, z: int)
    requires
        noise.wf(),
        in_footprint(x, z),
        0 <= y,
    ensures
        generated_terrain(noise, cx, cz)[column_of(x, z)].len() == height_spec(noise, cx, cz, x, z)
            + 1,
        slot_in(generated_terrain(noise, cx, cz), x, y, z) is Some <==> y <= height_spec(
            noise,
            cx,
            cz,
            x,
            z,
        ),
{
    let c = column_of(x, z);
    assert(c / 16 == x && c % 16 == z);
}

/// After a block is added, a block is present at its position.
pub proof fn lemma_add_then_exists(cols: Seq<Seq<Option<BlockType>>>, x: int, y: int, z: int, t: BlockType)
    requires
        cols_wf(cols),
        in_footprint(x, z),
        0 <= y < MAX_HEIGHT,
    ensures
        slot_in(add_spec(cols, x, y, z, t), x, y, z) == Some(t),
        cols_wf(add_spec(cols, x, y, z, t)),
{
    let c = column_of(x, z);
    let after = add_spec(cols, x, y, z, t);
    assert(after[c][y] == Some(t));
    assert forall|i: int| 0 <= i < after.len() implies #[trigger] after[i].len() <= MAX_HEIGHT by {
        if i != c {
            assert(after[i] == cols[i]);
        }
    }
}

/// After a block is removed, no block is present at its position, and its column keeps
/// its length.
pub proof fn lemma_remove_then_absent(cols: Seq<Seq<Option<BlockType>>>, x: int, y: int, z: int)
    requires
        cols_wf(cols),
        in_footprint(x, z),
    ensures
        slot_in(remove_spec(cols, x, y, z), x, y, z) is None,
        remove_spec(cols, x, y, z)[column_of(x, z)].len() == cols[column_of(x, z)].len(),
        remove_spec(cols, x, y, z).len() == cols.len(),
{
}

/// Adding a block empties no slot.
pub proof fn lemma_add_keeps_blocks(
    cols: Seq<Seq<Option<BlockType>>>,
    x: int,
    y: int,
    z: int,
    t: BlockType,
    px: int,
    py: int,
    pz: int,
)
    requires
        cols_wf(cols),
        in_footprint(x, z),
        0 <= y < MAX_HEIGHT,
        slot_in(cols, px, py, pz) is Some,
    ensures
        slot_in(add_spec(cols, x, y, z, t), px, py, pz) is Some,
{
    let c = column_of(x, z);
    let pc = column_of(px, pz);
    if pc == c {
        let col = cols[c];
        if y >= col.len() {
            assert(set_grow_spec(col, y, Some(t))[py] == col[py]);
        }
    }
}

/// The terrain height depends on the chunk coordinate, the local column and the noise
/// tile alone: two calls with the same arguments give the same height.
pub proof fn lemma_height_deterministic(noise: &NoiseField, cx: i32, cz: i32, x: u32, z: u32, h1: u32, h2: u32)
    requires
        h1 as int == height_spec(noise, cx as int, cz as int, x as int, z as int),
        h2 as int == height_spec(noise, cx as int, cz as int, x as int, z as int),
    ensures
        h1 == h2,
{
}

} // verus!
