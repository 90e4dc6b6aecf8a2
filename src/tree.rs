use vstd::prelude::*;
use crate::block::{Block, BlockPos, BlockType, ChunkCoord};
use crate::chunk::{add_spec, column_of, lemma_add_keeps_blocks, slot_in, Chunk};
use crate::noise::MAX_HEIGHT;
use crate::random::random_below;
use crate::coords::{
    axis_in_range, chunk_axis, chunk_axis_spec, local_axis, local_axis_spec,
};

verus! {

/// Number of trunk blocks of a tree.
pub const TRUNK_BLOCKS: usize = 3;

/// Number of blocks of a tree, trunk and leaves.
pub const TREE_BLOCKS: usize = 20;

/// Offsets from the planting base of a tree's blocks: first the three trunk blocks
/// straight up, then the seventeen leaves around and above the trunk's top.
pub open spec fn tree_offsets() -> Seq<(int, int, int)> {
    seq![
        (0int, 1int, 0int), (0, 2, 0), (0, 3, 0),
        (0, 3, 1), (0, 4, 1), (1, 3, 1), (1, 4, 1), (-1, 3, 1), (-1, 4, 1),
        (0, 3, -1), (0, 4, -1), (1, 3, -1), (1, 4, -1), (-1, 3, -1), (-1, 4, -1),
        (1, 3, 0), (1, 4, 0), (-1, 3, 0), (-1, 4, 0),
        (0, 5, 0),
    ]
}

/// The block for world position `(ax, ay, az)` and type `t`: the chunk that holds the
/// position and the position relative to it.
pub open spec fn block_at_absolute(ax: int, ay: int, az: int, t: BlockType) -> Block {
    Block {
        position: BlockPos {
            x: local_axis_spec(ax) as i64,
            y: ay as i64,
            z: local_axis_spec(az) as i64,
        },
        chunk: ChunkCoord { x: chunk_axis_spec(ax) as i32, y: chunk_axis_spec(az) as i32 },
        block_type: t,
    }
}

/// Block `i` of a tree planted on world position `base`.
pub open spec fn tree_block(base: BlockPos, i: int) -> Block {
    let o = tree_offsets()[i];
    block_at_absolute(
        base.x + o.0,
        base.y + o.1,
        base.z + o.2,
        if i < TRUNK_BLOCKS { BlockType::Wood } else { BlockType::Leaf },
    )
}

/// The blocks of a tree planted on world position `base`.
pub open spec fn tree_blocks(base: BlockPos) -> Seq<Block> {
    Seq::new(TREE_BLOCKS as nat, |i: int| tree_block(base, i))
}

/// Whether a tree can be planted on world position `base` with every block's chunk
/// coordinate and height in range.
pub open spec fn tree_fits(base: BlockPos) -> bool {
    &&& axis_in_range(base.x - 1)
    &&& axis_in_range(base.x + 1)
    &&& axis_in_range(base.z - 1)
    &&& axis_in_range(base.z + 1)
    &&& 0 <= base.y
    &&& base.y + 5 <= i64::MAX
}

/// A tree: a trunk of wood with a crown of leaves.
pub struct Tree;

impl Tree {
    /// The blocks of a tree planted on world position `position` (the top block of a
    /// column): three wood blocks going up, then seventeen leaves, each with the chunk
    /// that holds it and its position relative to that chunk.
    pub fn get_blocks(position: BlockPos) -> (r: Vec<Block>)
        requires
            tree_fits(position),
        ensures
            r@ == tree_blocks(position),
    {
        let offsets: Vec<(i64, i64, i64)> = vec![
            (0, 1, 0), (0, 2, 0), (0, 3, 0),
            (0, 3, 1), (0, 4, 1), (1, 3, 1), (1, 4, 1), (-1, 3, 1), (-1, 4, 1),
            (0, 3, -1), (0, 4, -1), (1, 3, -1), (1, 4, -1), (-1, 3, -1), (-1, 4, -1),
            (1, 3, 0), (1, 4, 0), (-1, 3, 0), (-1, 4, 0),
            (0, 5, 0),
        ];
        assert(offsets@.len() == TREE_BLOCKS);
        assert(forall|j: int| 0 <= j < TREE_BLOCKS ==> {
            let o = #[trigger] offsets@[j];
            (o.0 as int, o.1 as int, o.2 as int) == tree_offsets()[j]
        });
        let mut blocks: Vec<Block> = Vec::new();
        let mut i: usize = 0;
        while i < offsets.len()
            invariant
                tree_fits(position),
                offsets@.len() == TREE_BLOCKS,
                forall|j: int| 0 <= j < TREE_BLOCKS ==> {
                    let o = #[trigger] offsets@[j];
                    (o.0 as int, o.1 as int, o.2 as int) == tree_offsets()[j]
                },
                i <= TREE_BLOCKS,
                blocks@ == tree_blocks(position).take(i as int),
            decreases TREE_BLOCKS - i,
        {
            let o = offsets[i];
            let p = BlockPos { x: position.x + o.0, y: position.y + o.1, z: position.z + o.2 };
            let block_type = if i < TRUNK_BLOCKS {
                BlockType::wood()
            } else {
                BlockType::leaf()
            };
            let c = chunk_axis(p.x);
            let cz = chunk_axis(p.z);
            proof {
                assert(axis_in_range(p.x as int));
                assert(axis_in_range(p.z as int));
            }
            blocks.push(
                Block {
                    position: BlockPos { x: local_axis(p.x), y: p.y, z: local_axis(p.z) },
                    chunk: ChunkCoord { x: c as i32, y: cz as i32 },
                    block_type,
                },
            );
            proof {
                assert(blocks@ =~= tree_blocks(position).take(i + 1));
            }
            i += 1;
        }
        assert(blocks@ =~= tree_blocks(position));
        blocks
    }
}

/// Most trees a chunk can get; the count is drawn from `0..MAX_TREES_PER_CHUNK`.
pub const MAX_TREES_PER_CHUNK: u32 = 4;

/// The columns after the blocks of `bs` that belong to chunk `coord` are added in order.
pub open spec fn route_cols(cols: Seq<Seq<Option<BlockType>>>, coord: ChunkCoord, bs: Seq<Block>) -> Seq<
    Seq<Option<BlockType>>,
>
    decreases bs.len(),
{
    if bs.len() == 0 {
        cols
    } else {
        let prev = route_cols(cols, coord, bs.drop_last());
        let b = bs.last();
        if b.chunk == coord {
            add_spec(prev, b.position.x as int, b.position.y as int, b.position.z as int, b.block_type)
        } else {
            prev
        }
    }
}

/// The blocks of `bs` that belong to chunks other than `coord`, in order.
pub open spec fn foreign_blocks(bs: Seq<Block>, coord: ChunkCoord) -> Seq<Block>
    decreases bs.len(),
{
    if bs.len() == 0 {
        seq![]
    } else if bs.last().chunk != coord {
        foreign_blocks(bs.drop_last(), coord).push(bs.last())
    } else {
        foreign_blocks(bs.drop_last(), coord)
    }
}

/// Height of the topmost present block of a column, if it has one.
pub open spec fn top_present(col: Seq<Option<BlockType>>) -> Option<int>
    decreases col.len(),
{
    if col.len() == 0 {
        None
    } else if col.last() is Some {
        Some(col.len() - 1)
    } else {
        top_present(col.drop_last())
    }
}

/// World position of the block at height `top` of column `(x, z)` of chunk `coord`.
pub open spec fn planting_base(coord: ChunkCoord, x: int, top: int, z: int) -> BlockPos {
    BlockPos { x: (coord.x * 16 + x) as i64, y: top as i64, z: (coord.y * 16 + z) as i64 }
}

/// Blocks that structure placement hands on are bound for other chunks.
pub proof fn lemma_foreign_blocks_elsewhere(bs: Seq<Block>, coord: ChunkCoord)
    ensures
        forall|i: int| 0 <= i < foreign_blocks(bs, coord).len() ==> (#[trigger] foreign_blocks(bs, coord)[i]).chunk != coord,
    decreases bs.len(),
{
    if bs.len() > 0 {
        lemma_foreign_blocks_elsewhere(bs.drop_last(), coord);
    }
}

/// Blocks that structure placement adds to the planting chunk are bound for it: a block
/// of another chunk leaves the columns as they are.
pub proof fn lemma_route_skips_foreign(cols: Seq<Seq<Option<BlockType>>>, coord: ChunkCoord, bs: Seq<Block>, b: Block)
    requires
        b.chunk != coord,
    ensures
        route_cols(cols, coord, bs.push(b)) == route_cols(cols, coord, bs),
{
    assert(bs.push(b).drop_last() =~= bs);
}

impl Chunk {
    /// `self` came from `old` by adding blocks and handing blocks on: no present block
    /// went away, and each block newly queued in `outside_blocks` belongs to another chunk.
    pub open spec fn grown_from(&self, old: &Chunk) -> bool {
        &&& self.wf()
        &&& self.x == old.x
        &&& self.y == old.y
        &&& forall|px: int, py: int, pz: int| #[trigger] slot_in(old.cols(), px, py, pz) is Some ==> slot_in(self.cols(), px, py, pz) is Some
        &&& old.outside_blocks@.len() <= self.outside_blocks@.len()
        &&& self.outside_blocks@.take(old.outside_blocks@.len() as int) == old.outside_blocks@
        &&& forall|i: int| old.outside_blocks@.len() <= i < self.outside_blocks@.len() ==> (#[trigger] self.outside_blocks@[i]).chunk != self.coord()
    }

    /// Height of the topmost present block of column `(x, z)`.
    pub fn top_block_height(&self, x: u32, z: u32) -> (r: Option<u32>)
        requires
            self.wf(),
            x < 16,
            z < 16,
        ensures
            r matches Some(t) ==> top_present(self.cols()[column_of(x as int, z as int)]) == Some(t as int)
                && t < MAX_HEIGHT,
            r is None ==> top_present(self.cols()[column_of(x as int, z as int)]) is None,
    {
        let c = (x * 16 + z) as usize;
        let col = &self.blocks[c];
        assert(col@ == self.cols()[c as int]);
        let mut n: usize = col.len();
        assert(col@.take(n as int) =~= col@);
        while n > 0
            invariant
                n <= col@.len(),
                col@.len() <= MAX_HEIGHT,
                c as int == column_of(x as int, z as int),
                c < 256,
                col@ == self.cols()[c as int],
                top_present(col@) == top_present(col@.take(n as int)),
            decreases n,
        {
            assert(col@.take(n as int).drop_last() =~= col@.take(n - 1));
            assert(col@.take(n as int).last() == col@[n - 1]);
            if col[n - 1].is_some() {
                return Some((n - 1) as u32);
            }
            n -= 1;
        }
        None
    }

    /// Plants a tree on the topmost block of column `(x, z)`: each tree block that falls
    /// in this chunk is added to it, each other one is queued in `outside_blocks` for the
    /// chunk that holds it. A column with no block, or too tall to hold the tree, gets none.
    pub fn place_tree(&mut self, x: u32, z: u32)
        requires
            old(self).wf(),
            x < 16,
            z < 16,
            i32::MIN < old(self).x < i32::MAX,
            i32::MIN < old(self).y < i32::MAX,
        ensures
            final(self).x == old(self).x,
            final(self).y == old(self).y,
            final(self).wf(),
            match top_present(old(self).cols()[column_of(x as int, z as int)]) {
                Some(top) if top + 5 < MAX_HEIGHT => {
                    let bs = tree_blocks(planting_base(old(self).coord(), x as int, top, z as int));
                    &&& final(self).cols() == route_cols(old(self).cols(), old(self).coord(), bs)
                    &&& final(self).outside_blocks@ == old(self).outside_blocks@ + foreign_blocks(bs, old(self).coord())
                },
                _ => final(self).cols() == old(self).cols() && final(self).outside_blocks@ == old(self).outside_blocks@,
            },
            final(self).grown_from(old(self)),
    {
        let ghost old_self_cols = self.cols();
        let ghost old_out = self.outside_blocks@;
        assert(old_out.take(old_out.len() as int) =~= old_out);
        let top = match self.top_block_height(x, z) {
            Some(t) => t,
            None => return,
        };
        if top + 5 >= MAX_HEIGHT {
            return;
        }
        let base = BlockPos {
            x: self.x as i64 * 16 + x as i64,
            y: top as i64,
            z: self.y as i64 * 16 + z as i64,
        };
        let ghost bs = tree_blocks(base);
        assert(base == planting_base(self.coord(), x as int, top as int, z as int));
        let blocks = Tree::get_blocks(base);
        let coord = ChunkCoord { x: self.x, y: self.y };
        let mut i: usize = 0;
        while i < blocks.len()
            invariant
                blocks@ == bs,
                bs == tree_blocks(base),
                base.y == top,
                top + 5 < MAX_HEIGHT,
                coord == self.coord(),
                self.x == coord.x,
                self.y == coord.y,
                i <= bs.len(),
                self.wf(),
                self.cols() == route_cols(old_self_cols, coord, bs.take(i as int)),
                self.outside_blocks@ == old_out + foreign_blocks(bs.take(i as int), coord),
                forall|px: int, py: int, pz: int| #[trigger] slot_in(old_self_cols, px, py, pz) is Some ==> slot_in(self.cols(), px, py, pz) is Some,
            decreases bs.len() - i,
        {
            let b = blocks[i];
            let ghost before = self.cols();
            assert(bs.take(i + 1).drop_last() =~= bs.take(i as int));
            assert(bs.take(i + 1).last() == b);
            if b.chunk == coord {
                assert(0 <= b.position.y <= top + 5);
                proof {
                    assert forall|px: int, py: int, pz: int| #[trigger] slot_in(old_self_cols, px, py, pz) is Some implies slot_in(
                        add_spec(before, b.position.x as int, b.position.y as int, b.position.z as int, b.block_type), px, py, pz) is Some by {
                        lemma_add_keeps_blocks(before, b.position.x as int, b.position.y as int, b.position.z as int, b.block_type, px, py, pz);
                    }
                }
                self.add_block(b);
            } else {
                self.outside_blocks.push(b);
            }
            i += 1;
        }
        assert(bs.take(bs.len() as int) =~= bs);
        proof {
            lemma_foreign_blocks_elsewhere(bs, coord);
            assert(self.outside_blocks@.take(old_out.len() as int) =~= old_out);
        }
    }

    /// Plants a random number of trees, below `MAX_TREES_PER_CHUNK`, each on the top of a
    /// randomly chosen column (see `place_tree`).
    pub fn place_trees(&mut self)
        requires
            old(self).wf(),
            i32::MIN < old(self).x < i32::MAX,
            i32::MIN < old(self).y < i32::MAX,
        ensures
            final(self).grown_from(old(self)),
    {
        let number_of_trees = random_below(MAX_TREES_PER_CHUNK);
        let ghost start_cols = self.cols();
        let ghost start_out = self.outside_blocks@;
        let mut n: u32 = 0;
        while n < number_of_trees
            invariant
                n <= number_of_trees,
                self.wf(),
                self.x == old(self).x,
                self.y == old(self).y,
                i32::MIN < self.x < i32::MAX,
                i32::MIN < self.y < i32::MAX,
                start_cols == old(self).cols(),
                start_out == old(self).outside_blocks@,
                forall|px: int, py: int, pz: int| #[trigger] slot_in(start_cols, px, py, pz) is Some ==> slot_in(self.cols(), px, py, pz) is Some,
                start_out.len() <= self.outside_blocks@.len(),
                self.outside_blocks@.take(start_out.len() as int) == start_out,
                forall|i: int| start_out.len() <= i < self.outside_blocks@.len() ==> (#[trigger] self.outside_blocks@[i]).chunk != self.coord(),
            decreases number_of_trees - n,
        {
            let x = random_below(16);
            let z = random_below(16);
            let ghost prev_out = self.outside_blocks@;
            self.place_tree(x, z);
            proof {
                assert(self.outside_blocks@.take(prev_out.len() as int) == prev_out);
                assert(self.outside_blocks@.take(start_out.len() as int) =~= prev_out.take(start_out.len() as int));
            }
            n += 1;
        }
    }
}

} // verus!
