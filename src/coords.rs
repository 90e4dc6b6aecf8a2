use vstd::prelude::*;
use crate::block::{BlockPos, ChunkCoord};

verus! {

/// Chunk index along one axis of a world coordinate (floor division by the chunk size).
pub open spec fn chunk_axis_spec(a: int) -> int {
    a / 16
}

/// Chunk-relative coordinate along one axis (non-negative remainder by the chunk size).
pub open spec fn local_axis_spec(a: int) -> int {
    a % 16
}

/// Whether a world coordinate lies in a chunk whose index fits in `i32`.
pub open spec fn axis_in_range(a: int) -> bool {
    i32::MIN as int * 16 <= a < (i32::MAX as int + 1) * 16
}

/// Floor division of a world coordinate by the chunk size.
pub fn chunk_axis(a: i64) -> (r: i64)
    ensures
        r as int == chunk_axis_spec(a as int),
        r as int * 16 <= a < r as int * 16 + 16,
{
    if a >= 0 {
        a / 16
    } else {
        let b: i64 = -(a + 1);
        let q: i64 = b / 16;
        assert((-q - 1) * 16 <= a < (-q - 1) * 16 + 16) by (nonlinear_arith)
            requires
                a < 0,
                b == -(a + 1),
                q == b / 16,
        ;
        -q - 1
    }
}

/// Non-negative remainder of a world coordinate by the chunk size.
pub fn local_axis(a: i64) -> (r: i64)
    ensures
        r as int == local_axis_spec(a as int),
        0 <= r < 16,
{
    let q = chunk_axis(a);
    a - q * 16
}

/// Coordinate of the chunk that holds a world position.
pub fn chunk_from_absolute(p: &BlockPos) -> (r: ChunkCoord)
    requires
        axis_in_range(p.x as int),
        axis_in_range(p.z as int),
    ensures
        r.x as int == chunk_axis_spec(p.x as int),
        r.y as int == chunk_axis_spec(p.z as int),
{
    let cx = chunk_axis(p.x);
    let cz = chunk_axis(p.z);
    ChunkCoord { x: cx as i32, y: cz as i32 }
}

/// Position of a world position relative to the chunk that holds it.
pub fn relative_from_absolute(p: &BlockPos) -> (r: BlockPos)
    ensures
        r.x as int == local_axis_spec(p.x as int),
        r.y == p.y,
        r.z as int == local_axis_spec(p.z as int),
{
    BlockPos { x: local_axis(p.x), y: p.y, z: local_axis(p.z) }
}

/// A world coordinate is its chunk's origin plus its chunk-relative coordinate.
pub proof fn lemma_absolute_decomposition(a: int)
    ensures
        chunk_axis_spec(a) * 16 + local_axis_spec(a) == a,
        0 <= local_axis_spec(a) < 16,
{
}

} // verus!
