use vstd::prelude::*;

verus! {

/// Side length of a chunk's square footprint, in blocks.
pub const CHUNK_SIZE: u32 = 16;

/// Number of columns in a chunk (`CHUNK_SIZE * CHUNK_SIZE`).
pub const CHUNK_AREA: usize = 256;

/// Material of a block.
#[derive(Clone, Copy, Debug, PartialEq, Eq, Structural)]
pub enum BlockType {
    Dirt,
    Grass,
    Wood,
    Leaf,
    Stone,
}

/// Heights strictly below this one are filled with stone by terrain generation.
pub const STONE_LEVEL: u32 = 3;

pub open spec fn type_id_spec(t: BlockType) -> u32 {
    match t {
        BlockType::Dirt => 0,
        BlockType::Grass => 1,
        BlockType::Wood => 2,
        BlockType::Leaf => 3,
        BlockType::Stone => 4,
    }
}

pub open spec fn type_from_id_spec(id: u32) -> Option<BlockType> {
    if id == 0 {
        Some(BlockType::Dirt)
    } else if id == 1 {
        Some(BlockType::Grass)
    } else if id == 2 {
        Some(BlockType::Wood)
    } else if id == 3 {
        Some(BlockType::Leaf)
    } else if id == 4 {
        Some(BlockType::Stone)
    } else {
        None
    }
}

/// Baseline material at height `y`: deep strata are stone, the rest dirt.
pub open spec fn type_for_depth_spec(y: int) -> BlockType {
    if y < STONE_LEVEL as int {
        BlockType::Stone
    } else {
        BlockType::Dirt
    }
}

/// Material of the cell at height `y` of a freshly generated column whose surface is `top`:
/// the baseline type, except that a dirt cell on the surface becomes grass.
pub open spec fn terrain_type_spec(y: int, top: int) -> BlockType {
    if y == top && type_for_depth_spec(y) == BlockType::Dirt {
        BlockType::Grass
    } else {
        type_for_depth_spec(y)
    }
}

impl BlockType {
    pub fn dirt() -> (r: BlockType)
        ensures
            r == BlockType::Dirt,
    {
        BlockType::Dirt
    }

    pub fn grass() -> (r: BlockType)
        ensures
            r == BlockType::Grass,
    {
        BlockType::Grass
    }

    pub fn wood() -> (r: BlockType)
        ensures
            r == BlockType::Wood,
    {
        BlockType::Wood
    }

    pub fn leaf() -> (r: BlockType)
        ensures
            r == BlockType::Leaf,
    {
        BlockType::Leaf
    }

    /// Stable numeric id, used by the save format.
    pub fn to_id(&self) -> (r: u32)
        ensures
            r == type_id_spec(*self),
    {
        match self {
            BlockType::Dirt => 0,
            BlockType::Grass => 1,
            BlockType::Wood => 2,
            BlockType::Leaf => 3,
            BlockType::Stone => 4,
        }
    }

    /// The type with the given id, or `None` for an unknown id.
    pub fn from_id(id: u32) -> (r: Option<BlockType>)
        ensures
            r == type_from_id_spec(id),
            r matches Some(t) ==> type_id_spec(t) == id,
    {
        if id == 0 {
            Some(BlockType::Dirt)
        } else if id == 1 {
            Some(BlockType::Grass)
        } else if id == 2 {
            Some(BlockType::Wood)
        } else if id == 3 {
            Some(BlockType::Leaf)
        } else if id == 4 {
            Some(BlockType::Stone)
        } else {
            None
        }
    }

    /// Baseline material at height `y`.
    pub fn from_y_position(y: u32) -> (r: BlockType)
        ensures
            r == type_for_depth_spec(y as int),
    {
        if y < STONE_LEVEL {
            BlockType::Stone
        } else {
            BlockType::Dirt
        }
    }

    /// Whether light passes through blocks of this type.
    pub fn is_translucent(&self) -> (r: bool)
        ensures
            r == (*self == BlockType::Leaf),
    {
        match self {
            BlockType::Leaf => true,
            _ => false,
        }
    }
}

pub proof fn lemma_type_id_round_trip(t: BlockType)
    ensures
        type_from_id_spec(type_id_spec(t)) == Some(t),
{
}

/// A position given by three integer coordinates: chunk-relative or world-absolute,
/// depending on where it is used.
#[derive(Clone, Copy, Debug, PartialEq, Eq, Structural)]
pub struct BlockPos {
    pub x: i64,
    pub y: i64,
    pub z: i64,
}

impl BlockPos {
    pub fn new(x: i64, y: i64, z: i64) -> (r: BlockPos)
        ensures
            r == (BlockPos { x, y, z }),
    {
        BlockPos { x, y, z }
    }
}

/// Position of a chunk on the horizontal grid: `x` along the world x axis,
/// `y` along the world z axis.
#[derive(Clone, Copy, Debug, PartialEq, Eq, Structural)]
pub struct ChunkCoord {
    pub x: i32,
    pub y: i32,
}

impl ChunkCoord {
    pub fn new(x: i32, y: i32) -> (r: ChunkCoord)
        ensures
            r == (ChunkCoord { x, y }),
    {
        ChunkCoord { x, y }
    }
}

/// A voxel: its position relative to its chunk, the chunk's coordinate and its type.
#[derive(Clone, Copy, Debug, PartialEq, Eq, Structural)]
pub struct Block {
    pub position: BlockPos,
    pub chunk: ChunkCoord,
    pub block_type: BlockType,
}

/// World position of a chunk-relative position in the given chunk.
pub open spec fn absolute_of(chunk: ChunkCoord, p: BlockPos) -> (int, int, int) {
    (chunk.x * CHUNK_SIZE as int + p.x, p.y as int, chunk.y * CHUNK_SIZE as int + p.z)
}

impl Block {
    pub fn new(position: BlockPos, chunk: ChunkCoord, block_type: BlockType) -> (r: Block)
        ensures
            r == (Block { position, chunk, block_type }),
    {
        Block { position, chunk, block_type }
    }

    pub open spec fn absolute_spec(&self) -> (int, int, int) {
        absolute_of(self.chunk, self.position)
    }

    /// World position of the block, recomputed from its chunk and relative position.
    pub fn absolute_position(&self) -> (r: BlockPos)
        requires
            -0x1_0000_0000 < self.position.x < 0x1_0000_0000,
            -0x1_0000_0000 < self.position.z < 0x1_0000_0000,
        ensures
            (r.x as int, r.y as int, r.z as int) == self.absolute_spec(),
    {
        let base_x: i64 = self.chunk.x as i64 * 16;
        let base_z: i64 = self.chunk.y as i64 * 16;
        BlockPos { x: base_x + self.position.x, y: self.position.y, z: base_z + self.position.z }
    }

    /// Whether light passes through the block.
    pub fn is_translucent(&self) -> (r: bool)
        ensures
            r == (self.block_type == BlockType::Leaf),
    {
        self.block_type.is_translucent()
    }
}

/// One of the six directions in which a block touches its neighbours.
#[derive(Clone, Copy, Debug, PartialEq, Eq, Structural)]
pub enum FaceDirection {
    Up,
    Down,
    Left,
    Right,
    Front,
    Back,
}

/// Unit normal of a face.
pub open spec fn normal_spec(f: FaceDirection) -> (int, int, int) {
    match f {
        FaceDirection::Up => (0, 1, 0),
        FaceDirection::Down => (0, -1, 0),
        FaceDirection::Left => (-1, 0, 0),
        FaceDirection::Right => (1, 0, 0),
        FaceDirection::Front => (0, 0, 1),
        FaceDirection::Back => (0, 0, -1),
    }
}

/// The faces in the order in which meshing visits them.
pub open spec fn face_at(i: int) -> FaceDirection {
    if i == 0 {
        FaceDirection::Up
    } else if i == 1 {
        FaceDirection::Down
    } else if i == 2 {
        FaceDirection::Left
    } else if i == 3 {
        FaceDirection::Right
    } else if i == 4 {
        FaceDirection::Front
    } else {
        FaceDirection::Back
    }
}

pub open spec fn face_index(f: FaceDirection) -> int {
    match f {
        FaceDirection::Up => 0,
        FaceDirection::Down => 1,
        FaceDirection::Left => 2,
        FaceDirection::Right => 3,
        FaceDirection::Front => 4,
        FaceDirection::Back => 5,
    }
}

impl FaceDirection {
    /// The six faces, in a fixed order.
    pub fn all() -> (r: Vec<FaceDirection>)
        ensures
            r@.len() == 6,
            forall|i: int| 0 <= i < 6 ==> r@[i] == face_at(i),
    {
        vec![
            FaceDirection::Up,
            FaceDirection::Down,
            FaceDirection::Left,
            FaceDirection::Right,
            FaceDirection::Front,
            FaceDirection::Back,
        ]
    }

    /// Index of the face in `all()`.
    pub fn index(&self) -> (r: u32)
        ensures
            r as int == face_index(*self),
            face_at(r as int) == *self,
    {
        match self {
            FaceDirection::Up => 0,
            FaceDirection::Down => 1,
            FaceDirection::Left => 2,
            FaceDirection::Right => 3,
            FaceDirection::Front => 4,
            FaceDirection::Back => 5,
        }
    }

    /// Unit vector pointing out of the face.
    pub fn get_normal_vector(&self) -> (r: BlockPos)
        ensures
            (r.x as int, r.y as int, r.z as int) == normal_spec(*self),
    {
        match self {
            FaceDirection::Up => BlockPos { x: 0, y: 1, z: 0 },
            FaceDirection::Down => BlockPos { x: 0, y: -1, z: 0 },
            FaceDirection::Left => BlockPos { x: -1, y: 0, z: 0 },
            FaceDirection::Right => BlockPos { x: 1, y: 0, z: 0 },
            FaceDirection::Front => BlockPos { x: 0, y: 0, z: 1 },
            FaceDirection::Back => BlockPos { x: 0, y: 0, z: -1 },
        }
    }
}

} // verus!
