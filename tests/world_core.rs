use voxel_world::block::{Block, BlockPos, BlockType, ChunkCoord, FaceDirection};
use voxel_world::chunk::Chunk;
use voxel_world::coords::{chunk_axis, chunk_from_absolute, local_axis, relative_from_absolute};
use voxel_world::mesh::VisibleFace;
use voxel_world::noise::NoiseField;
use voxel_world::persistence::{chunk_file_name, decode_blocks, encode_blocks, LoadError, SavedBlock};
use voxel_world::tree::Tree;
use voxel_world::world::World;

fn tile() -> NoiseField {
    let heights: Vec<u32> = (0..16u32).map(|i| (i * 5) % 11 + 1).collect();
    NoiseField::new(4, heights).unwrap()
}

fn flat_chunk(x: i32, y: i32, height: i64) -> Chunk {
    let mut chunk = Chunk::empty(x, y);
    for cx in 0..16i64 {
        for cz in 0..16i64 {
            for cy in 0..=height {
                chunk.add_block(Block::new(
                    BlockPos::new(cx, cy, cz),
                    ChunkCoord::new(x, y),
                    BlockType::dirt(),
                ));
            }
        }
    }
    chunk
}

fn present_set(chunk: &Chunk) -> Vec<(i64, i64, i64, u32)> {
    let mut v = vec![];
    for c in 0..256usize {
        for (y, slot) in chunk.blocks[c].iter().enumerate() {
            if let Some(t) = slot {
                v.push(((c / 16) as i64, y as i64, (c % 16) as i64, t.to_id()));
            }
        }
    }
    v.sort();
    v
}

#[test]
fn height_is_deterministic() {
    let noise = tile();
    let a = Chunk::get_height_value(3, -2, 5, 7, &noise);
    let b = Chunk::get_height_value(3, -2, 5, 7, &noise);
    assert_eq!(a, b);
    // world column (53, -25) wraps to tile column (1, 3): sample 13
    assert_eq!(a, (13 * 5) % 11 + 1);
}

#[test]
fn height_wraps_negative_coordinates() {
    let noise = tile();
    // world x = -1 wraps to 3, world z = -16 + 15 = -1 wraps to 3: sample 15
    assert_eq!(Chunk::get_height_value(-1, -1, 15, 15, &noise), (15 * 5) % 11 + 1);
    assert_eq!(Chunk::get_height_value(0, 0, 0, 0, &noise), 1);
}

#[test]
fn generated_terrain_is_dense() {
    let noise = tile();
    let cols = Chunk::create_blocks_data(2, -3, &noise);
    assert_eq!(cols.len(), 256);
    for x in 0..16u32 {
        for z in 0..16u32 {
            let top = Chunk::get_height_value(2, -3, x, z, &noise);
            let col = &cols[(x * 16 + z) as usize];
            assert_eq!(col.len() as u32, top + 1);
            for y in 0..=top {
                assert!(col[y as usize].is_some());
            }
            let surface = col[top as usize].unwrap();
            if top >= 3 {
                assert_eq!(surface, BlockType::Grass);
            } else {
                assert_eq!(surface, BlockType::Stone);
            }
            if top >= 4 {
                assert_eq!(col[(top - 1) as usize], Some(BlockType::Dirt));
            }
            assert_eq!(col[0], Some(BlockType::Stone));
        }
    }
}

#[test]
fn new_chunk_keeps_terrain_under_trees() {
    let noise = tile();
    let chunk = Chunk::new(4, 5, &noise, &None);
    for x in 0..16u32 {
        for z in 0..16u32 {
            let top = Chunk::get_height_value(4, 5, x, z, &noise);
            for y in 0..=top {
                assert!(chunk.exists_block_at(&BlockPos::new(x as i64, y as i64, z as i64)));
            }
        }
    }
    for b in chunk.outside_blocks.iter() {
        assert_ne!(b.chunk, ChunkCoord::new(4, 5));
    }
}

#[test]
fn add_then_exists_then_remove() {
    let mut chunk = Chunk::empty(0, 0);
    let p = BlockPos::new(3, 7, 9);
    assert!(!chunk.exists_block_at(&p));
    chunk.add_block(Block::new(p, ChunkCoord::new(0, 0), BlockType::wood()));
    assert!(chunk.exists_block_at(&p));
    assert_eq!(chunk.blocks[3 * 16 + 9].len(), 8);
    assert!(!chunk.exists_block_at(&BlockPos::new(3, 6, 9)));
    let got = chunk.get_block_at_relative(&p).unwrap();
    assert_eq!(got.block_type, BlockType::Wood);
    assert_eq!(got.chunk, ChunkCoord::new(0, 0));
    chunk.remove_block(&p);
    assert!(!chunk.exists_block_at(&p));
    assert_eq!(chunk.blocks[3 * 16 + 9].len(), 8);
    assert!(chunk.get_block_at_relative(&p).is_none());
}

#[test]
fn out_of_range_queries_are_absent() {
    let chunk = flat_chunk(0, 0, 2);
    assert!(!chunk.exists_block_at(&BlockPos::new(16, 0, 0)));
    assert!(!chunk.exists_block_at(&BlockPos::new(0, 0, -1)));
    assert!(!chunk.exists_block_at(&BlockPos::new(0, -1, 0)));
    assert!(!chunk.exists_block_at(&BlockPos::new(0, 3, 0)));
    assert!(chunk.exists_block_at(&BlockPos::new(15, 2, 15)));
    assert!(Chunk::is_outside_chunk(&BlockPos::new(16, 0, 3)));
    assert!(Chunk::is_outside_chunk(&BlockPos::new(2, 0, -1)));
    assert!(!Chunk::is_outside_chunk(&BlockPos::new(15, 99, 0)));
    assert!(Chunk::is_outside_bounds(&BlockPos::new(0, -1, 0)));
    assert!(!Chunk::is_outside_bounds(&BlockPos::new(0, 0, 0)));
}

#[test]
fn save_then_load_round_trip() {
    let noise = tile();
    let mut chunk = Chunk::new(-3, 7, &noise, &None);
    chunk.remove_block(&BlockPos::new(0, 0, 0));
    let text = chunk.save();
    let loaded = Chunk::load(-3, 7, &text).unwrap();
    assert_eq!(present_set(&loaded), present_set(&chunk));
    assert_eq!(loaded.x, -3);
    assert_eq!(loaded.y, 7);
}

#[test]
fn save_writes_one_line_per_block() {
    let mut chunk = Chunk::empty(1, 1);
    chunk.add_block(Block::new(BlockPos::new(1, 20, 2), ChunkCoord::new(1, 1), BlockType::leaf()));
    chunk.add_block(Block::new(BlockPos::new(0, 0, 15), ChunkCoord::new(1, 1), BlockType::grass()));
    let text = chunk.save();
    assert_eq!(String::from_utf8(text).unwrap(), "0,0,15,1\n1,20,2,3\n");
}

#[test]
fn load_rejects_malformed_text() {
    let bad: Vec<&str> = vec!["1,2,3\n", "1,2,3,4", "01,2,3,4\n", "a,2,3,4\n", "1,2,3,4,5\n", "16,0,0,0\n", "1,2,3,9\n", "99999999999,1,1,1\n"];
    for b in bad {
        let data = b.as_bytes().to_vec();
        assert_eq!(Chunk::load(0, 0, &data).err(), Some(LoadError::Malformed), "{}", b);
    }
    let empty: Vec<u8> = vec![];
    assert_eq!(present_set(&Chunk::load(0, 0, &empty).unwrap()).len(), 0);
}

#[test]
fn decode_inverts_encode() {
    let recs = vec![
        SavedBlock { x: 0, y: 0, z: 0, type_id: 0 },
        SavedBlock { x: 15, y: 4294967295, z: 10, type_id: 4 },
        SavedBlock { x: 7, y: 120, z: 3, type_id: 2 },
    ];
    let text = encode_blocks(&recs);
    assert_eq!(String::from_utf8(text.clone()).unwrap(), "0,0,0,0\n15,4294967295,10,4\n7,120,3,2\n");
    assert_eq!(decode_blocks(&text).unwrap(), recs);
}

#[test]
fn mesh_counts_are_stable() {
    let noise = tile();
    let a = Chunk::new(0, 0, &noise, &None);
    let b = flat_chunk(1, 0, 3);
    let others = vec![b];
    let m1 = a.build_mesh(&others, &noise);
    let m2 = a.build_mesh(&others, &noise);
    assert_eq!(m1.index_count, m2.index_count);
    assert_eq!(m1.vertices.len(), m2.vertices.len());
    assert_eq!(m1.vertices.len(), 4 * m1.faces.len());
    assert_eq!(m1.indices.len(), 6 * m1.faces.len());
    assert_eq!(m1.index_count as usize, m1.indices.len());
}

#[test]
fn stacked_blocks_hide_shared_faces() {
    let noise = NoiseField::new(1, vec![0]).unwrap();
    let mut chunk = Chunk::empty(0, 0);
    chunk.add_block(Block::new(BlockPos::new(5, 3, 5), ChunkCoord::new(0, 0), BlockType::dirt()));
    chunk.add_block(Block::new(BlockPos::new(5, 4, 5), ChunkCoord::new(0, 0), BlockType::dirt()));
    let mesh = chunk.build_mesh(&vec![], &noise);
    let lower = VisibleFace { position: BlockPos::new(5, 3, 5), face: FaceDirection::Up };
    let upper = VisibleFace { position: BlockPos::new(5, 4, 5), face: FaceDirection::Down };
    assert!(!mesh.faces.contains(&lower));
    assert!(!mesh.faces.contains(&upper));
    assert_eq!(mesh.faces.len(), 10);
    assert_eq!(mesh.index_count, 60);
    assert_eq!(mesh.vertices.len(), 40);
    // indices of the second quad are offset by four vertices
    assert_eq!(&mesh.indices[6..12], &[4, 5, 6, 4, 6, 7]);
}

#[test]
fn single_block_on_floor_shows_five_faces() {
    let noise = NoiseField::new(1, vec![0]).unwrap();
    let mut chunk = Chunk::empty(0, 0);
    chunk.add_block(Block::new(BlockPos::new(4, 0, 4), ChunkCoord::new(0, 0), BlockType::Stone));
    let mesh = chunk.build_mesh(&vec![], &noise);
    assert_eq!(mesh.faces.len(), 5);
    assert!(!mesh.faces.contains(&VisibleFace { position: BlockPos::new(4, 0, 4), face: FaceDirection::Down }));
    let up = mesh.faces.iter().position(|f| f.face == FaceDirection::Up).unwrap();
    let v = mesh.vertices[4 * up];
    assert_eq!((v.x, v.y, v.z, v.face, v.block_type, v.corner), (4, 1, 4, 0, 4, 0));
}

#[test]
fn edge_face_uses_height_of_unloaded_neighbour() {
    let heights: Vec<u32> = (0..16u32).map(|i| if i == 0 { 6 } else { 1 }).collect();
    let noise = NoiseField::new(4, heights).unwrap();
    // chunk (1, 0), local (0, 8) is world (16, 8), tile (0, 0): height 6
    assert_eq!(Chunk::get_height_value(1, 0, 0, 8, &noise), 6);
    let chunk = Chunk::empty(0, 0);
    for y in 0..10i64 {
        let visible = chunk.face_is_visible(&vec![], &noise, &BlockPos::new(15, y, 8), FaceDirection::Right);
        assert_eq!(visible, y > 6, "y = {}", y);
    }
    let mut column = Chunk::empty(0, 0);
    for y in 0..10i64 {
        column.add_block(Block::new(BlockPos::new(15, y, 8), ChunkCoord::new(0, 0), BlockType::dirt()));
    }
    let mesh = column.build_mesh(&vec![], &noise);
    for y in 0..10i64 {
        let f = VisibleFace { position: BlockPos::new(15, y, 8), face: FaceDirection::Right };
        assert_eq!(mesh.faces.contains(&f), y > 6);
    }
}

#[test]
fn edge_face_asks_loaded_neighbour() {
    let noise = NoiseField::new(1, vec![50]).unwrap();
    let chunk = Chunk::empty(0, 0);
    let neighbour = flat_chunk(1, 0, 2);
    let others = vec![neighbour];
    assert!(!chunk.face_is_visible(&others, &noise, &BlockPos::new(15, 2, 8), FaceDirection::Right));
    assert!(chunk.face_is_visible(&others, &noise, &BlockPos::new(15, 3, 8), FaceDirection::Right));
    // no chunk at (-1, 0): the height 50 hides the face
    assert!(!chunk.face_is_visible(&others, &noise, &BlockPos::new(0, 3, 8), FaceDirection::Left));
    assert!(!chunk.face_is_visible(&others, &noise, &BlockPos::new(0, 0, 8), FaceDirection::Down));
}

#[test]
fn tree_has_three_trunk_blocks_and_seventeen_leaves() {
    let blocks = Tree::get_blocks(BlockPos::new(5, 10, 5));
    assert_eq!(blocks.len(), 20);
    assert_eq!(blocks.iter().filter(|b| b.block_type == BlockType::Wood).count(), 3);
    assert_eq!(blocks.iter().filter(|b| b.block_type == BlockType::Leaf).count(), 17);
    assert_eq!(blocks[0].position, BlockPos::new(5, 11, 5));
    assert_eq!(blocks[19].position, BlockPos::new(5, 15, 5));
    assert!(blocks.iter().all(|b| b.chunk == ChunkCoord::new(0, 0)));
}

#[test]
fn tree_on_chunk_edge_spills_into_neighbours() {
    let blocks = Tree::get_blocks(BlockPos::new(-16, 4, 15));
    let foreign: Vec<&Block> = blocks.iter().filter(|b| b.chunk != ChunkCoord::new(-1, 0)).collect();
    // x = -17 lies in chunk -2; z = 16 lies in chunk 1
    assert_eq!(foreign.len(), 10);
    let leaf = blocks.iter().find(|b| b.chunk == ChunkCoord::new(-2, 1)).unwrap();
    assert_eq!(leaf.position.x, 15);
    assert_eq!(leaf.position.z, 0);
}

#[test]
fn planted_tree_routes_foreign_blocks_outside() {
    let mut chunk = flat_chunk(0, 0, 4);
    chunk.place_tree(15, 0);
    assert!(chunk.exists_block_at(&BlockPos::new(15, 5, 0)));
    assert!(chunk.exists_block_at(&BlockPos::new(15, 9, 0)));
    assert_eq!(chunk.get_block_at_relative(&BlockPos::new(14, 7, 1)).unwrap().block_type, BlockType::Leaf);
    // offsets with x + 1 or z - 1 leave the chunk: 10 leaf blocks
    assert_eq!(chunk.outside_blocks.len(), 10);
    for b in chunk.outside_blocks.iter() {
        assert_ne!(b.chunk, ChunkCoord::new(0, 0));
        assert_eq!(b.block_type, BlockType::Leaf);
    }
    let mut empty = Chunk::empty(0, 0);
    empty.place_tree(3, 3);
    assert_eq!(empty.outside_blocks.len(), 0);
    assert_eq!(empty.blocks[3 * 16 + 3].len(), 0);
}

#[test]
fn place_trees_only_adds() {
    let before = flat_chunk(2, 2, 1);
    let mut chunk = flat_chunk(2, 2, 1);
    chunk.place_trees();
    for p in present_set(&before) {
        assert!(chunk.exists_block_at(&BlockPos::new(p.0, p.1, p.2)));
    }
    assert!(chunk.outside_blocks.iter().all(|b| b.chunk != ChunkCoord::new(2, 2)));
}

#[test]
fn coordinates_split_into_chunk_and_local() {
    assert_eq!(chunk_axis(-1), -1);
    assert_eq!(local_axis(-1), 15);
    assert_eq!(chunk_axis(-16), -1);
    assert_eq!(chunk_axis(-17), -2);
    assert_eq!(local_axis(33), 1);
    assert_eq!(chunk_from_absolute(&BlockPos::new(-1, 3, 40)), ChunkCoord::new(-1, 2));
    assert_eq!(relative_from_absolute(&BlockPos::new(-1, 3, 40)), BlockPos::new(15, 3, 8));
    let b = Block::new(BlockPos::new(15, 3, 8), ChunkCoord::new(-1, 2), BlockType::dirt());
    assert_eq!(b.absolute_position(), BlockPos::new(-1, 3, 40));
}

#[test]
fn noise_field_rejects_bad_tiles() {
    assert!(NoiseField::new(0, vec![]).is_none());
    assert!(NoiseField::new(2, vec![1, 2, 3]).is_none());
    assert!(NoiseField::new(2, vec![1, 2, 3, 0x10000]).is_none());
    assert!(NoiseField::new(2, vec![1, 2, 3, 4]).is_some());
}

#[test]
fn block_type_ids_round_trip() {
    for t in [BlockType::Dirt, BlockType::Grass, BlockType::Wood, BlockType::Leaf, BlockType::Stone] {
        assert_eq!(BlockType::from_id(t.to_id()), Some(t));
    }
    assert_eq!(BlockType::from_id(5), None);
    assert_eq!(BlockType::from_y_position(0), BlockType::Stone);
    assert_eq!(BlockType::from_y_position(3), BlockType::Dirt);
    assert!(BlockType::Leaf.is_translucent());
    assert!(!BlockType::Wood.is_translucent());
}

#[test]
fn world_routes_blocks_to_owning_chunk() {
    let mut world = World::new();
    world.insert_chunk(Chunk::empty(0, 0));
    world.insert_chunk(Chunk::empty(-1, 0));
    assert!(world.place_block(&BlockPos::new(-1, 2, 5), BlockType::dirt()));
    assert!(world.exists_block_absolute(&BlockPos::new(-1, 2, 5)));
    let i = world.get_chunk_index(-1, 0).unwrap();
    assert!(world.chunks[i].exists_block_at(&BlockPos::new(15, 2, 5)));
    assert!(!world.place_block(&BlockPos::new(40, 2, 5), BlockType::dirt()));
    assert!(world.remove_block(&BlockPos::new(-1, 2, 5)));
    assert!(!world.exists_block_absolute(&BlockPos::new(-1, 2, 5)));
    world.insert_chunk(Chunk::empty(0, 0));
    assert_eq!(world.chunks.len(), 2);
    let removed = world.remove_chunk(-1, 0).unwrap();
    assert_eq!((removed.x, removed.y), (-1, 0));
    assert!(world.get_chunk_index(-1, 0).is_none());
    assert!(world.remove_chunk(-1, 0).is_none());
}

#[test]
fn world_mesh_sees_neighbours() {
    let noise = NoiseField::new(1, vec![60]).unwrap();
    let mut world = World::new();
    world.insert_chunk(flat_chunk(0, 0, 0));
    world.insert_chunk(flat_chunk(1, 0, 0));
    let i = world.get_chunk_index(0, 0).unwrap();
    let mesh = world.build_chunk_mesh(i, &noise);
    // only the top faces show: the loaded neighbour hides x = 15, the height 60 hides the rest
    assert_eq!(mesh.faces.len(), 256);
    assert!(mesh.faces.iter().all(|f| f.face == FaceDirection::Up));
}

#[test]
fn chunk_file_names_hold_the_coordinate() {
    assert_eq!(String::from_utf8(chunk_file_name(3, -12)).unwrap(), "data/chunk3_-12");
    assert_eq!(String::from_utf8(chunk_file_name(i32::MIN, 0)).unwrap(), "data/chunk-2147483648_0");
}

#[test]
fn outside_blocks_reach_loaded_owners() {
    let mut planter = flat_chunk(0, 0, 4);
    planter.place_tree(15, 0);
    assert_eq!(planter.outside_blocks.len(), 10);
    let mut world = World::new();
    world.insert_chunk(planter);
    world.insert_chunk(Chunk::empty(1, 0));
    world.deliver_outside_blocks();
    let i = world.get_chunk_index(0, 0).unwrap();
    let j = world.get_chunk_index(1, 0).unwrap();
    // (1, 3, 1) and (1, 4, 1) from base (15, 4, 0) land in chunk (1, 0) at local (0, 7|8, 1)
    assert!(world.chunks[j].exists_block_at(&BlockPos::new(0, 7, 1)));
    assert!(world.chunks[j].exists_block_at(&BlockPos::new(0, 8, 0)));
    // leaves with z - 1 belong to unloaded chunks (0, -1) and (1, -1): 6 stay queued
    assert_eq!(world.chunks[i].outside_blocks.len(), 6);
    assert!(world.chunks[i].outside_blocks.iter().all(|b| b.chunk.y == -1));
}

#[test]
fn mesh_buffers_hold_every_vertex_and_index() {
    let noise = NoiseField::new(1, vec![0]).unwrap();
    let mut chunk = Chunk::empty(0, 0);
    chunk.add_block(Block::new(BlockPos::new(2, 1, 3), ChunkCoord::new(0, 0), BlockType::leaf()));
    let mesh = chunk.build_mesh(&vec![], &noise);
    assert_eq!(mesh.faces.len(), 6);
    let words = mesh.vertex_words();
    assert_eq!(words.len(), 6 * 24);
    let v = mesh.vertices[0];
    assert_eq!(&words[0..6], &[v.x, v.y, v.z, v.face, v.block_type, v.corner]);
    let bytes = mesh.vertex_bytes();
    assert_eq!(bytes.len(), 24 * 24);
    assert_eq!(&bytes[0..4], &words[0].to_ne_bytes());
    assert_eq!(&bytes[20..24], &words[5].to_ne_bytes());
    let ib = mesh.index_bytes();
    assert_eq!(ib.len(), 4 * 36);
    assert_eq!(&ib[4 * 7..4 * 8], &mesh.indices[7].to_ne_bytes());
}

#[test]
fn missing_file_is_not_found() {
    assert_eq!(Chunk::from_saved(2, 3, &None).err(), Some(LoadError::NotFound));
    let bad = Some(b"1,2\n".to_vec());
    assert_eq!(Chunk::from_saved(2, 3, &bad).err(), Some(LoadError::Malformed));
    let good = Some(b"1,2,3,0\n".to_vec());
    let chunk = Chunk::from_saved(2, 3, &good).unwrap();
    assert!(chunk.exists_block_at(&BlockPos::new(1, 2, 3)));
    // a text that loads wins over generation: no trees, no terrain
    let noise = tile();
    let loaded = Chunk::new(2, 3, &noise, &good);
    assert_eq!(present_set(&loaded), vec![(1, 2, 3, 0)]);
}
