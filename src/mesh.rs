use vstd::prelude::*;
use crate::block::{face_at, face_index, normal_spec, type_id_spec, BlockPos, BlockType, FaceDirection};
use crate::chunk::{column_of, height_spec, in_footprint, slot_in, Chunk};
use crate::coords::{chunk_axis, chunk_axis_spec, local_axis, local_axis_spec};
use crate::noise::{NoiseField, MAX_HEIGHT};

verus! {

/// One face of a block, given by the block's chunk-relative position and the direction.
#[derive(Clone, Copy, Debug, PartialEq, Eq, Structural)]
pub struct VisibleFace {
    pub position: BlockPos,
    pub face: FaceDirection,
}

/// A vertex of a face's quad: the chunk-local corner, the face's index, the block's
/// type id, and which of the quad's four corners it is.
#[derive(Clone, Copy, Debug, PartialEq, Eq, Structural)]
pub struct FaceVertex {
    pub x: u32,
    pub y: u32,
    pub z: u32,
    pub face: u32,
    pub block_type: u32,
    pub corner: u32,
}

/// Output of meshing: the visible faces, their vertices (four per face), and the
/// triangle indices (six per face) into the vertices.
pub struct Mesh {
    pub faces: Vec<VisibleFace>,
    pub vertices: Vec<FaceVertex>,
    pub indices: Vec<u32>,
    pub index_count: u32,
}

/// Every chunk in `chunks` has its own coordinate.
pub open spec fn unique_coords(chunks: Seq<Chunk>) -> bool {
    forall|i: int, j: int|
        0 <= i < chunks.len() && 0 <= j < chunks.len() && i != j ==> !(chunks[i].x == chunks[j].x
            && #[trigger] chunks[i].y == #[trigger] chunks[j].y)
}

/// Chunk `(cx, cz)` is among `chunks`.
pub open spec fn is_loaded(chunks: Seq<Chunk>, cx: int, cz: int) -> bool {
    exists|i: int| 0 <= i < chunks.len() && chunks[i].x == cx && #[trigger] chunks[i].y == cz
}

/// Chunk `(cx, cz)` is among `chunks` and holds a block at relative `(x, y, z)`.
pub open spec fn loaded_block_at(chunks: Seq<Chunk>, cx: int, cz: int, x: int, y: int, z: int) -> bool {
    exists|i: int|
        0 <= i < chunks.len() && chunks[i].x == cx && chunks[i].y == cz && (#[trigger] slot_in(
            chunks[i].cols(),
            x,
            y,
            z,
        )) is Some
}

/// Whether face `f` of the block at relative `p` of chunk `ch` is visible. Its neighbour
/// position is `p` plus the face's normal. Below the floor: hidden. Outside the footprint:
/// the neighbour chunk decides where it is loaded, else the terrain height predicts it
/// (hidden up to the surface). Inside: hidden where a block is present.
pub open spec fn face_visible_spec(
    ch: &Chunk,
    others: Seq<Chunk>,
    noise: &NoiseField,
    p: BlockPos,
    f: FaceDirection,
) -> bool {
    let nx = p.x + normal_spec(f).0;
    let ny = p.y + normal_spec(f).1;
    let nz = p.z + normal_spec(f).2;
    if ny < 0 {
        false
    } else if !in_footprint(nx, nz) {
        let tcx = ch.x + chunk_axis_spec(nx);
        let tcz = ch.y + chunk_axis_spec(nz);
        let lx = local_axis_spec(nx);
        let lz = local_axis_spec(nz);
        if is_loaded(others, tcx, tcz) {
            !loaded_block_at(others, tcx, tcz, lx, ny, lz)
        } else {
            ny > height_spec(noise, tcx, tcz, lx, lz)
        }
    } else {
        slot_in(ch.cols(), nx, ny, nz) is None
    }
}

/// Whether `vf` belongs in the mesh of `ch`: its block is present and the face is visible.
pub open spec fn is_mesh_face(ch: &Chunk, others: Seq<Chunk>, noise: &NoiseField, vf: VisibleFace) -> bool {
    &&& ch.slot(vf.position) is Some
    &&& face_visible_spec(ch, others, noise, vf.position, vf.face)
}

/// Corner `k` of the unit quad of face `f`, relative to the block's minimum corner.
pub open spec fn corner_spec(f: FaceDirection, k: int) -> (int, int, int) {
    match f {
        FaceDirection::Up => if k == 0 { (0, 1, 0) } else if k == 1 { (0, 1, 1) } else if k == 2 { (1, 1, 1) } else { (1, 1, 0) },
        FaceDirection::Down => if k == 0 { (0, 0, 0) } else if k == 1 { (1, 0, 0) } else if k == 2 { (1, 0, 1) } else { (0, 0, 1) },
        FaceDirection::Left => if k == 0 { (0, 0, 0) } else if k == 1 { (0, 0, 1) } else if k == 2 { (0, 1, 1) } else { (0, 1, 0) },
        FaceDirection::Right => if k == 0 { (1, 0, 0) } else if k == 1 { (1, 1, 0) } else if k == 2 { (1, 1, 1) } else { (1, 0, 1) },
        FaceDirection::Front => if k == 0 { (0, 0, 1) } else if k == 1 { (1, 0, 1) } else if k == 2 { (1, 1, 1) } else { (0, 1, 1) },
        FaceDirection::Back => if k == 0 { (0, 0, 0) } else if k == 1 { (0, 1, 0) } else if k == 2 { (1, 1, 0) } else { (1, 0, 0) },
    }
}

/// Vertex `k` of the quad of face `vf` on a block of type `t`.
pub open spec fn quad_vertex(vf: VisibleFace, t: BlockType, k: int) -> FaceVertex {
    let c = corner_spec(vf.face, k);
    FaceVertex {
        x: (vf.position.x + c.0) as u32,
        y: (vf.position.y + c.1) as u32,
        z: (vf.position.z + c.2) as u32,
        face: face_index(vf.face) as u32,
        block_type: type_id_spec(t),
        corner: k as u32,
    }
}

pub open spec fn quad_spec(vf: VisibleFace, t: BlockType) -> Seq<FaceVertex> {
    seq![quad_vertex(vf, t, 0), quad_vertex(vf, t, 1), quad_vertex(vf, t, 2), quad_vertex(vf, t, 3)]
}

/// The vertices of the quads of `faces` of chunk `ch`, in order.
pub open spec fn mesh_vertices(ch: &Chunk, faces: Seq<VisibleFace>) -> Seq<FaceVertex>
    decreases faces.len(),
{
    if faces.len() == 0 {
        seq![]
    } else {
        mesh_vertices(ch, faces.drop_last()) + quad_spec(
            faces.last(),
            ch.slot(faces.last().position)->Some_0,
        )
    }
}

/// The two triangles of the quad whose first vertex is `base`.
pub open spec fn quad_indices(base: int) -> Seq<u32> {
    seq![base as u32, (base + 1) as u32, (base + 2) as u32, base as u32, (base + 2) as u32, (base + 3) as u32]
}

/// The indices of `n` quads laid out one after another.
pub open spec fn mesh_indices(n: nat) -> Seq<u32>
    decreases n,
{
    if n == 0 {
        seq![]
    } else {
        mesh_indices((n - 1) as nat) + quad_indices(4 * (n - 1))
    }
}

/// Face `vf` comes before position `(c, y, fi)` of the walk over columns, heights and faces.
pub open spec fn visited_before(vf: VisibleFace, c: int, y: int, fi: int) -> bool {
    let vc = column_of(vf.position.x as int, vf.position.z as int);
    vc < c || (vc == c && (vf.position.y < y || (vf.position.y == y && face_index(vf.face) < fi)))
}

impl Mesh {
    /// `self` is a mesh of chunk `ch`: each face that belongs in it appears exactly once,
    /// nothing else appears, and vertices and indices follow from the faces.
    pub open spec fn is_mesh_of(&self, ch: &Chunk, others: Seq<Chunk>, noise: &NoiseField) -> bool {
        &&& self.faces@.no_duplicates()
        &&& forall|vf: VisibleFace| #[trigger] self.faces@.contains(vf) <==> is_mesh_face(ch, others, noise, vf)
        &&& self.vertices@ == mesh_vertices(ch, self.faces@)
        &&& self.indices@ == mesh_indices(self.faces@.len())
        &&& self.index_count as int == self.indices@.len()
    }
}

proof fn lemma_mesh_lengths(ch: &Chunk, faces: Seq<VisibleFace>, n: nat)
    ensures
        mesh_vertices(ch, faces).len() == 4 * faces.len(),
        mesh_indices(n).len() == 6 * n,
    decreases faces.len() + n,
{
    if faces.len() > 0 {
        lemma_mesh_lengths(ch, faces.drop_last(), n);
    }
    if n > 0 {
        lemma_mesh_lengths(ch, faces, (n - 1) as nat);
    }
}

/// Meshing the same chunk twice, against the same loaded chunks and noise tile, gives the
/// same number of faces, vertices and indices.
pub proof fn lemma_mesh_counts_stable(
    ch: &Chunk,
    others: Seq<Chunk>,
    noise: &NoiseField,
    m1: &Mesh,
    m2: &Mesh,
)
    requires
        m1.is_mesh_of(ch, others, noise),
        m2.is_mesh_of(ch, others, noise),
    ensures
        m1.faces@.len() == m2.faces@.len(),
        m1.vertices@.len() == m2.vertices@.len(),
        m1.index_count == m2.index_count,
{
    assert(m1.faces@.to_set() =~= m2.faces@.to_set());
    m1.faces@.unique_seq_to_set();
    m2.faces@.unique_seq_to_set();
    lemma_mesh_lengths(ch, m1.faces@, m1.faces@.len());
    lemma_mesh_lengths(ch, m2.faces@, m2.faces@.len());
}

/// No face is emitted between two present blocks of the same chunk: where the
/// neighbour of a face lies in the footprint and holds a block, the face is hidden.
pub proof fn lemma_no_interior_faces(
    ch: &Chunk,
    others: Seq<Chunk>,
    noise: &NoiseField,
    p: BlockPos,
    f: FaceDirection,
)
    requires
        in_footprint(p.x + normal_spec(f).0, p.z + normal_spec(f).2),
        slot_in(ch.cols(), p.x + normal_spec(f).0, p.y + normal_spec(f).1, p.z + normal_spec(f).2) is Some,
    ensures
        !is_mesh_face(ch, others, noise, VisibleFace { position: p, face: f }),
{
}

proof fn lemma_face_index_at(i: int)
    requires
        0 <= i < 6,
    ensures
        face_index(face_at(i)) == i,
        forall|f: FaceDirection| face_index(f) == i ==> f == face_at(i),
{
}

/// Corner `k` of the quad of face `f`.
fn quad_corner(f: FaceDirection, k: u32) -> (r: (u32, u32, u32))
    requires
        k < 4,
    ensures
        (r.0 as int, r.1 as int, r.2 as int) == corner_spec(f, k as int),
{
    match f {
        FaceDirection::Up => if k == 0 { (0, 1, 0) } else if k == 1 { (0, 1, 1) } else if k == 2 { (1, 1, 1) } else { (1, 1, 0) },
        FaceDirection::Down => if k == 0 { (0, 0, 0) } else if k == 1 { (1, 0, 0) } else if k == 2 { (1, 0, 1) } else { (0, 0, 1) },
        FaceDirection::Left => if k == 0 { (0, 0, 0) } else if k == 1 { (0, 0, 1) } else if k == 2 { (0, 1, 1) } else { (0, 1, 0) },
        FaceDirection::Right => if k == 0 { (1, 0, 0) } else if k == 1 { (1, 1, 0) } else if k == 2 { (1, 1, 1) } else { (1, 0, 1) },
        FaceDirection::Front => if k == 0 { (0, 0, 1) } else if k == 1 { (1, 0, 1) } else if k == 2 { (1, 1, 1) } else { (0, 1, 1) },
        FaceDirection::Back => if k == 0 { (0, 0, 0) } else if k == 1 { (0, 1, 0) } else if k == 2 { (1, 1, 0) } else { (1, 0, 0) },
    }
}

/// Index of the chunk with coordinate `(cx, cz)` among `chunks`, if one is there.
pub fn find_chunk(chunks: &Vec<Chunk>, cx: i64, cz: i64) -> (r: Option<usize>)
    ensures
        r matches Some(i) ==> i < chunks@.len() && chunks@[i as int].x == cx && chunks@[i as int].y
            == cz,
        r is None ==> !is_loaded(chunks@, cx as int, cz as int),
{
    let mut i: usize = 0;
    while i < chunks.len()
        invariant
            i <= chunks@.len(),
            forall|j: int| 0 <= j < i ==> !(chunks@[j].x == cx && #[trigger] chunks@[j].y == cz),
        decreases chunks@.len() - i,
    {
        if chunks[i].x as i64 == cx && chunks[i].y as i64 == cz {
            return Some(i);
        }
        i += 1;
    }
    None
}

impl Chunk {
    /// Whether face `face` of the block at relative `position` is visible, looking into the
    /// loaded chunks `other_chunks` across the chunk's edge and falling back to the terrain
    /// height for chunks that are not loaded.
    pub fn face_is_visible(
        &self,
        other_chunks: &Vec<Chunk>,
        noise_data: &NoiseField,
        position: &BlockPos,
        face: FaceDirection,
    ) -> (r: bool)
        requires
            self.wf(),
            noise_data.wf(),
            unique_coords(other_chunks@),
            forall|i: int| 0 <= i < other_chunks@.len() ==> (#[trigger] other_chunks@[i]).wf(),
            in_footprint(position.x as int, position.z as int),
            0 <= position.y < MAX_HEIGHT,
        ensures
            r == face_visible_spec(self, other_chunks@, noise_data, *position, face),
    {
        let n = face.get_normal_vector();
        let face_position = BlockPos { x: position.x + n.x, y: position.y + n.y, z: position.z + n.z };
        if Chunk::is_outside_bounds(&face_position) {
            false
        } else if Chunk::is_outside_chunk(&face_position) {
            let target_chunk_x: i64 = self.x as i64 + chunk_axis(face_position.x);
            let target_chunk_y: i64 = self.y as i64 + chunk_axis(face_position.z);
            let target_block = BlockPos {
                x: local_axis(face_position.x),
                y: face_position.y,
                z: local_axis(face_position.z),
            };
            match find_chunk(other_chunks, target_chunk_x, target_chunk_y) {
                Some(i) => {
                    let present = other_chunks[i].exists_block_at(&target_block);
                    proof {
                        let cs = other_chunks@;
                        let lx = target_block.x as int;
                        let lz = target_block.z as int;
                        let y = target_block.y as int;
                        if loaded_block_at(cs, target_chunk_x as int, target_chunk_y as int, lx, y, lz) {
                            let j = choose|j: int|
                                0 <= j < cs.len() && cs[j].x == target_chunk_x && cs[j].y
                                    == target_chunk_y && (#[trigger] slot_in(cs[j].cols(), lx, y, lz)) is Some;
                            assert(j == i as int);
                        }
                        assert(is_loaded(cs, target_chunk_x as int, target_chunk_y as int));
                    }
                    !present
                },
                None => {
                    let wx: i64 = target_chunk_x * 16 + target_block.x;
                    let wz: i64 = target_chunk_y * 16 + target_block.z;
                    let top = noise_data.height_at_world(wx, wz);
                    (face_position.y as u64) > (top as u64)
                },
            }
        } else {
            !self.exists_block_at(&face_position)
        }
    }

    /// The vertices and indices of the quads of `faces`, four vertices and six indices
    /// per face, the indices offset by the running vertex count.
    fn emit_quads(&self, faces: &Vec<VisibleFace>) -> (r: (Vec<FaceVertex>, Vec<u32>))
        requires
            self.wf(),
            faces@.len() <= 6 * 256 * MAX_HEIGHT,
            forall|k: int| 0 <= k < faces@.len() ==> (#[trigger] self.slot(faces@[k].position)) is Some,
        ensures
            r.0@ == mesh_vertices(self, faces@),
            r.1@ == mesh_indices(faces@.len()),
    {
        let mut vertices: Vec<FaceVertex> = Vec::new();
        let mut indices: Vec<u32> = Vec::new();
        let mut k: usize = 0;
        while k < faces.len()
            invariant
                self.wf(),
                k <= faces@.len(),
                faces@.len() <= 6 * 256 * MAX_HEIGHT,
                forall|j: int| 0 <= j < faces@.len() ==> (#[trigger] self.slot(faces@[j].position)) is Some,
                vertices@ == mesh_vertices(self, faces@.take(k as int)),
                indices@ == mesh_indices(k as nat),
            decreases faces@.len() - k,
        {
            let vf = faces[k];
            let block = self.get_block_at_relative(&vf.position);
            let t = match block {
                Some(b) => b.block_type,
                None => {
                    assert(false);
                    BlockType::Dirt
                },
            };
            let base: u32 = (4 * k) as u32;
            let mut corner: u32 = 0;
            let ghost start = vertices@;
            while corner < 4
                invariant
                    corner <= 4,
                    0 <= vf.position.x < 16,
                    0 <= vf.position.z < 16,
                    0 <= vf.position.y < MAX_HEIGHT,
                    vertices@ == start + Seq::new(corner as nat, |j: int| quad_vertex(vf, t, j)),
                decreases 4 - corner,
            {
                let c = quad_corner(vf.face, corner);
                vertices.push(
                    FaceVertex {
                        x: vf.position.x as u32 + c.0,
                        y: vf.position.y as u32 + c.1,
                        z: vf.position.z as u32 + c.2,
                        face: vf.face.index(),
                        block_type: t.to_id(),
                        corner,
                    },
                );
                corner += 1;
            }
            indices.push(base);
            indices.push(base + 1);
            indices.push(base + 2);
            indices.push(base);
            indices.push(base + 2);
            indices.push(base + 3);
            proof {
                let fk = faces@.take(k + 1);
                assert(fk.drop_last() =~= faces@.take(k as int));
                assert(fk.last() == vf);
                assert(Seq::new(4, |j: int| quad_vertex(vf, t, j)) =~= quad_spec(vf, t));
                assert(indices@ =~= mesh_indices((k + 1) as nat));
            }
            k += 1;
        }
        assert(faces@.take(faces@.len() as int) =~= faces@);
        (vertices, indices)
    }
}

impl Chunk {
    /// Meshes the chunk: every face of every present block that `face_is_visible` shows,
    /// exactly once, in the order of columns, heights and faces, with its quad.
    ///
    /// A face at the chunk's edge that the terrain height hid stays hidden when the
    /// neighbour later loads with other terrain: nothing marks such a mesh stale, so the
    /// caller rebuilds it when a neighbour loads.
    pub fn build_mesh(&self, other_chunks: &Vec<Chunk>, noise_data: &NoiseField) -> (r: Mesh)
        requires
            self.wf(),
            noise_data.wf(),
            unique_coords(other_chunks@),
            forall|i: int| 0 <= i < other_chunks@.len() ==> (#[trigger] other_chunks@[i]).wf(),
        ensures
            r.is_mesh_of(self, other_chunks@, noise_data),
    {
        let mut faces: Vec<VisibleFace> = Vec::new();
        let all = FaceDirection::all();
        let mut c: usize = 0;
        while c < self.blocks.len()
            invariant
                self.wf(),
                noise_data.wf(),
                unique_coords(other_chunks@),
                forall|i: int| 0 <= i < other_chunks@.len() ==> (#[trigger] other_chunks@[i]).wf(),
                forall|i: int| 0 <= i < 6 ==> all@[i] == face_at(i),
                all@.len() == 6,
                c <= 256,
                faces@.len() <= 6 * c * MAX_HEIGHT,
                faces@.no_duplicates(),
                forall|vf: VisibleFace| #[trigger] faces@.contains(vf) <==> (is_mesh_face(self, other_chunks@, noise_data, vf)
                    && visited_before(vf, c as int, 0, 0)),
            decreases 256 - c,
        {
            let x: i64 = (c / 16) as i64;
            let z: i64 = (c % 16) as i64;
            let col = &self.blocks[c];
            assert(col@ == self.cols()[c as int]);
            let mut y: usize = 0;
            while y < col.len()
                invariant
                    self.wf(),
                    noise_data.wf(),
                    unique_coords(other_chunks@),
                    forall|i: int| 0 <= i < other_chunks@.len() ==> (#[trigger] other_chunks@[i]).wf(),
                    forall|i: int| 0 <= i < 6 ==> all@[i] == face_at(i),
                    all@.len() == 6,
                    c < 256,
                    x == c / 16,
                    z == c % 16,
                    col@ == self.cols()[c as int],
                    y <= col@.len(),
                    faces@.len() <= 6 * (c * MAX_HEIGHT + y),
                    faces@.no_duplicates(),
                    forall|vf: VisibleFace| #[trigger] faces@.contains(vf) <==> (is_mesh_face(self, other_chunks@, noise_data, vf)
                        && visited_before(vf, c as int, y as int, 0)),
                decreases col@.len() - y,
            {
                let position = BlockPos { x, y: y as i64, z };
                proof {
                    assert(column_of(x as int, z as int) == c);
                }
                if col[y].is_some() {
                    let mut fi: usize = 0;
                    while fi < 6
                        invariant
                            self.wf(),
                            noise_data.wf(),
                            unique_coords(other_chunks@),
                            forall|i: int| 0 <= i < other_chunks@.len() ==> (#[trigger] other_chunks@[i]).wf(),
                            forall|i: int| 0 <= i < 6 ==> all@[i] == face_at(i),
                            all@.len() == 6,
                            c < 256,
                            y < col@.len(),
                            col@ == self.cols()[c as int],
                            position == (BlockPos { x, y: y as i64, z }),
                            column_of(x as int, z as int) == c,
                            0 <= x < 16,
                            0 <= z < 16,
                            self.slot(position) is Some,
                            fi <= 6,
                            faces@.len() <= 6 * (c * MAX_HEIGHT + y) + fi,
                            faces@.no_duplicates(),
                            forall|vf: VisibleFace| #[trigger] faces@.contains(vf) <==> (is_mesh_face(self, other_chunks@, noise_data, vf)
                                && visited_before(vf, c as int, y as int, fi as int)),
                        decreases 6 - fi,
                    {
                        let face = all[fi];
                        if self.face_is_visible(other_chunks, noise_data, &position, face) {
                            let vf = VisibleFace { position, face };
                            proof {
                                lemma_face_index_at(fi as int);
                                assert(!faces@.contains(vf));
                            }
                            let ghost prev = faces@;
                            faces.push(vf);
                            proof {
                                assert(faces@ == prev.push(vf));
                                assert forall|w: VisibleFace| #[trigger] faces@.contains(w) <==> (is_mesh_face(self, other_chunks@, noise_data, w)
                                    && visited_before(w, c as int, y as int, fi + 1)) by {
                                    if w == vf {
                                        assert(faces@[faces@.len() - 1] == vf);
                                    } else if faces@.contains(w) {
                                        let k = choose|k: int| 0 <= k < faces@.len() && faces@[k] == w;
                                        assert(k < prev.len());
                                        assert(prev[k] == w);
                                        assert(prev.contains(w));
                                    } else if is_mesh_face(self, other_chunks@, noise_data, w)
                                        && visited_before(w, c as int, y as int, fi as int) {
                                        assert(prev.contains(w));
                                        let k = choose|k: int| 0 <= k < prev.len() && prev[k] == w;
                                        assert(faces@[k] == w);
                                    }
                                }
                                assert(faces@.no_duplicates()) by {
                                    assert forall|i: int, j: int| 0 <= i < faces@.len() && 0 <= j < faces@.len() && i != j
                                        implies faces@[i] != faces@[j] by {
                                        if i == prev.len() {
                                            assert(prev.contains(faces@[j]));
                                        } else if j == prev.len() {
                                            assert(prev.contains(faces@[i]));
                                        }
                                    }
                                }
                            }
                        } else {
                            proof {
                                assert forall|w: VisibleFace| #[trigger] faces@.contains(w) <==> (is_mesh_face(self, other_chunks@, noise_data, w)
                                    && visited_before(w, c as int, y as int, fi + 1)) by {
                                    lemma_face_index_at(fi as int);
                                    if w.position == position && w.face == face {
                                        assert(!is_mesh_face(self, other_chunks@, noise_data, w));
                                    }
                                }
                            }
                        }
                        fi += 1;
                    }
                    proof {
                        assert forall|w: VisibleFace| #[trigger] faces@.contains(w) <==> (is_mesh_face(self, other_chunks@, noise_data, w)
                            && visited_before(w, c as int, y + 1, 0)) by {
                            if w.position.y == y && column_of(w.position.x as int, w.position.z as int) == c {
                                assert(face_index(w.face) < 6);
                            }
                        }
                    }
                } else {
                    proof {
                        assert forall|w: VisibleFace| #[trigger] faces@.contains(w) <==> (is_mesh_face(self, other_chunks@, noise_data, w)
                            && visited_before(w, c as int, y + 1, 0)) by {
                            if w.position.y == y && column_of(w.position.x as int, w.position.z as int) == c
                                && self.slot(w.position) is Some {
                                assert(in_footprint(w.position.x as int, w.position.z as int));
                                assert(w.position.x == x && w.position.z == z);
                                assert(w.position == position);
                            }
                        }
                    }
                }
                y += 1;
            }
            proof {
                assert(col@.len() <= MAX_HEIGHT);
                assert(6 * (c * MAX_HEIGHT + col@.len()) <= 6 * (c + 1) * MAX_HEIGHT) by (nonlinear_arith)
                    requires
                        col@.len() <= MAX_HEIGHT,
                ;
                assert forall|w: VisibleFace| #[trigger] faces@.contains(w) <==> (is_mesh_face(self, other_chunks@, noise_data, w)
                    && visited_before(w, c + 1, 0, 0)) by {
                    if column_of(w.position.x as int, w.position.z as int) == c && self.slot(w.position) is Some {
                        assert(w.position.y < col@.len());
                    }
                }
            }
            c += 1;
        }
        proof {
            assert(faces@.len() <= 6 * 256 * MAX_HEIGHT);
            assert forall|k: int| 0 <= k < faces@.len() implies (#[trigger] self.slot(faces@[k].position)) is Some by {
                assert(faces@.contains(faces@[k]));
            }
            assert forall|vf: VisibleFace| #[trigger] faces@.contains(vf) <==> is_mesh_face(self, other_chunks@, noise_data, vf) by {
                if is_mesh_face(self, other_chunks@, noise_data, vf) {
                    assert(in_footprint(vf.position.x as int, vf.position.z as int));
                }
            }
        }
        let (vertices, indices) = self.emit_quads(&faces);
        proof {
            lemma_mesh_lengths(self, faces@, faces@.len());
        }
        let index_count = indices.len() as u32;
        Mesh { faces, vertices, indices, index_count }
    }
}

/// The six words of a vertex, in field order.
pub open spec fn vertex_word_seq(v: FaceVertex) -> Seq<u32> {
    seq![v.x, v.y, v.z, v.face, v.block_type, v.corner]
}

/// The words of `vs`, six per vertex, in order.
pub open spec fn vertex_words_spec(vs: Seq<FaceVertex>) -> Seq<u32>
    decreases vs.len(),
{
    if vs.len() == 0 {
        seq![]
    } else {
        vertex_words_spec(vs.drop_last()) + vertex_word_seq(vs.last())
    }
}

proof fn lemma_vertex_words_len(vs: Seq<FaceVertex>)
    ensures
        vertex_words_spec(vs).len() == 6 * vs.len(),
    decreases vs.len(),
{
    if vs.len() > 0 {
        lemma_vertex_words_len(vs.drop_last());
    }
}

/// Relies on `bytemuck::cast_slice` from `u32` to `u8`: the words' bytes in memory order,
/// four per word.
#[verifier::external_body]
fn words_as_bytes(words: &Vec<u32>) -> (r: Vec<u8>)
    ensures
        r@.len() == 4 * words@.len(),
{
    bytemuck::cast_slice::<u32, u8>(words.as_slice()).to_vec()
}

impl Mesh {
    /// The vertex buffer as 32-bit words: six per vertex, its fields in order.
    pub fn vertex_words(&self) -> (r: Vec<u32>)
        ensures
            r@ == vertex_words_spec(self.vertices@),
    {
        let mut out: Vec<u32> = Vec::new();
        let mut k: usize = 0;
        while k < self.vertices.len()
            invariant
                k <= self.vertices@.len(),
                out@ == vertex_words_spec(self.vertices@.take(k as int)),
            decreases self.vertices@.len() - k,
        {
            let v = self.vertices[k];
            out.push(v.x);
            out.push(v.y);
            out.push(v.z);
            out.push(v.face);
            out.push(v.block_type);
            out.push(v.corner);
            proof {
                assert(self.vertices@.take(k + 1).drop_last() =~= self.vertices@.take(k as int));
                assert(out@ =~= vertex_words_spec(self.vertices@.take(k + 1)));
            }
            k += 1;
        }
        assert(self.vertices@.take(self.vertices@.len() as int) =~= self.vertices@);
        out
    }

    /// The vertex buffer's bytes for the renderer: 24 per vertex.
    pub fn vertex_bytes(&self) -> (r: Vec<u8>)
        ensures
            r@.len() == 24 * self.vertices@.len(),
    {
        let words = self.vertex_words();
        proof {
            lemma_vertex_words_len(self.vertices@);
        }
        words_as_bytes(&words)
    }

    /// The index buffer's bytes for the renderer: 4 per index.
    pub fn index_bytes(&self) -> (r: Vec<u8>)
        ensures
            r@.len() == 4 * self.indices@.len(),
    {
        words_as_bytes(&self.indices)
    }
}

} // verus!
