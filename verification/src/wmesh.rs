//! WMESH binary meshes.
//!
//! A file is a 36-byte header (magic `WMESH\0\0\0`, version, vertex, index,
//! submesh and material counts, a has-bones flag and a reserved word),
//! then 64-byte vertices (position, normal, uv, tangent, color), 32-bit
//! indices, 12-byte submeshes (index offset, index count, material), and,
//! when the flag is set, one 64-byte bone matrix per four vertices and a
//! 32-byte bone-weight record per vertex. Words are little-endian; the
//! floating-point values are held as their bit patterns.

use vstd::prelude::*;
use crate::components::{F32_ONE, F32_ZERO};
use crate::wpak::{chars_of, read_u32, string_from_chars, u32_at};
use crate::wpak_build::{le32, push_le32};

verus! {

/// One vertex as stored: 16 words of single-precision bit patterns.
pub struct WmeshVertex {
    pub position: [u32; 3],
    pub normal: [u32; 3],
    pub uv: [u32; 2],
    pub tangent: [u32; 4],
    pub color: [u32; 4],
}

/// A range of the index list drawn with one material.
#[derive(Clone, Copy, Debug, PartialEq, Eq, Structural)]
pub struct WmeshSubmesh {
    pub index_offset: u32,
    pub index_count: u32,
    pub material_id: u32,
}

/// A decoded mesh file.
pub struct Wmesh {
    pub vertices: Vec<WmeshVertex>,
    pub indices: Vec<u32>,
    pub submeshes: Vec<WmeshSubmesh>,
    pub bone_matrices: Vec<[[u32; 4]; 4]>,
    pub bone_weights: Vec<[u32; 4]>,
    pub bone_indices: Vec<[u32; 4]>,
}

/// A vertex of a loaded model.
pub struct VertexData {
    pub position: [u32; 3],
    pub normal: [u32; 3],
    pub uv: [u32; 2],
}

/// A loaded model: a name, its vertices and its triangle indices.
pub struct MeshData {
    pub name: String,
    pub vertices: Vec<VertexData>,
    pub indices: Vec<u32>,
}

/// Why a mesh file could not be read or written.
#[derive(Clone, Copy, Debug, PartialEq, Eq, Structural)]
pub enum WmeshError {
    TruncatedHeader,
    BadMagic,
    UnsupportedVersion(u32),
    TruncatedVertices,
    TruncatedIndices,
    TruncatedSubmeshes,
    TruncatedBoneMatrices,
    TruncatedBoneWeights,
    NoMeshes,
}

pub const WMESH_VERSION: u32 = 1;

pub const WMESH_HEADER_SIZE: usize = 36;

pub const VERTEX_SIZE: usize = 64;

pub const SUBMESH_SIZE: usize = 12;

pub const BONE_MATRIX_SIZE: usize = 64;

pub const BONE_WEIGHT_SIZE: usize = 32;

/// The eight magic bytes `WMESH\0\0\0`.
pub open spec fn wmesh_magic() -> Seq<u8> {
    seq![0x57u8, 0x4Du8, 0x45u8, 0x53u8, 0x48u8, 0u8, 0u8, 0u8]
}

/// `n` little-endian words from `p`.
pub open spec fn words_at(b: Seq<u8>, p: int, n: int) -> Seq<u32> {
    Seq::new(n as nat, |i: int| u32_at(b, p + 4 * i))
}

pub open spec fn vertex_words(v: WmeshVertex) -> Seq<u32> {
    v.position@ + v.normal@ + v.uv@ + v.tangent@ + v.color@
}

pub open spec fn matrix_words(m: [[u32; 4]; 4]) -> Seq<u32> {
    m@[0]@ + m@[1]@ + m@[2]@ + m@[3]@
}

pub open spec fn submesh_at(b: Seq<u8>, p: int) -> WmeshSubmesh {
    WmeshSubmesh {
        index_offset: u32_at(b, p),
        index_count: u32_at(b, p + 4),
        material_id: u32_at(b, p + 8),
    }
}

/// Header fields.
pub open spec fn vertex_count(b: Seq<u8>) -> int {
    u32_at(b, 12) as int
}

pub open spec fn index_count(b: Seq<u8>) -> int {
    u32_at(b, 16) as int
}

pub open spec fn submesh_count(b: Seq<u8>) -> int {
    u32_at(b, 20) as int
}

pub open spec fn has_bones(b: Seq<u8>) -> bool {
    u32_at(b, 32) != 0
}

/// Where each section begins.
pub open spec fn indices_start(b: Seq<u8>) -> int {
    WMESH_HEADER_SIZE + VERTEX_SIZE * vertex_count(b)
}

pub open spec fn submeshes_start(b: Seq<u8>) -> int {
    indices_start(b) + 4 * index_count(b)
}

pub open spec fn bones_start(b: Seq<u8>) -> int {
    submeshes_start(b) + SUBMESH_SIZE * submesh_count(b)
}

/// One bone matrix per four vertices, rounded up.
pub open spec fn bone_matrix_count(b: Seq<u8>) -> int {
    (vertex_count(b) + 3) / 4
}

pub open spec fn weights_start(b: Seq<u8>) -> int {
    bones_start(b) + BONE_MATRIX_SIZE * bone_matrix_count(b)
}

pub open spec fn weights_end(b: Seq<u8>) -> int {
    weights_start(b) + BONE_WEIGHT_SIZE * vertex_count(b)
}

/// Why the bytes are not a mesh file, if they are not.
pub open spec fn wmesh_error(b: Seq<u8>) -> Option<WmeshError> {
    if b.len() < WMESH_HEADER_SIZE {
        Some(WmeshError::TruncatedHeader)
    } else if b.subrange(0, 8) != wmesh_magic() {
        Some(WmeshError::BadMagic)
    } else if u32_at(b, 8) != WMESH_VERSION {
        Some(WmeshError::UnsupportedVersion(u32_at(b, 8)))
    } else if indices_start(b) > b.len() {
        Some(WmeshError::TruncatedVertices)
    } else if submeshes_start(b) > b.len() {
        Some(WmeshError::TruncatedIndices)
    } else if bones_start(b) > b.len() {
        Some(WmeshError::TruncatedSubmeshes)
    } else if has_bones(b) && weights_start(b) > b.len() {
        Some(WmeshError::TruncatedBoneMatrices)
    } else if has_bones(b) && weights_end(b) > b.len() {
        Some(WmeshError::TruncatedBoneWeights)
    } else {
        None
    }
}

/// The decoded mesh holds what the bytes say.
pub open spec fn decoded_from(m: Wmesh, b: Seq<u8>) -> bool {
    &&& m.vertices@.len() == vertex_count(b)
    &&& forall|k: int|
        0 <= k < m.vertices@.len() ==> vertex_words(#[trigger] m.vertices@[k]) == words_at(
            b,
            WMESH_HEADER_SIZE + VERTEX_SIZE * k,
            16,
        )
    &&& m.indices@ == words_at(b, indices_start(b), index_count(b))
    &&& m.submeshes@.len() == submesh_count(b)
    &&& forall|k: int|
        0 <= k < m.submeshes@.len() ==> #[trigger] m.submeshes@[k] == submesh_at(
            b,
            submeshes_start(b) + SUBMESH_SIZE * k,
        )
    &&& if has_bones(b) {
        &&& m.bone_matrices@.len() == bone_matrix_count(b)
        &&& forall|k: int|
            0 <= k < m.bone_matrices@.len() ==> matrix_words(#[trigger] m.bone_matrices@[k])
                == words_at(b, bones_start(b) + BONE_MATRIX_SIZE * k, 16)
        &&& m.bone_weights@.len() == vertex_count(b)
        &&& m.bone_indices@.len() == vertex_count(b)
        &&& forall|k: int|
            0 <= k < vertex_count(b) ==> (#[trigger] m.bone_weights@[k])@ == words_at(
                b,
                weights_start(b) + BONE_WEIGHT_SIZE * k,
                4,
            ) && m.bone_indices@[k]@ == words_at(
                b,
                weights_start(b) + BONE_WEIGHT_SIZE * k + 16,
                4,
            )
    } else {
        &&& m.bone_matrices@.len() == 0
        &&& m.bone_weights@.len() == 0
        &&& m.bone_indices@.len() == 0
    }
}

fn read_words4(b: &[u8], p: usize) -> (r: [u32; 4])
    requires
        p + 16 <= b@.len(),
    ensures
        r@ == words_at(b@, p as int, 4),
{
    let _len = b.len();
    let r = [read_u32(b, p), read_u32(b, p + 4), read_u32(b, p + 8), read_u32(b, p + 12)];
    proof {
        assert(r@ =~= words_at(b@, p as int, 4));
    }
    r
}

fn read_vertex(b: &[u8], p: usize) -> (v: WmeshVertex)
    requires
        p + 64 <= b@.len(),
    ensures
        vertex_words(v) == words_at(b@, p as int, 16),
{
    let _len = b.len();
    let v = WmeshVertex {
        position: [read_u32(b, p), read_u32(b, p + 4), read_u32(b, p + 8)],
        normal: [read_u32(b, p + 12), read_u32(b, p + 16), read_u32(b, p + 20)],
        uv: [read_u32(b, p + 24), read_u32(b, p + 28)],
        tangent: read_words4(b, p + 32),
        color: read_words4(b, p + 48),
    };
    proof {
        assert(vertex_words(v) =~= words_at(b@, p as int, 16));
    }
    v
}

fn read_matrix(b: &[u8], p: usize) -> (m: [[u32; 4]; 4])
    requires
        p + 64 <= b@.len(),
    ensures
        matrix_words(m) == words_at(b@, p as int, 16),
{
    let _len = b.len();
    let m = [read_words4(b, p), read_words4(b, p + 16), read_words4(b, p + 32), read_words4(b, p + 48)];
    proof {
        assert(matrix_words(m) =~= words_at(b@, p as int, 16));
    }
    m
}

/// Decode a mesh file.
pub fn decode_wmesh(b: &[u8]) -> (r: Result<Wmesh, WmeshError>)
    ensures
        match r {
            Ok(m) => wmesh_error(b@) is None && decoded_from(m, b@),
            Err(e) => wmesh_error(b@) == Some(e),
        },
{
    let len = b.len();
    if len < WMESH_HEADER_SIZE {
        return Err(WmeshError::TruncatedHeader);
    }
    if b[0] != 0x57u8 || b[1] != 0x4Du8 || b[2] != 0x45u8 || b[3] != 0x53u8 || b[4] != 0x48u8
        || b[5] != 0u8 || b[6] != 0u8 || b[7] != 0u8 {
        proof {
            if b@.subrange(0, 8) == wmesh_magic() {
                assert(b@.subrange(0, 8)[0] == b@[0]);
                assert(b@.subrange(0, 8)[1] == b@[1]);
                assert(b@.subrange(0, 8)[2] == b@[2]);
                assert(b@.subrange(0, 8)[3] == b@[3]);
                assert(b@.subrange(0, 8)[4] == b@[4]);
                assert(b@.subrange(0, 8)[5] == b@[5]);
                assert(b@.subrange(0, 8)[6] == b@[6]);
                assert(b@.subrange(0, 8)[7] == b@[7]);
            }
        }
        return Err(WmeshError::BadMagic);
    }
    proof {
        assert(b@.subrange(0, 8) =~= wmesh_magic());
    }
    let version = read_u32(b, 8);
    if version != WMESH_VERSION {
        return Err(WmeshError::UnsupportedVersion(version));
    }
    let vc = read_u32(b, 12) as u64;
    let ic = read_u32(b, 16) as u64;
    let mc = read_u32(b, 20) as u64;
    let bones = read_u32(b, 32) != 0;
    let len64 = len as u64;
    let io: u64 = 36 + 64 * vc;
    if io > len64 {
        return Err(WmeshError::TruncatedVertices);
    }
    let so: u64 = io + 4 * ic;
    if so > len64 {
        return Err(WmeshError::TruncatedIndices);
    }
    let bo: u64 = so + 12 * mc;
    if bo > len64 {
        return Err(WmeshError::TruncatedSubmeshes);
    }
    let mcount: u64 = (vc + 3) / 4;
    let wo: u64 = bo + 64 * mcount;
    let we: u64 = wo + 32 * vc;
    if bones && wo > len64 {
        return Err(WmeshError::TruncatedBoneMatrices);
    }
    if bones && we > len64 {
        return Err(WmeshError::TruncatedBoneWeights);
    }
    let mut vertices: Vec<WmeshVertex> = Vec::new();
    let mut k: u64 = 0;
    while k < vc
        invariant
            len == b@.len(),
            vc == vertex_count(b@),
            io == indices_start(b@),
            io <= len,
            k <= vc,
            vertices@.len() == k,
            forall|j: int|
                0 <= j < k ==> vertex_words(#[trigger] vertices@[j]) == words_at(
                    b@,
                    WMESH_HEADER_SIZE + VERTEX_SIZE * j,
                    16,
                ),
        decreases vc - k,
    {
        vertices.push(read_vertex(b, (36 + 64 * k) as usize));
        k = k + 1;
    }
    let mut indices: Vec<u32> = Vec::new();
    k = 0;
    while k < ic
        invariant
            len == b@.len(),
            io == indices_start(b@),
            ic == index_count(b@),
            so == submeshes_start(b@),
            so <= len,
            k <= ic,
            indices@ == words_at(b@, io as int, k as int),
        decreases ic - k,
    {
        indices.push(read_u32(b, (io + 4 * k) as usize));
        proof {
            assert(indices@ =~= words_at(b@, io as int, k + 1));
        }
        k = k + 1;
    }
    let mut submeshes: Vec<WmeshSubmesh> = Vec::new();
    k = 0;
    while k < mc
        invariant
            len == b@.len(),
            so == submeshes_start(b@),
            mc == submesh_count(b@),
            bo == bones_start(b@),
            bo <= len,
            k <= mc,
            submeshes@.len() == k,
            forall|j: int|
                0 <= j < k ==> #[trigger] submeshes@[j] == submesh_at(
                    b@,
                    submeshes_start(b@) + SUBMESH_SIZE * j,
                ),
        decreases mc - k,
    {
        let p = (so + 12 * k) as usize;
        submeshes.push(
            WmeshSubmesh {
                index_offset: read_u32(b, p),
                index_count: read_u32(b, p + 4),
                material_id: read_u32(b, p + 8),
            },
        );
        k = k + 1;
    }
    let mut bone_matrices: Vec<[[u32; 4]; 4]> = Vec::new();
    let mut bone_weights: Vec<[u32; 4]> = Vec::new();
    let mut bone_indices: Vec<[u32; 4]> = Vec::new();
    if bones {
        k = 0;
        while k < mcount
            invariant
                len == b@.len(),
                bo == bones_start(b@),
                mcount == bone_matrix_count(b@),
                wo == weights_start(b@),
                wo <= len,
                k <= mcount,
                bone_matrices@.len() == k,
                forall|j: int|
                    0 <= j < k ==> matrix_words(#[trigger] bone_matrices@[j]) == words_at(
                        b@,
                        bones_start(b@) + BONE_MATRIX_SIZE * j,
                        16,
                    ),
            decreases mcount - k,
        {
            bone_matrices.push(read_matrix(b, (bo + 64 * k) as usize));
            k = k + 1;
        }
        k = 0;
        while k < vc
            invariant
                len == b@.len(),
                vc == vertex_count(b@),
                wo == weights_start(b@),
                we == weights_end(b@),
                we <= len,
                k <= vc,
                bone_weights@.len() == k,
                bone_indices@.len() == k,
                forall|j: int|
                    0 <= j < k ==> (#[trigger] bone_weights@[j])@ == words_at(
                        b@,
                        weights_start(b@) + BONE_WEIGHT_SIZE * j,
                        4,
                    ) && bone_indices@[j]@ == words_at(
                        b@,
                        weights_start(b@) + BONE_WEIGHT_SIZE * j + 16,
                        4,
                    ),
            decreases vc - k,
        {
            let p = (wo + 32 * k) as usize;
            bone_weights.push(read_words4(b, p));
            bone_indices.push(read_words4(b, p + 16));
            k = k + 1;
        }
    }
    let m = Wmesh { vertices, indices, submeshes, bone_matrices, bone_weights, bone_indices };
    proof {
        assert(wmesh_error(b@) is None);
        assert(m.vertices@.len() == vertex_count(b@));
        assert(m.indices@ == words_at(b@, indices_start(b@), index_count(b@)));
        assert(m.submeshes@.len() == submesh_count(b@));
        assert(decoded_from(m, b@));
    }
    Ok(m)
}

// --- Writing ------------------------------------------------------------------------------

/// Words in little-endian bytes.
pub open spec fn words_bytes(ws: Seq<u32>) -> Seq<u8>
    decreases ws.len(),
{
    if ws.len() == 0 {
        Seq::empty()
    } else {
        words_bytes(ws.drop_last()) + le32(ws.last())
    }
}

pub open spec fn vertex_data_words(v: VertexData) -> Seq<u32> {
    v.position@ + v.normal@ + v.uv@
}

/// A model vertex as stored: zero tangent, white color.
pub open spec fn stored_vertex_words(v: VertexData) -> Seq<u32> {
    vertex_data_words(v) + seq![F32_ZERO, F32_ZERO, F32_ZERO, F32_ZERO] + seq![
        F32_ONE,
        F32_ONE,
        F32_ONE,
        F32_ONE,
    ]
}

/// The vertices of one mesh as stored words.
pub open spec fn mesh_vertex_words(vs: Seq<VertexData>, k: int) -> Seq<u32>
    decreases k,
{
    if k <= 0 {
        Seq::empty()
    } else {
        mesh_vertex_words(vs, k - 1) + stored_vertex_words(vs[k - 1])
    }
}

/// The number of vertices of the first `m` meshes.
pub open spec fn vertex_offset(ms: Seq<MeshData>, m: int) -> int
    decreases m,
{
    if m <= 0 {
        0
    } else {
        vertex_offset(ms, m - 1) + ms[m - 1].vertices@.len()
    }
}

/// The number of indices of the first `m` meshes, as a 32-bit count.
pub open spec fn index_offset(ms: Seq<MeshData>, m: int) -> u32
    decreases m,
{
    if m <= 0 {
        0
    } else {
        vstd::wrapping::u32_specs::wrapping_add(
            index_offset(ms, m - 1),
            ms[m - 1].indices@.len() as u32,
        )
    }
}

/// Each index of mesh `m` moved past the vertices of the meshes before it.
pub open spec fn shifted_indices(ms: Seq<MeshData>, m: int) -> Seq<u32> {
    ms[m].indices@.map_values(|i: u32| (i + vertex_offset(ms, m)) as u32)
}

pub open spec fn all_vertex_words(ms: Seq<MeshData>, m: int) -> Seq<u32>
    decreases m,
{
    if m <= 0 {
        Seq::empty()
    } else {
        all_vertex_words(ms, m - 1) + mesh_vertex_words(
            ms[m - 1].vertices@,
            ms[m - 1].vertices@.len() as int,
        )
    }
}

pub open spec fn all_index_words(ms: Seq<MeshData>, m: int) -> Seq<u32>
    decreases m,
{
    if m <= 0 {
        Seq::empty()
    } else {
        all_index_words(ms, m - 1) + shifted_indices(ms, m - 1)
    }
}

pub open spec fn all_submesh_words(ms: Seq<MeshData>, m: int) -> Seq<u32>
    decreases m,
{
    if m <= 0 {
        Seq::empty()
    } else {
        all_submesh_words(ms, m - 1) + seq![
            index_offset(ms, m - 1),
            ms[m - 1].indices@.len() as u32,
            0u32,
        ]
    }
}

/// The words after the magic: version, counts, then every section.
pub open spec fn file_words(ms: Seq<MeshData>) -> Seq<u32> {
    let n = ms.len() as int;
    seq![
        WMESH_VERSION,
        vertex_offset(ms, n) as u32,
        index_offset(ms, n),
        n as u32,
        0u32,
        0u32,
        0u32,
    ] + all_vertex_words(ms, n) + all_index_words(ms, n) + all_submesh_words(ms, n)
}

/// The bytes of a mesh file holding `ms`.
pub open spec fn wmesh_image(ms: Seq<MeshData>) -> Seq<u8> {
    wmesh_magic() + words_bytes(file_words(ms))
}

/// The vertex counts add up to a 32-bit count, and no shifted index
/// overflows.
pub open spec fn offsets_fit(ms: Seq<MeshData>) -> bool {
    &&& vertex_offset(ms, ms.len() as int) <= u32::MAX
    &&& forall|m: int, j: int|
        0 <= m < ms.len() && 0 <= j < ms[m].indices@.len() ==> (#[trigger] ms[m].indices@[j])
            + vertex_offset(ms, m) <= u32::MAX
}

proof fn lemma_vertex_offset_mono(ms: Seq<MeshData>, a: int, b: int)
    requires
        0 <= a <= b <= ms.len(),
    ensures
        vertex_offset(ms, a) <= vertex_offset(ms, b),
    decreases b - a,
{
    if a < b {
        lemma_vertex_offset_mono(ms, a, b - 1);
    }
}

fn push_words(words: &mut Vec<u32>, src: &[u32])
    ensures
        final(words)@ == old(words)@ + src@,
{
    let n = src.len();
    let mut i: usize = 0;
    while i < n
        invariant
            n == src@.len(),
            i <= n,
            words@ == old(words)@ + src@.take(i as int),
        decreases n - i,
    {
        proof {
            assert(src@.take(i + 1) == src@.take(i as int).push(src@[i as int]));
        }
        words.push(src[i]);
        i = i + 1;
    }
    proof {
        assert(src@.take(n as int) == src@);
    }
}

/// The bytes of a mesh file holding the given models: their vertices with
/// zero tangents and white color, their indices moved past the vertices of
/// the models before them, and one submesh per model. At least one model is
/// needed.
pub fn encode_wmesh(meshes: &[MeshData]) -> (r: Result<Vec<u8>, WmeshError>)
    requires
        offsets_fit(meshes@),
    ensures
        match r {
            Ok(out) => meshes@.len() > 0 && out@ == wmesh_image(meshes@),
            Err(e) => meshes@.len() == 0 && e == WmeshError::NoMeshes,
        },
{
    let n = meshes.len();
    if n == 0 {
        return Err(WmeshError::NoMeshes);
    }
    let ghost ms = meshes@;
    // Totals.
    let mut total_v: u32 = 0;
    let mut total_i: u32 = 0;
    let mut m: usize = 0;
    while m < n
        invariant
            n == ms.len(),
            ms == meshes@,
            offsets_fit(ms),
            m <= n,
            total_v == vertex_offset(ms, m as int),
            total_i == index_offset(ms, m as int),
        decreases n - m,
    {
        proof {
            lemma_vertex_offset_mono(ms, m + 1, n as int);
        }
        total_v = total_v + meshes[m].vertices.len() as u32;
        total_i = total_i.wrapping_add(meshes[m].indices.len() as u32);
        m = m + 1;
    }
    let mut words: Vec<u32> = Vec::new();
    words.push(WMESH_VERSION);
    words.push(total_v);
    words.push(total_i);
    words.push(n as u32);
    words.push(0);
    words.push(0);
    words.push(0);
    let ghost head = words@;
    // Vertices.
    m = 0;
    while m < n
        invariant
            n == ms.len(),
            ms == meshes@,
            m <= n,
            words@ == head + all_vertex_words(ms, m as int),
        decreases n - m,
    {
        let vs = &meshes[m].vertices;
        let ghost before = words@;
        let mut k: usize = 0;
        while k < vs.len()
            invariant
                vs@ == ms[m as int].vertices@,
                k <= vs@.len(),
                words@ == before + mesh_vertex_words(vs@, k as int),
            decreases vs@.len() - k,
        {
            let v = &vs[k];
            push_words(&mut words, v.position.as_slice());
            push_words(&mut words, v.normal.as_slice());
            push_words(&mut words, v.uv.as_slice());
            words.push(F32_ZERO);
            words.push(F32_ZERO);
            words.push(F32_ZERO);
            words.push(F32_ZERO);
            words.push(F32_ONE);
            words.push(F32_ONE);
            words.push(F32_ONE);
            words.push(F32_ONE);
            proof {
                assert(words@ =~= before + mesh_vertex_words(vs@, k + 1));
            }
            k = k + 1;
        }
        proof {
            assert(words@ =~= head + all_vertex_words(ms, m + 1));
        }
        m = m + 1;
    }
    let ghost head2 = words@;
    // Indices.
    let mut voff: u32 = 0;
    m = 0;
    while m < n
        invariant
            n == ms.len(),
            ms == meshes@,
            offsets_fit(ms),
            m <= n,
            voff == vertex_offset(ms, m as int),
            words@ == head2 + all_index_words(ms, m as int),
        decreases n - m,
    {
        let is = &meshes[m].indices;
        let ghost before = words@;
        let mut k: usize = 0;
        while k < is.len()
            invariant
                is@ == ms[m as int].indices@,
                offsets_fit(ms),
                0 <= m < ms.len(),
                voff == vertex_offset(ms, m as int),
                k <= is@.len(),
                words@ == before + shifted_indices(ms, m as int).take(k as int),
            decreases is@.len() - k,
        {
            proof {
                assert(is@[k as int] == ms[m as int].indices@[k as int]);
            }
            words.push(is[k] + voff);
            proof {
                assert(shifted_indices(ms, m as int).take(k + 1) =~= shifted_indices(ms, m as int).take(
                    k as int,
                ).push((is@[k as int] + voff) as u32));
            }
            k = k + 1;
        }
        proof {
            assert(shifted_indices(ms, m as int).take(is@.len() as int) =~= shifted_indices(ms, m as int));
            assert(words@ =~= head2 + all_index_words(ms, m + 1));
            lemma_vertex_offset_mono(ms, m + 1, n as int);
        }
        voff = voff + meshes[m].vertices.len() as u32;
        m = m + 1;
    }
    let ghost head3 = words@;
    // Submeshes.
    let mut ioff: u32 = 0;
    m = 0;
    while m < n
        invariant
            n == ms.len(),
            ms == meshes@,
            m <= n,
            ioff == index_offset(ms, m as int),
            words@ == head3 + all_submesh_words(ms, m as int),
        decreases n - m,
    {
        let cnt = meshes[m].indices.len() as u32;
        words.push(ioff);
        words.push(cnt);
        words.push(0);
        proof {
            assert(words@ =~= head3 + all_submesh_words(ms, m + 1));
        }
        ioff = ioff.wrapping_add(cnt);
        m = m + 1;
    }
    proof {
        assert(words@ =~= file_words(ms));
    }
    // Bytes.
    let mut out: Vec<u8> = Vec::new();
    out.push(0x57u8);
    out.push(0x4Du8);
    out.push(0x45u8);
    out.push(0x53u8);
    out.push(0x48u8);
    out.push(0u8);
    out.push(0u8);
    out.push(0u8);
    proof {
        assert(out@ =~= wmesh_magic());
    }
    let mut i: usize = 0;
    while i < words.len()
        invariant
            i <= words@.len(),
            out@ == wmesh_magic() + words_bytes(words@.take(i as int)),
        decreases words@.len() - i,
    {
        let ghost before = out@;
        push_le32(&mut out, words[i]);
        proof {
            let t = words@.take(i + 1);
            assert(t.drop_last() =~= words@.take(i as int));
            assert(out@ =~= wmesh_magic() + words_bytes(t));
        }
        i = i + 1;
    }
    proof {
        assert(words@.take(words@.len() as int) =~= words@);
    }
    Ok(out)
}

// --- Splitting a mesh file into models ------------------------------------------------

/// The decimal digits of `n`.
pub open spec fn decimal(n: nat) -> Seq<char>
    decreases n,
{
    if n < 10 {
        seq![digit_char(n)]
    } else {
        decimal(n / 10).push(digit_char(n % 10))
    }
}

pub open spec fn digit_char(d: nat) -> char {
    if d == 0 {
        '0'
    } else if d == 1 {
        '1'
    } else if d == 2 {
        '2'
    } else if d == 3 {
        '3'
    } else if d == 4 {
        '4'
    } else if d == 5 {
        '5'
    } else if d == 6 {
        '6'
    } else if d == 7 {
        '7'
    } else if d == 8 {
        '8'
    } else {
        '9'
    }
}

fn digit(d: usize) -> (c: char)
    requires
        d < 10,
    ensures
        c == digit_char(d as nat),
{
    match d {
        0 => '0',
        1 => '1',
        2 => '2',
        3 => '3',
        4 => '4',
        5 => '5',
        6 => '6',
        7 => '7',
        8 => '8',
        _ => '9',
    }
}

pub(crate) fn push_decimal(out: &mut Vec<char>, n: usize)
    ensures
        final(out)@ == old(out)@ + decimal(n as nat),
    decreases n,
{
    if n >= 10 {
        push_decimal(out, n / 10);
    }
    out.push(digit(n % 10));
    proof {
        if n >= 10 {
            assert(final(out)@ =~= old(out)@ + decimal(n as nat));
        } else {
            assert(final(out)@ =~= old(out)@ + decimal(n as nat));
        }
    }
}

/// The name of model `i` of `count` cut from a file named `name`.
pub open spec fn submesh_name(name: Seq<char>, i: nat, count: nat) -> Seq<char> {
    if count > 1 {
        name + seq!['_'] + decimal(i)
    } else {
        name
    }
}

/// The indices of a submesh, relative to its index offset.
pub open spec fn sub_indices(w: Wmesh, s: WmeshSubmesh) -> Seq<u32> {
    w.indices@.subrange(s.index_offset as int, s.index_offset + s.index_count).map_values(
        |x: u32| (x - s.index_offset) as u32,
    )
}

/// The vertices below `k` that the relative indices use, in order.
pub open spec fn kept_vertices(sub: Seq<u32>, k: int) -> Seq<int>
    decreases k,
{
    if k <= 0 {
        Seq::empty()
    } else {
        kept_vertices(sub, k - 1) + if k - 1 <= u32::MAX && sub.contains((k - 1) as u32) {
            seq![k - 1]
        } else {
            Seq::<int>::empty()
        }
    }
}

/// A submesh whose index range lies in the index list and whose indices,
/// taken relative to its offset, name vertices.
pub open spec fn submesh_in_range(w: Wmesh, s: WmeshSubmesh) -> bool {
    &&& s.index_offset + s.index_count <= w.indices@.len()
    &&& forall|j: int|
        s.index_offset <= j < s.index_offset + s.index_count ==> s.index_offset <= #[trigger] w.indices@[j]
            && w.indices@[j] - s.index_offset < w.vertices@.len()
}

/// The model cut from submesh `s`: the vertices it uses, in order, and its
/// indices renumbered to them.
pub open spec fn cut_model(m: MeshData, w: Wmesh, s: WmeshSubmesh) -> bool {
    let sub = sub_indices(w, s);
    let kept = kept_vertices(sub, w.vertices@.len() as int);
    &&& m.vertices@.len() == kept.len()
    &&& forall|k: int|
        0 <= k < kept.len() ==> vertex_data_words(#[trigger] m.vertices@[k]) == vertex_words(
            w.vertices@[kept[k]],
        ).take(8)
    &&& m.indices@ == sub.map_values(|x: u32| kept_vertices(sub, x as int).len() as u32)
}

proof fn lemma_kept_prefix(sub: Seq<u32>, a: int, b: int)
    requires
        0 <= a <= b,
    ensures
        kept_vertices(sub, a).len() <= kept_vertices(sub, b).len(),
        forall|k: int| 0 <= k < kept_vertices(sub, a).len() ==> #[trigger] kept_vertices(sub, a)[k] == kept_vertices(sub, b)[k],
    decreases b - a,
{
    if a < b {
        lemma_kept_prefix(sub, a, b - 1);
    }
}

fn cut_submesh(w: &Wmesh, s: WmeshSubmesh, name: String) -> (m: MeshData)
    requires
        submesh_in_range(*w, s),
    ensures
        m.name@ == name@,
        cut_model(m, *w, s),
{
    let nv = w.vertices.len();
    let off = s.index_offset as usize;
    let cnt = s.index_count as usize;
    let ilen = w.indices.len();
    let mut sub: Vec<u32> = Vec::new();
    let mut j: usize = 0;
    while j < cnt
        invariant
            submesh_in_range(*w, s),
            ilen == w.indices@.len(),
            off + cnt <= ilen,
            off == s.index_offset,
            cnt == s.index_count,
            j <= cnt,
            sub@ == sub_indices(*w, s).take(j as int),
        decreases cnt - j,
    {
        let x = w.indices[off + j];
        sub.push(x - s.index_offset);
        proof {
            assert(sub_indices(*w, s).take(j + 1) =~= sub_indices(*w, s).take(j as int).push(
                (x - s.index_offset) as u32,
            ));
        }
        j = j + 1;
    }
    proof {
        assert(sub_indices(*w, s).take(cnt as int) =~= sub_indices(*w, s));
    }
    let ghost subv = sub@;
    let mut used: Vec<bool> = vec![false; nv];
    j = 0;
    while j < cnt
        invariant
            subv == sub@,
            subv == sub_indices(*w, s),
            submesh_in_range(*w, s),
            cnt == subv.len(),
            nv == w.vertices@.len(),
            used@.len() == nv,
            j <= cnt,
            forall|v: int| 0 <= v < nv ==> #[trigger] used@[v] == (v <= u32::MAX && subv.take(j as int).contains(v as u32)),
        decreases cnt - j,
    {
        let x = sub[j];
        proof {
            assert(w.indices@[s.index_offset + j] - s.index_offset < nv);
        }
        let ghost old_used = used@;
        used.set(x as usize, true);
        proof {
            let t0 = subv.take(j as int);
            let t1 = subv.take(j + 1);
            assert(t1 =~= t0.push(x));
            assert forall|v: int| 0 <= v < nv implies #[trigger] used@[v] == (v <= u32::MAX && t1.contains(v as u32)) by {
                if v == x as int {
                    assert(t1[j as int] == x);
                } else {
                    assert(used@[v] == old_used[v]);
                    if v <= u32::MAX && t1.contains(v as u32) {
                        let q = choose|q: int| 0 <= q < t1.len() && #[trigger] t1[q] == v as u32;
                        assert(q != j);
                        assert(t0[q] == v as u32);
                    }
                    if v <= u32::MAX && t0.contains(v as u32) {
                        let q = choose|q: int| 0 <= q < t0.len() && #[trigger] t0[q] == v as u32;
                        assert(t1[q] == v as u32);
                    }
                }
            }
        }
        j = j + 1;
    }
    proof {
        assert(subv.take(cnt as int) =~= subv);
    }
    let mut remap: Vec<u32> = vec![0u32; nv];
    let mut verts: Vec<VertexData> = Vec::new();
    let mut vi: usize = 0;
    while vi < nv
        invariant
            subv == sub_indices(*w, s),
            nv == w.vertices@.len(),
            used@.len() == nv,
            remap@.len() == nv,
            forall|v: int| 0 <= v < nv ==> #[trigger] used@[v] == (v <= u32::MAX && subv.contains(v as u32)),
            vi <= nv,
            verts@.len() == kept_vertices(subv, vi as int).len(),
            forall|k: int|
                0 <= k < verts@.len() ==> vertex_data_words(#[trigger] verts@[k]) == vertex_words(
                    w.vertices@[kept_vertices(subv, vi as int)[k]],
                ).take(8),
            forall|v: int|
                0 <= v < vi && used@[v] ==> #[trigger] remap@[v] == kept_vertices(subv, v).len() as u32,
        decreases nv - vi,
    {
        proof {
            lemma_kept_prefix(subv, vi as int, vi + 1);
        }
        if used[vi] {
            remap.set(vi, verts.len() as u32);
            let v = &w.vertices[vi];
            let d = VertexData { position: v.position, normal: v.normal, uv: v.uv };
            proof {
                assert(vertex_data_words(d) =~= vertex_words(*v).take(8));
            }
            verts.push(d);
        }
        vi = vi + 1;
    }
    let mut idx: Vec<u32> = Vec::new();
    j = 0;
    while j < cnt
        invariant
            subv == sub@,
            subv == sub_indices(*w, s),
            submesh_in_range(*w, s),
            cnt == subv.len(),
            nv == w.vertices@.len(),
            used@.len() == nv,
            remap@.len() == nv,
            forall|v: int| 0 <= v < nv ==> #[trigger] used@[v] == (v <= u32::MAX && subv.contains(v as u32)),
            forall|v: int|
                0 <= v < nv && used@[v] ==> #[trigger] remap@[v] == kept_vertices(subv, v).len() as u32,
            j <= cnt,
            idx@ == subv.take(j as int).map_values(|x: u32| kept_vertices(subv, x as int).len() as u32),
        decreases cnt - j,
    {
        let x = sub[j];
        proof {
            assert(w.indices@[s.index_offset + j] - s.index_offset < nv);
            assert(subv.contains(x));
        }
        idx.push(remap[x as usize]);
        proof {
            assert(subv.take(j + 1).map_values(|x: u32| kept_vertices(subv, x as int).len() as u32)
                =~= subv.take(j as int).map_values(|x: u32| kept_vertices(subv, x as int).len() as u32).push(
                kept_vertices(subv, x as int).len() as u32,
            ));
        }
        j = j + 1;
    }
    proof {
        assert(subv.take(cnt as int) =~= subv);
    }
    MeshData { name, vertices: verts, indices: idx }
}

/// Cut a mesh file into one model per submesh, keeping only the vertices
/// each uses. With several submeshes, model `i` is named `<name>_<i>`.
pub fn wmesh_to_meshes(wmesh: &Wmesh, name: &str) -> (r: Vec<MeshData>)
    requires
        forall|i: int|
            0 <= i < wmesh.submeshes@.len() ==> submesh_in_range(*wmesh, #[trigger] wmesh.submeshes@[i]),
    ensures
        r@.len() == wmesh.submeshes@.len(),
        forall|i: int|
            0 <= i < r@.len() ==> (#[trigger] r@[i]).name@ == submesh_name(
                name@,
                i as nat,
                wmesh.submeshes@.len(),
            ) && cut_model(r@[i], *wmesh, wmesh.submeshes@[i]),
{
    let n = wmesh.submeshes.len();
    let base = chars_of(name);
    let mut out: Vec<MeshData> = Vec::new();
    let mut i: usize = 0;
    while i < n
        invariant
            n == wmesh.submeshes@.len(),
            base@ == name@,
            forall|i: int|
                0 <= i < wmesh.submeshes@.len() ==> submesh_in_range(*wmesh, #[trigger] wmesh.submeshes@[i]),
            i <= n,
            out@.len() == i,
            forall|k: int|
                0 <= k < i ==> (#[trigger] out@[k]).name@ == submesh_name(name@, k as nat, n as nat)
                    && cut_model(out@[k], *wmesh, wmesh.submeshes@[k]),
        decreases n - i,
    {
        let mut cs = base.clone();
        proof {
            assert(cs@ == base@);
        }
        if n > 1 {
            cs.push('_');
            push_decimal(&mut cs, i);
        }
        let sub_name = string_from_chars(&cs);
        proof {
            if n > 1 {
                assert(sub_name@ =~= submesh_name(name@, i as nat, n as nat));
            }
        }
        let m = cut_submesh(wmesh, wmesh.submeshes[i], sub_name);
        out.push(m);
        i = i + 1;
    }
    out
}

} // verus!
