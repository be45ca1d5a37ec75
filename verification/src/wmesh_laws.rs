//! Writing models to a mesh file and reading it back.

use vstd::prelude::*;

use crate::wmap::lemma_le32_reads;
use crate::wmesh::{
    all_index_words, all_submesh_words, all_vertex_words, decoded_from, file_words, index_offset,
    mesh_vertex_words, offsets_fit, vertex_offset, vertex_words, wmesh_error, wmesh_image,
    wmesh_magic, words_bytes, MeshData, Wmesh, WmeshSubmesh, WMESH_VERSION,
};
use crate::wpak::u32_at;
use crate::wpak_build::le32;

verus! {

/// Words written little-endian read back one by one.
proof fn lemma_words_bytes(ws: Seq<u32>)
    ensures
        words_bytes(ws).len() == 4 * ws.len(),
        forall|i: int| 0 <= i < ws.len() ==> #[trigger] u32_at(words_bytes(ws), 4 * i) == ws[i],
    decreases ws.len(),
{
    lemma_le32_reads();
    if ws.len() > 0 {
        let d = ws.drop_last();
        lemma_words_bytes(d);
        let a = words_bytes(d);
        let b = words_bytes(ws);
        assert(b == a + le32(ws.last()));
        assert forall|i: int| 0 <= i < ws.len() implies #[trigger] u32_at(b, 4 * i) == ws[i] by {
            if i < ws.len() - 1 {
                assert(b.subrange(4 * i, 4 * i + 4) =~= a.subrange(4 * i, 4 * i + 4));
                assert(u32_at(a, 4 * i) == d[i]);
            } else {
                assert(b.subrange(4 * i, 4 * i + 4) =~= le32(ws.last()));
            }
        }
    }
}

/// The image read at word `i` after the magic.
proof fn lemma_image_word(ms: Seq<MeshData>, i: int)
    requires
        0 <= i < file_words(ms).len(),
    ensures
        wmesh_image(ms).len() == 8 + 4 * file_words(ms).len(),
        u32_at(wmesh_image(ms), 8 + 4 * i) == file_words(ms)[i],
{
    let ws = file_words(ms);
    lemma_words_bytes(ws);
    let b = wmesh_image(ms);
    assert(b.subrange(8 + 4 * i, 8 + 4 * i + 4) =~= words_bytes(ws).subrange(4 * i, 4 * i + 4));
    assert(u32_at(words_bytes(ws), 4 * i) == ws[i]);
}

/// The number of indices of the first `m` models.
pub open spec fn index_total(ms: Seq<MeshData>, m: int) -> int
    decreases m,
{
    if m <= 0 {
        0
    } else {
        index_total(ms, m - 1) + ms[m - 1].indices@.len()
    }
}

proof fn lemma_mesh_vertex_words_len(vs: Seq<crate::wmesh::VertexData>, k: int)
    requires
        0 <= k,
    ensures
        mesh_vertex_words(vs, k).len() == 16 * k,
    decreases k,
{
    if k > 0 {
        lemma_mesh_vertex_words_len(vs, k - 1);
    }
}

proof fn lemma_section_lens(ms: Seq<MeshData>, m: int)
    requires
        0 <= m <= ms.len(),
    ensures
        all_vertex_words(ms, m).len() == 16 * vertex_offset(ms, m),
        all_index_words(ms, m).len() == index_total(ms, m),
        all_submesh_words(ms, m).len() == 3 * m,
        index_total(ms, m) >= 0,
        vertex_offset(ms, m) >= 0,
        index_total(ms, m) <= u32::MAX ==> index_offset(ms, m) == index_total(ms, m),
    decreases m,
{
    if m > 0 {
        lemma_section_lens(ms, m - 1);
        lemma_mesh_vertex_words_len(ms[m - 1].vertices@, ms[m - 1].vertices@.len() as int);
        if index_total(ms, m) <= u32::MAX {
            assert(ms[m - 1].indices@.len() <= u32::MAX);
        }
    }
}

proof fn lemma_submesh_words(ms: Seq<MeshData>, m: int, k: int)
    requires
        0 <= k < m <= ms.len(),
    ensures
        all_submesh_words(ms, m)[3 * k] == index_offset(ms, k),
        all_submesh_words(ms, m)[3 * k + 1] == ms[k].indices@.len() as u32,
        all_submesh_words(ms, m)[3 * k + 2] == 0,
    decreases m,
{
    lemma_section_lens(ms, m - 1);
    if k < m - 1 {
        lemma_submesh_words(ms, m - 1, k);
    }
}

/// Reading back the file written for some models gives no error, and the
/// mesh read holds, vertex by vertex, the models' vertices (with zero
/// tangents and white color), their indices moved past the vertices of the
/// models before them, and one submesh per model with its index range and
/// material 0, and no bones. This holds when the counts and shifted indices
/// fit in 32 bits.
pub proof fn lemma_wmesh_round_trip(ms: Seq<MeshData>, m: Wmesh)
    requires
        offsets_fit(ms),
        0 < ms.len() <= u32::MAX,
        index_total(ms, ms.len() as int) <= u32::MAX,
    ensures
        wmesh_error(wmesh_image(ms)) is None,
        decoded_from(m, wmesh_image(ms)) ==> {
            &&& m.vertices@.len() == vertex_offset(ms, ms.len() as int)
            &&& forall|k: int|
                0 <= k < m.vertices@.len() ==> vertex_words(#[trigger] m.vertices@[k])
                    == all_vertex_words(ms, ms.len() as int).subrange(16 * k, 16 * k + 16)
            &&& m.indices@ == all_index_words(ms, ms.len() as int)
            &&& m.submeshes@.len() == ms.len()
            &&& forall|k: int|
                0 <= k < ms.len() ==> #[trigger] m.submeshes@[k] == (WmeshSubmesh {
                    index_offset: index_offset(ms, k),
                    index_count: ms[k].indices@.len() as u32,
                    material_id: 0,
                })
            &&& m.bone_matrices@.len() == 0
            &&& m.bone_weights@.len() == 0
            &&& m.bone_indices@.len() == 0
        },
{
    let n = ms.len() as int;
    let b = wmesh_image(ms);
    let ws = file_words(ms);
    lemma_section_lens(ms, n);
    let vc = vertex_offset(ms, n);
    let ic = index_total(ms, n);
    let vw = all_vertex_words(ms, n);
    let iw = all_index_words(ms, n);
    let sw = all_submesh_words(ms, n);
    assert(ws.len() == 7 + 16 * vc + ic + 3 * n);
    lemma_words_bytes(ws);
    assert(b.len() == 8 + 4 * ws.len());
    assert(b.subrange(0, 8) =~= wmesh_magic());
    lemma_image_word(ms, 0);
    lemma_image_word(ms, 1);
    lemma_image_word(ms, 2);
    lemma_image_word(ms, 3);
    lemma_image_word(ms, 6);
    assert(u32_at(b, 8) == WMESH_VERSION);
    assert(u32_at(b, 12) == vc);
    assert(u32_at(b, 16) == ic);
    assert(u32_at(b, 20) == n);
    assert(u32_at(b, 32) == 0);
    assert(wmesh_error(b) is None);
    if decoded_from(m, b) {
        assert forall|k: int| 0 <= k < m.vertices@.len() implies vertex_words(#[trigger] m.vertices@[k])
            == vw.subrange(16 * k, 16 * k + 16) by {
            let wa = crate::wmesh::words_at(b, 36 + 64 * k, 16);
            let vs = vw.subrange(16 * k, 16 * k + 16);
            assert forall|j: int| 0 <= j < 16 implies #[trigger] wa[j] == vs[j] by {
                lemma_image_word(ms, 7 + 16 * k + j);
                assert(8 + 4 * (7 + 16 * k + j) == 36 + 64 * k + 4 * j);
                assert(ws[7 + 16 * k + j] == vw[16 * k + j]);
            }
            assert(crate::wmesh::words_at(b, 36 + 64 * k, 16) =~= vw.subrange(16 * k, 16 * k + 16));
        }
        assert forall|j: int| 0 <= j < ic implies #[trigger] m.indices@[j] == iw[j] by {
            lemma_image_word(ms, 7 + 16 * vc + j);
            assert(8 + 4 * (7 + 16 * vc + j) == 36 + 64 * vc + 4 * j);
            assert(ws[7 + 16 * vc + j] == iw[j]);
            assert(m.indices@[j] == crate::wmesh::words_at(b, 36 + 64 * vc, ic)[j]);
        }
        assert(m.indices@ =~= iw);
        assert forall|k: int| 0 <= k < n implies #[trigger] m.submeshes@[k] == (WmeshSubmesh {
            index_offset: index_offset(ms, k),
            index_count: ms[k].indices@.len() as u32,
            material_id: 0,
        }) by {
            lemma_submesh_words(ms, n, k);
            let base = 7 + 16 * vc + ic + 3 * k;
            lemma_image_word(ms, base);
            lemma_image_word(ms, base + 1);
            lemma_image_word(ms, base + 2);
            assert(8 + 4 * base == 36 + 64 * vc + 4 * ic + 12 * k);
            assert(ws[base] == sw[3 * k]);
            assert(ws[base + 1] == sw[3 * k + 1]);
            assert(ws[base + 2] == sw[3 * k + 2]);
        }
    }
}

} // verus!
