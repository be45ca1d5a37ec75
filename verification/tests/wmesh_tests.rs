use waraner_client::wmesh::{decode_wmesh, encode_wmesh, wmesh_to_meshes, MeshData, VertexData, WmeshError};

fn vertex(x: f32) -> VertexData {
    VertexData {
        position: [x.to_bits(), 0.0f32.to_bits(), 1.0f32.to_bits()],
        normal: [0.0f32.to_bits(), 1.0f32.to_bits(), 0.0f32.to_bits()],
        uv: [0.5f32.to_bits(), 0.25f32.to_bits()],
    }
}

fn triangle(name: &str, base: f32) -> MeshData {
    MeshData {
        name: name.to_string(),
        vertices: vec![vertex(base), vertex(base + 1.0), vertex(base + 2.0)],
        indices: vec![0, 1, 2],
    }
}

#[test]
fn single_mesh_round_trip() {
    let bytes = encode_wmesh(&[triangle("tri", 0.0)]).unwrap();
    assert_eq!(&bytes[..8], b"WMESH\0\0\0");
    assert_eq!(bytes.len(), 36 + 3 * 64 + 3 * 4 + 12);
    let m = decode_wmesh(&bytes).unwrap();
    assert_eq!(m.vertices.len(), 3);
    assert_eq!(m.indices, vec![0, 1, 2]);
    assert_eq!(m.submeshes.len(), 1);
    assert_eq!(m.submeshes[0].index_count, 3);
    assert_eq!(m.vertices[1].position[0], 1.0f32.to_bits());
    assert_eq!(m.vertices[0].color, [1.0f32.to_bits(); 4]);
    assert_eq!(m.vertices[0].tangent, [0u32; 4]);
    assert!(m.bone_matrices.is_empty());

    let meshes = wmesh_to_meshes(&m, "tri");
    assert_eq!(meshes.len(), 1);
    assert_eq!(meshes[0].name, "tri");
    assert_eq!(meshes[0].vertices.len(), 3);
    assert_eq!(meshes[0].indices, vec![0, 1, 2]);
}

#[test]
fn two_meshes_get_shifted_indices_and_numbered_names() {
    let bytes = encode_wmesh(&[triangle("a", 0.0), triangle("b", 10.0)]).unwrap();
    let m = decode_wmesh(&bytes).unwrap();
    assert_eq!(m.indices, vec![0, 1, 2, 3, 4, 5]);
    assert_eq!(m.submeshes[1].index_offset, 3);
    let meshes = wmesh_to_meshes(&m, "model");
    assert_eq!(meshes.len(), 2);
    assert_eq!(meshes[0].name, "model_0");
    assert_eq!(meshes[1].name, "model_1");
    assert_eq!(meshes[1].indices, vec![0, 1, 2]);
}

#[test]
fn unused_vertices_are_dropped() {
    let mesh = MeshData {
        name: "quad".to_string(),
        vertices: vec![vertex(0.0), vertex(1.0), vertex(2.0), vertex(3.0)],
        indices: vec![3, 1, 3],
    };
    let m = decode_wmesh(&encode_wmesh(&[mesh]).unwrap()).unwrap();
    let meshes = wmesh_to_meshes(&m, "quad");
    assert_eq!(meshes[0].vertices.len(), 2);
    assert_eq!(meshes[0].vertices[0].position[0], 1.0f32.to_bits());
    assert_eq!(meshes[0].indices, vec![1, 0, 1]);
}

#[test]
fn no_meshes_is_an_error() {
    assert_eq!(encode_wmesh(&[]).err(), Some(WmeshError::NoMeshes));
}

#[test]
fn decode_errors() {
    assert_eq!(decode_wmesh(&[0u8; 10]).err(), Some(WmeshError::TruncatedHeader));
    let good = encode_wmesh(&[triangle("tri", 0.0)]).unwrap();
    let mut bad = good.clone();
    bad[0] = b'X';
    assert_eq!(decode_wmesh(&bad).err(), Some(WmeshError::BadMagic));
    let mut newer = good.clone();
    newer[8] = 2;
    assert_eq!(decode_wmesh(&newer).err(), Some(WmeshError::UnsupportedVersion(2)));
    assert_eq!(decode_wmesh(&good[..100]).err(), Some(WmeshError::TruncatedVertices));
    assert_eq!(decode_wmesh(&good[..36 + 192 + 4]).err(), Some(WmeshError::TruncatedIndices));
    assert_eq!(decode_wmesh(&good[..good.len() - 1]).err(), Some(WmeshError::TruncatedSubmeshes));
}

#[test]
fn submesh_indices_are_taken_relative_to_their_index_offset() {
    // Four vertices but three indices: the second submesh's index offset (3)
    // differs from its vertex offset (4).
    let quad = MeshData {
        name: "a".to_string(),
        vertices: vec![vertex(0.0), vertex(1.0), vertex(2.0), vertex(3.0)],
        indices: vec![0, 1, 2],
    };
    let bytes = encode_wmesh(&[quad, triangle("b", 10.0)]).unwrap();
    let m = decode_wmesh(&bytes).unwrap();
    assert_eq!(m.vertices.len(), 7);
    assert_eq!(m.indices, vec![0, 1, 2, 4, 5, 6]);
    assert_eq!(m.submeshes[1].index_offset, 3);
    assert_eq!(m.submeshes[1].index_count, 3);
    let meshes = wmesh_to_meshes(&m, "model");
    assert_eq!(meshes[0].vertices.len(), 3);
    // Stored indices 4, 5, 6 less the index offset 3 name vertices 1, 2, 3.
    assert_eq!(meshes[1].indices, vec![0, 1, 2]);
    let xs: Vec<u32> = meshes[1].vertices.iter().map(|v| v.position[0]).collect();
    assert_eq!(xs, vec![1.0f32.to_bits(), 2.0f32.to_bits(), 3.0f32.to_bits()]);
}
