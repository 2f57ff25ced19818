use binary_greedy_mesher_demo_rs::data::rle::decompress_to_voxels_and_opaque_mask;
use binary_greedy_mesher_demo_rs::data::rle::rle_encode_sparse_trailing_zeros;
use binary_greedy_mesher_demo_rs::get_zxy_index;
use binary_greedy_mesher_demo_rs::mesher::mesh;
use binary_greedy_mesher_demo_rs::mesher::MeshData;
use binary_greedy_mesher_demo_rs::mesher::QuadData;
use binary_greedy_mesher_demo_rs::CS_P3;
use binary_greedy_mesher_demo_rs::CS;

/// Runs a voxel volume through the codec and the mesher.
fn mesh_volume(voxels: &Vec<u8>) -> MeshData {
    let rle = rle_encode_sparse_trailing_zeros(voxels);
    let mut redecoded = vec![0u8; CS_P3];
    let mut md = MeshData::new(64);
    decompress_to_voxels_and_opaque_mask(&rle, &mut redecoded, &mut md.opaque_mask).unwrap();
    assert_eq!(&redecoded, voxels);
    mesh(&redecoded, &mut md);
    md
}

/// Unpacks the geometry fields of a quad record.
fn fields(q: QuadData) -> (u32, u32, u32, u32, u32, u32) {
    let d = q.quad_data1;
    (d & 63, (d >> 6) & 63, (d >> 12) & 63, (d >> 18) & 63, (d >> 24) & 63, q.quad_data2)
}

fn face_quads(md: &MeshData, face: usize) -> Vec<QuadData> {
    let b = md.face_vertex_begin[face];
    let l = md.face_vertex_length[face];
    md.vertices[b..b + l].to_vec()
}

fn total_quads(md: &MeshData) -> usize {
    (0..6).map(|f| md.face_vertex_length[f]).sum()
}

#[test]
fn empty_chunk_yields_no_quads() {
    let voxels = vec![0u8; CS_P3];
    let md = mesh_volume(&voxels);
    assert_eq!(md.vertices.len(), 0);
    for f in 0..6 {
        assert_eq!(md.face_vertex_length[f], 0);
    }
}

#[test]
fn single_voxel_yields_six_unit_quads() {
    let (x0, y0, z0) = (5u32, 7u32, 9u32);
    let mut voxels = vec![0u8; CS_P3];
    voxels[get_zxy_index(x0 as usize, y0 as usize, z0 as usize)] = 3;
    let md = mesh_volume(&voxels);

    assert_eq!(total_quads(&md), 6);
    for f in 0..6 {
        assert_eq!(md.face_vertex_length[f], 1, "face {f}");
        let (_, _, _, w, h, ty) = fields(face_quads(&md, f)[0]);
        assert_eq!((w, h), (1, 1), "face {f}");
        assert_eq!(ty, 3, "face {f}");
    }

    // Exact positions, face by face: positive-direction faces sit on the far
    // side of the cell, negative ones on the near side.
    let expect = [
        (x0 - 1, y0, z0 - 1),      // +Y
        (x0, y0 - 1, z0 - 1),      // -Y
        (x0, y0, z0 - 1),          // +X
        (x0 - 1, y0 - 1, z0 - 1),  // -X
        (x0, y0 - 1, z0),          // +Z
        (x0 - 1, y0 - 1, z0 - 1),  // -Z
    ];
    for f in 0..6 {
        let (x, y, z, _, _, _) = fields(face_quads(&md, f)[0]);
        assert_eq!((x, y, z), expect[f], "face {f}");
    }
}

#[test]
fn slab_merges_to_one_quad_per_face() {
    // A one-cell-thick solid floor spanning the whole interior.
    let mut voxels = vec![0u8; CS_P3];
    for z in 1..=CS {
        for x in 1..=CS {
            voxels[get_zxy_index(x, 1, z)] = 1;
        }
    }
    let md = mesh_volume(&voxels);
    assert_eq!(total_quads(&md), 6);
    for f in 0..6 {
        assert_eq!(md.face_vertex_length[f], 1, "face {f}");
    }
    // Top and bottom cover the whole slab.
    for f in 0..2 {
        let (_, _, _, w, h, ty) = fields(face_quads(&md, f)[0]);
        assert_eq!(w as usize * h as usize, CS * CS, "face {f}");
        assert_eq!(ty, 1);
    }
}

#[test]
fn full_chunk_yields_one_quad_per_face() {
    let mut voxels = vec![0u8; CS_P3];
    for y in 1..=CS {
        for z in 1..=CS {
            for x in 1..=CS {
                voxels[get_zxy_index(x, y, z)] = 1;
            }
        }
    }
    let md = mesh_volume(&voxels);
    assert_eq!(total_quads(&md), 6);
    let expect = [
        (0u32, 62u32, 0u32),  // +Y on the top plane
        (62, 0, 0),           // -Y on the bottom plane
        (62, 62, 0),          // +X on the far row plane
        (0, 0, 0),            // -X
        (62, 0, 62),          // +Z on the far depth plane
        (0, 0, 0),            // -Z
    ];
    for f in 0..6 {
        assert_eq!(md.face_vertex_length[f], 1, "face {f}");
        let (x, y, z, w, h, ty) = fields(face_quads(&md, f)[0]);
        assert_eq!((w, h), (62, 62), "face {f}");
        assert_eq!(ty, 1, "face {f}");
        assert_eq!((x, y, z), expect[f], "face {f}");
    }
}

#[test]
fn material_boundary_stops_merging() {
    // Two cells adjacent along the depth axis, same everything but material.
    let mut voxels = vec![0u8; CS_P3];
    voxels[get_zxy_index(5, 7, 9)] = 1;
    voxels[get_zxy_index(5, 7, 10)] = 2;
    let md = mesh_volume(&voxels);

    // The shared faces are culled; no remaining face pair merges.
    assert_eq!(md.face_vertex_length[0], 2); // +Y: one quad per material
    assert_eq!(md.face_vertex_length[1], 2); // -Y
    assert_eq!(md.face_vertex_length[2], 2); // +X
    assert_eq!(md.face_vertex_length[3], 2); // -X
    assert_eq!(md.face_vertex_length[4], 1); // +Z: only the far cell shows
    assert_eq!(md.face_vertex_length[5], 1); // -Z: only the near cell shows
    assert_eq!(total_quads(&md), 10);

    // Every quad carries the material of the cell it covers.
    for f in 0..6 {
        for q in face_quads(&md, f) {
            let (_, _, _, w, h, ty) = fields(q);
            assert_eq!((w, h), (1, 1));
            assert!(ty == 1 || ty == 2);
        }
    }

    // The same pair with one material merges where the boundary blocked it.
    let mut same = vec![0u8; CS_P3];
    same[get_zxy_index(5, 7, 9)] = 1;
    same[get_zxy_index(5, 7, 10)] = 1;
    let md_same = mesh_volume(&same);
    assert_eq!(total_quads(&md_same), 6);
}

#[test]
fn meshing_is_deterministic() {
    let mut voxels = vec![0u8; CS_P3];
    for z in 1..=CS {
        for x in 1..=CS {
            for y in 1..=(1 + (x * 3 + z * 5) % 9) {
                voxels[get_zxy_index(x, y, z)] = ((x * z) % 6 + 1) as u8;
            }
        }
    }
    let md1 = mesh_volume(&voxels);
    let md2 = mesh_volume(&voxels);
    assert_eq!(md1.vertices.len(), md2.vertices.len());
    assert_eq!(md1.face_vertex_begin, md2.face_vertex_begin);
    assert_eq!(md1.face_vertex_length, md2.face_vertex_length);
    for k in 0..md1.vertices.len() {
        assert_eq!(md1.vertices[k].quad_data1, md2.vertices[k].quad_data1);
        assert_eq!(md1.vertices[k].quad_data2, md2.vertices[k].quad_data2);
    }
}

#[test]
fn reused_workspace_meshes_like_a_fresh_one() {
    let mut voxels = vec![0u8; CS_P3];
    voxels[get_zxy_index(10, 10, 10)] = 4;
    let fresh = mesh_volume(&voxels);

    // Reuse one workspace across two chunks with an explicit clear between.
    let rle = rle_encode_sparse_trailing_zeros(&voxels);
    let mut md = MeshData::new(16);
    let mut buf = vec![0u8; CS_P3];
    decompress_to_voxels_and_opaque_mask(&rle, &mut buf, &mut md.opaque_mask).unwrap();
    mesh(&buf, &mut md);
    md.clear_runtime();
    md.opaque_mask.fill(0);
    let mut buf2 = vec![0u8; CS_P3];
    decompress_to_voxels_and_opaque_mask(&rle, &mut buf2, &mut md.opaque_mask).unwrap();
    mesh(&buf2, &mut md);

    assert_eq!(fresh.vertices.len(), md.vertices.len());
    for k in 0..fresh.vertices.len() {
        assert_eq!(fresh.vertices[k].quad_data1, md.vertices[k].quad_data1);
        assert_eq!(fresh.vertices[k].quad_data2, md.vertices[k].quad_data2);
    }
}

#[test]
fn quad_coverage_matches_visible_cells() {
    // Merging reduces the quad count, never the covered area: the areas of a
    // face's quads sum to that face's visible-cell count.
    let mut voxels = vec![0u8; CS_P3];
    for z in 1..=CS {
        for x in 1..=CS {
            for y in 1..=(1 + (x + z) % 4) {
                voxels[get_zxy_index(x, y, z)] = 1;
            }
        }
    }
    let md = mesh_volume(&voxels);

    // Count each face's visible cells by hand: occupied with an empty
    // neighbor in that face's direction.
    let neighbor = |x: usize, y: usize, z: usize, f: usize| -> u8 {
        match f {
            0 => voxels[get_zxy_index(x, y + 1, z)],
            1 => voxels[get_zxy_index(x, y - 1, z)],
            2 => voxels[get_zxy_index(x + 1, y, z)],
            3 => voxels[get_zxy_index(x - 1, y, z)],
            4 => voxels[get_zxy_index(x, y, z + 1)],
            _ => voxels[get_zxy_index(x, y, z - 1)],
        }
    };
    for f in 0..6 {
        let mut visible = 0usize;
        for y in 1..=CS {
            for z in 1..=CS {
                for x in 1..=CS {
                    if voxels[get_zxy_index(x, y, z)] != 0 && neighbor(x, y, z, f) == 0 {
                        visible += 1;
                    }
                }
            }
        }
        let covered: usize = face_quads(&md, f)
            .iter()
            .map(|&q| {
                let (_, _, _, w, h, _) = fields(q);
                (w as usize) * (h as usize)
            })
            .sum();
        assert_eq!(covered, visible, "face {f}");
    }
}

#[test]
fn mesh_leaves_scratch_counters_zeroed() {
    let mut voxels = vec![0u8; CS_P3];
    for z in 1..=CS {
        for x in 1..=CS {
            for y in 1..=(1 + (x * 2 + z) % 5) {
                voxels[get_zxy_index(x, y, z)] = 2;
            }
        }
    }
    let md = mesh_volume(&voxels);
    assert!(md.forward_merged.iter().all(|&v| v == 0));
    assert!(md.right_merged.iter().all(|&v| v == 0));
}

#[test]
fn quad_words_keep_top_bits_clear() {
    let mut voxels = vec![0u8; CS_P3];
    for z in 1..=CS {
        for x in 1..=CS {
            voxels[get_zxy_index(x, 1 + (x + z) % 3, z)] = 1;
        }
    }
    let md = mesh_volume(&voxels);
    assert!(md.vertices.len() > 0);
    for q in &md.vertices {
        assert_eq!(q.quad_data1 >> 30, 0);
    }
}

#[test]
fn fresh_workspace_has_zeroed_quads() {
    let md = MeshData::new(37);
    assert_eq!(md.vertices.len(), 37);
    for q in &md.vertices {
        assert_eq!((q.quad_data1, q.quad_data2), (0, 0));
    }
}
