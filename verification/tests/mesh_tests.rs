use std::collections::HashSet;

use elev::entry::ElevEntry;
use elev::map::{ElevMap, Rotation};
use elev::mesh::{
    create_terrain_meshes, get_cell_stitched, rotate_uvs, MeshBuilderData, VertexKey, UV_MAX,
};

fn patch(
    page_x: i32,
    page_z: i32,
    node_x: u8,
    node_z: u8,
    node_radius: u8,
    texture_ids: Vec<u32>,
    heights: Vec<i32>,
) -> ElevEntry {
    ElevEntry { page_x, page_z, node_x, node_z, node_radius, texture_ids, heights }
}

#[test]
fn rotate_uvs_fixed_tables() {
    let m = UV_MAX;
    assert_eq!(rotate_uvs(Rotation::R0), ((m, m), (0, m), (m, 0), (0, 0)));
    assert_eq!(rotate_uvs(Rotation::R1), ((m, 0), (m, m), (0, 0), (0, m)));
    assert_eq!(rotate_uvs(Rotation::R2), ((0, 0), (m, 0), (0, m), (m, m)));
    assert_eq!(rotate_uvs(Rotation::R3), ((0, m), (0, 0), (m, m), (m, 0)));
}

#[test]
fn vertex_key_is_exact_position_and_uv() {
    let k = VertexKey::new((1000, -5, 2000), (0, UV_MAX));
    assert_eq!(k.px, 1000);
    assert_eq!(k.py, -5);
    assert_eq!(k.pz, 2000);
    assert_eq!(k.u, 0);
    assert_eq!(k.v, UV_MAX);
}

fn flat_quad_at(b: &mut MeshBuilderData, x: i64, z: i64, h: i64, uvs: Rotation) {
    let u = rotate_uvs(uvs);
    b.add_quad(
        (x * 1000, h, z * 1000),
        (x * 1000 + 1000, h, z * 1000),
        (x * 1000, h, z * 1000 + 1000),
        (x * 1000 + 1000, h, z * 1000 + 1000),
        u,
    );
}

#[test]
fn add_quad_emits_two_triangles_split_on_first_diagonal_at_tie() {
    let mut b = MeshBuilderData::new();
    flat_quad_at(&mut b, 0, 0, 0, Rotation::R0);
    assert_eq!(b.vertex_count(), 4);
    let mesh = b.build_mesh();
    assert_eq!(mesh.indices, vec![0, 3, 1, 0, 2, 3]);
    // a flat quad's unnormalized face normal points straight up
    assert_eq!(mesh.normals, vec![(0, 2_000_000, 0); 4]);
}

#[test]
fn add_quad_splits_on_second_diagonal_when_shorter_is_first() {
    let mut b = MeshBuilderData::new();
    // v0 and v3 share a height (diagonal v0-v3 is short); v1 is raised,
    // making diagonal v1-v2 longer, so the split stays on v0-v3 ... then
    // swap roles to drive the other branch
    b.add_quad(
        (0, 0, 0),
        (1000, 1000, 0),
        (0, 0, 1000),
        (1000, 0, 1000),
        rotate_uvs(Rotation::R0),
    );
    let mesh = b.build_mesh();
    // diagonal v0-v3 squared = 2e6 + 0, diagonal v1-v2 squared = 2e6 + 1e6:
    // the second is longer, so the split is along v1-v2
    assert_eq!(mesh.indices, vec![1, 2, 3, 1, 0, 2]);
}

#[test]
fn welding_is_idempotent_for_identical_quads() {
    let mut b = MeshBuilderData::new();
    flat_quad_at(&mut b, 0, 0, 7, Rotation::R0);
    assert_eq!(b.vertex_count(), 4);
    flat_quad_at(&mut b, 0, 0, 7, Rotation::R0);
    // the second identical quad reuses all four welded vertices
    assert_eq!(b.vertex_count(), 4);
    let mesh = b.build_mesh();
    assert_eq!(mesh.positions.len(), 4);
    assert_eq!(mesh.indices.len(), 12);
    assert_eq!(&mesh.indices[0..6], &mesh.indices[6..12]);
}

#[test]
fn welding_merges_only_equal_position_and_uv() {
    let mut b = MeshBuilderData::new();
    // corner (1,0) of an R2 quad carries uv (max,0); corner v0 of the
    // quad one cell to the right carries uv (0,0) at the same position:
    // different uv, so the vertices stay separate
    flat_quad_at(&mut b, 0, 0, 0, Rotation::R2);
    flat_quad_at(&mut b, 1, 0, 0, Rotation::R2);
    assert_eq!(b.vertex_count(), 8);
    // but corner v0 of an R2 quad at (1,0) and corner v3 of an R0 quad
    // ending there share position and uv (0,0)... build that pairing
    let mut c = MeshBuilderData::new();
    flat_quad_at(&mut c, 1, 1, 0, Rotation::R2); // v0 at (1,1), uv (0,0)
    flat_quad_at(&mut c, 0, 0, 0, Rotation::R0); // v3 at (1,1), uv (0,0)
    assert_eq!(c.vertex_count(), 7);
}

#[test]
fn stitched_lookup_crosses_page_seam() {
    let mut m = ElevMap::new();
    m.apply_entry(&patch(0, 0, 0, 0, 64, vec![0x8000 | 3], vec![10]));
    m.apply_entry(&patch(1, 0, 0, 0, 64, vec![0x8000 | 5], vec![20]));
    // local x = 128 of page (0,0) is local x = 0 of page (1,0)
    let c = get_cell_stitched(&m, 0, 0, 128, 7).unwrap();
    assert_eq!(c.texture_id, 5);
    assert_eq!(c.height, 20);
    // within-page lookups are unchanged
    assert_eq!(get_cell_stitched(&m, 0, 0, 127, 7).unwrap().texture_id, 3);
    // no page lies above, so z = 128 resolves to nothing
    assert!(get_cell_stitched(&m, 0, 0, 5, 128).is_none());
    assert!(get_cell_stitched(&m, 1, 0, 128, 0).is_none());
}

#[test]
fn single_page_meshes_skip_edge_quads() {
    let mut m = ElevMap::new();
    m.apply_entry(&patch(0, 0, 0, 0, 64, vec![0x8000 | 3], vec![100]));
    let meshes = create_terrain_meshes(&m);
    assert_eq!(meshes.len(), 1);
    let (tid, mesh) = &meshes[0];
    assert_eq!(*tid, 3);
    // cells on the far x and z edges have no fourth corner: 127 x 127 quads
    assert_eq!(mesh.indices.len(), 127 * 127 * 6);
    assert_eq!(mesh.positions.len(), 4 * 127 * 127);
    // welding left no ghost duplicates: every (position, uv) pair is unique
    let mut seen = HashSet::new();
    for i in 0..mesh.positions.len() {
        assert!(seen.insert((mesh.positions[i], mesh.uvs[i])));
    }
}

#[test]
fn cross_page_quads_stitch_the_seam() {
    let mut m = ElevMap::new();
    m.apply_entry(&patch(0, 0, 0, 0, 64, vec![0x8000 | 3], vec![10]));
    m.apply_entry(&patch(1, 0, 0, 0, 64, vec![0x8000 | 5], vec![20]));
    let meshes = create_terrain_meshes(&m);
    assert_eq!(meshes.len(), 2);
    let tex3 = meshes.iter().find(|(t, _)| *t == 3).unwrap();
    let tex5 = meshes.iter().find(|(t, _)| *t == 5).unwrap();
    // page (0,0) gains a full extra quad column through the seam
    assert_eq!(tex3.1.indices.len(), 128 * 127 * 6);
    // page (1,0) still has no page to its right
    assert_eq!(tex5.1.indices.len(), 127 * 127 * 6);
    // a seam quad really spans world x = 127..128
    let has_seam_vertex = tex3.1.positions.iter().any(|p| p.0 == 128 * 1000);
    assert!(has_seam_vertex);
}

#[test]
fn building_the_same_grid_twice_is_identical() {
    let mut m = ElevMap::new();
    m.apply_entry(&patch(0, 0, 10, 10, 8, vec![0x8000 | 3, 0x4000 | 9], vec![10, -44, 1900]));
    m.apply_entry(&patch(0, 0, 20, 5, 4, vec![0], vec![77]));
    let a = create_terrain_meshes(&m);
    let b = create_terrain_meshes(&m);
    assert_eq!(a.len(), b.len());
    for i in 0..a.len() {
        assert_eq!(a[i].0, b[i].0);
        assert_eq!(a[i].1.positions, b[i].1.positions);
        assert_eq!(a[i].1.normals, b[i].1.normals);
        assert_eq!(a[i].1.uvs, b[i].1.uvs);
        assert_eq!(a[i].1.indices, b[i].1.indices);
    }
}

#[test]
fn observed_texture_with_all_quads_skipped_keeps_empty_mesh() {
    let mut m = ElevMap::new();
    m.apply_entry(&patch(0, 0, 0, 0, 64, vec![0x8000 | 3], vec![10]));
    // overwrite the far corner cell with a distinct texture; its only quad
    // needs neighbors beyond the page, so it is always skipped
    m.apply_entry(&patch(0, 0, 127, 127, 1, vec![0x8000 | 9], vec![10]));
    let meshes = create_terrain_meshes(&m);
    assert_eq!(meshes.len(), 2);
    let t9 = meshes.iter().find(|(t, _)| *t == 9).unwrap();
    assert!(t9.1.positions.is_empty());
    assert!(t9.1.indices.is_empty());
    // the other cells' quads are untouched by the corner overwrite
    let t3 = meshes.iter().find(|(t, _)| *t == 3).unwrap();
    assert_eq!(t3.1.indices.len(), 127 * 127 * 6);
}

#[test]
fn empty_map_yields_no_meshes() {
    let m = ElevMap::new();
    assert!(create_terrain_meshes(&m).is_empty());
}
