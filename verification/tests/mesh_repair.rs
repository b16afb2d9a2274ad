use orient_core::analysis::{count_connected_components, mesh_topology, surface_components};
use orient_core::edges::{build_edge_table, make_edge};
use orient_core::repair::{fill_boundary_holes, fill_holes_in_passes, fix_normals, retain_triangles};

fn cube_indices() -> Vec<u32> {
    vec![
        0, 1, 2, 0, 2, 3, 4, 6, 5, 4, 7, 6, 0, 4, 5, 0, 5, 1, 2, 6, 7, 2, 7, 3, 0, 3, 7, 0, 7, 4, 1,
        5, 6, 1, 6, 2,
    ]
}

#[test]
fn test_fix_normals_inconsistent() {
    let vertices: Vec<f32> = vec![0.0, 0.0, 0.0, 1.0, 0.0, 0.0, 0.0, 1.0, 0.0, 0.0, 0.0, 1.0];
    assert_eq!(vertices.len(), 12);
    let mut indices = vec![0, 1, 2, 0, 1, 3];
    let flips = fix_normals(&mut indices);
    assert_eq!(flips, 1);
    assert_eq!(indices, vec![0, 1, 2, 0, 3, 1]);
}

#[test]
fn fix_normals_keeps_lowest_index_winding() {
    // Triangles 1 and 2 agree with each other and not with triangle 0: the
    // group keeps the winding of triangle 0, so both later ones turn.
    let mut indices = vec![0, 1, 2, 1, 2, 3, 2, 4, 3];
    assert_eq!(fix_normals(&mut indices), 2);
    assert_eq!(indices, vec![0, 1, 2, 1, 3, 2, 2, 3, 4]);
}

#[test]
fn fix_normals_edge_neighbours_in_index_order() {
    // Three triangles on the edge 0-1: from triangle 0, triangle 1 (which runs
    // 0 -> 1 as well) is reached first and turned, then triangle 2 (which runs
    // 1 -> 0) is kept.
    let mut indices = vec![0, 1, 2, 0, 1, 3, 1, 0, 4];
    assert_eq!(fix_normals(&mut indices), 1);
    assert_eq!(indices, vec![0, 1, 2, 0, 3, 1, 1, 0, 4]);
}

#[test]
fn test_fix_normals_consistent() {
    let mut indices = vec![0, 1, 2, 1, 0, 3];
    let flips = fix_normals(&mut indices);
    assert_eq!(flips, 0);
    assert_eq!(indices, vec![0, 1, 2, 1, 0, 3]);
}

#[test]
fn fix_normals_short_list_untouched() {
    let mut indices = vec![4, 5];
    assert_eq!(fix_normals(&mut indices), 0);
    assert_eq!(indices, vec![4, 5]);
}

#[test]
fn fix_normals_keeps_consistent_cube() {
    let mut indices = cube_indices();
    let before = indices.clone();
    assert_eq!(fix_normals(&mut indices), 0);
    assert_eq!(indices, before);
}

#[test]
fn test_fill_boundary_holes() {
    let vertices: Vec<f32> = vec![0.0, 0.0, 0.0, 1.0, 0.0, 0.0, 1.0, 1.0, 0.0, 0.0, 1.0, 0.0];
    assert_eq!(vertices.len(), 12);
    let mut indices = vec![0, 1, 2];
    let filled = fill_boundary_holes(&mut indices, 512);
    assert!(filled > 0);
    assert!(indices.len() > 3);
}

#[test]
fn fill_single_triangle_exact() {
    let mut indices = vec![0, 1, 2];
    let filled = fill_boundary_holes(&mut indices, 512);
    assert_eq!(filled, 1);
    assert_eq!(indices, vec![0, 1, 2, 0, 1, 2]);
}

#[test]
fn fill_square_hole_with_fan() {
    // A ring of four triangles around a square hole 0-1-2-3, apex 4 outside.
    let mut indices = vec![0, 1, 4, 1, 2, 4, 2, 3, 4, 3, 0, 4];
    // The ring's boundary is the square; the spokes to 4 are shared.
    let filled = fill_boundary_holes(&mut indices, 512);
    assert_eq!(filled, 1);
    assert_eq!(indices.len(), 12 + 6);
    assert_eq!(&indices[12..], &[0, 1, 2, 0, 2, 3]);
}

#[test]
fn fill_respects_max_groups() {
    let mut indices = vec![0, 1, 2, 10, 11, 12];
    assert_eq!(fill_boundary_holes(&mut indices, 1), 1);
    assert_eq!(indices.len(), 9);
    let mut zero = vec![0, 1, 2];
    assert_eq!(fill_boundary_holes(&mut zero, 0), 0);
    assert_eq!(zero, vec![0, 1, 2]);
}

#[test]
fn fill_closed_cube_is_noop() {
    let mut indices = cube_indices();
    let before = indices.clone();
    assert_eq!(fill_boundary_holes(&mut indices, 512), 0);
    assert_eq!(indices, before);
}

#[test]
fn test_analyze_mesh() {
    let vertices: Vec<f32> = vec![0.0, 0.0, 0.0, 1.0, 0.0, 0.0, 0.0, 1.0, 0.0];
    let indices = vec![0, 1, 2];
    let vertex_count = vertices.len() / 3;
    let analysis = mesh_topology(vertex_count, &indices);
    assert_eq!(vertex_count, 3);
    assert_eq!(analysis.face_count, 1);
    assert!(analysis.boundary_edges > 0);
    assert!(!analysis.is_watertight);
}

#[test]
fn test_analyze_watertight_cube() {
    let vertices: Vec<f32> = vec![
        0.0, 0.0, 0.0, 1.0, 0.0, 0.0, 1.0, 1.0, 0.0, 0.0, 1.0, 0.0, 0.0, 0.0, 1.0, 1.0, 0.0, 1.0,
        1.0, 1.0, 1.0, 0.0, 1.0, 1.0,
    ];
    let indices = cube_indices();
    let vertex_count = vertices.len() / 3;
    let analysis = mesh_topology(vertex_count, &indices);
    assert_eq!(vertex_count, 8);
    assert_eq!(analysis.face_count, 12);
    assert_eq!(analysis.boundary_edges, 0);
    assert!(analysis.is_watertight);
}

#[test]
fn cube_topology_exact() {
    let analysis = mesh_topology(8, &cube_indices());
    assert_eq!(analysis.edge_count, 18);
    assert_eq!(analysis.genus, 0);
}

#[test]
fn open_triangle_topology_exact() {
    let analysis = mesh_topology(3, &vec![0, 1, 2]);
    assert_eq!(analysis.edge_count, 3);
    assert_eq!(analysis.boundary_edges, 3);
    assert_eq!(analysis.genus, 0);
}

#[test]
fn edge_table_counts_uses() {
    let table = build_edge_table(&vec![0, 1, 2, 2, 1, 3]);
    assert_eq!(table.edges, vec![(0, 1), (1, 2), (0, 2), (1, 3), (2, 3)]);
    assert_eq!(table.uses, vec![1, 2, 1, 1, 1]);
    assert_eq!(make_edge(7, 3), (3, 7));
}

#[test]
fn components_share_vertices() {
    let indices = vec![0, 1, 2, 2, 3, 4, 10, 11, 12];
    assert_eq!(count_connected_components(&indices), 2);
    let comps = surface_components(&indices);
    assert_eq!(comps, vec![vec![0, 1], vec![2]]);
    assert_eq!(count_connected_components(&Vec::new()), 0);
}

#[test]
fn retain_keeps_marked_triangles() {
    let mut indices = vec![0, 1, 2, 3, 4, 5, 6, 7, 8, 9];
    let removed = retain_triangles(&mut indices, &vec![true, false, true]);
    assert_eq!(removed, 1);
    assert_eq!(indices, vec![0, 1, 2, 6, 7, 8, 9]);
}

#[test]
fn fill_passes_stop_once_closed() {
    let mut indices = vec![0, 1, 2];
    let total = fill_holes_in_passes(&mut indices, 16, 512);
    assert_eq!(total, 1);
    assert_eq!(indices, vec![0, 1, 2, 0, 1, 2]);
}

#[test]
fn fill_passes_zero_rounds_change_nothing() {
    let mut indices = vec![0, 1, 2];
    assert_eq!(fill_holes_in_passes(&mut indices, 0, 512), 0);
    assert_eq!(indices, vec![0, 1, 2]);
}

#[test]
fn fill_passes_close_two_holes_in_one_round() {
    let mut indices = vec![0, 1, 2, 3, 4, 5];
    let total = fill_holes_in_passes(&mut indices, 3, 512);
    assert_eq!(total, 2);
    assert_eq!(indices.len(), 12);
}

#[test]
fn fill_passes_respect_group_limit() {
    let mut indices = vec![0, 1, 2, 3, 4, 5];
    let total = fill_holes_in_passes(&mut indices, 1, 1);
    assert_eq!(total, 1);
    assert_eq!(indices.len(), 9);
}

fn directed_edges_unique(indices: &[u32]) -> bool {
    let mut seen = std::collections::HashSet::new();
    for t in indices.chunks_exact(3) {
        for k in 0..3 {
            if !seen.insert((t[k], t[(k + 1) % 3])) {
                return false;
            }
        }
    }
    true
}

#[test]
fn fix_normals_winds_a_scrambled_cube_consistently() {
    let mut indices = cube_indices();
    assert!(directed_edges_unique(&indices));
    for t in [1usize, 4, 7, 10] {
        indices.swap(3 * t + 1, 3 * t + 2);
    }
    assert!(!directed_edges_unique(&indices));
    let flips = fix_normals(&mut indices);
    assert!(flips > 0);
    assert!(directed_edges_unique(&indices));
}
