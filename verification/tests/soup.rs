use orient_core::flat::{
    count_boundary_edges, edge_hash, f32_bits_eq, hash_tri, hole_loops, points_equal, repair_mesh,
    vertex_hash, Point,
};
use orient_core::winding::{apply_winding_flips, propagate_winding, turn_voted_groups};
use std::cmp::Ordering;

fn to_bits(p: &[f32]) -> Vec<u32> {
    p.iter().map(|x| x.to_bits()).collect()
}

fn from_bits(p: &[u32]) -> Vec<f32> {
    p.iter().map(|x| f32::from_bits(*x)).collect()
}

fn pt(x: f32, y: f32, z: f32) -> Point {
    (x.to_bits(), y.to_bits(), z.to_bits())
}

/// For each triangle, its corners in (x, y, z) order, as the repair sorts them.
fn sort_orders(p: &[f32]) -> Vec<(u8, u8, u8)> {
    let n = p.len() / 9;
    let mut out = Vec::new();
    for t in 0..n {
        let mut idx = [0u8, 1, 2];
        let c = |i: u8| {
            let b = t * 9 + i as usize * 3;
            (p[b], p[b + 1], p[b + 2])
        };
        idx.sort_by(|&a, &b| {
            let (pa, pb) = (c(a), c(b));
            pa.0.partial_cmp(&pb.0)
                .unwrap_or(Ordering::Equal)
                .then_with(|| pa.1.partial_cmp(&pb.1).unwrap_or(Ordering::Equal))
                .then_with(|| pa.2.partial_cmp(&pb.2).unwrap_or(Ordering::Equal))
        });
        out.push((idx[0], idx[1], idx[2]));
    }
    out
}

fn repair(p: &mut Vec<f32>) -> u32 {
    let order = sort_orders(p);
    let mut bits = to_bits(p);
    let removed = repair_mesh(&mut bits, &order);
    *p = from_bits(&bits);
    removed
}

fn winding(p: &mut Vec<f32>) -> u32 {
    let mut bits = to_bits(p);
    let (flip, _groups) = propagate_winding(&bits);
    let flipped = apply_winding_flips(&mut bits, &flip);
    *p = from_bits(&bits);
    flipped
}

fn hole_ring(hole_verts: &[[f32; 3]], center: &[f32; 3]) -> Vec<f32> {
    let n = hole_verts.len();
    let mut p = Vec::with_capacity(n * 9);
    for i in 0..n {
        let j = (i + 1) % n;
        p.extend_from_slice(&hole_verts[i]);
        p.extend_from_slice(&hole_verts[j]);
        p.extend_from_slice(center);
    }
    p
}

#[test]
fn flat_repair_empty_mesh() {
    let mut p = Vec::new();
    assert_eq!(repair(&mut p), 0);
}

#[test]
fn flat_repair_removes_duplicate_triangles() {
    let mut p = vec![
        0.0, 0.0, 0.0, 1.0, 0.0, 0.0, 0.0, 1.0, 0.0, 0.0, 0.0, 0.0, 1.0, 0.0, 0.0, 0.0, 1.0, 0.0,
    ];
    assert_eq!(repair(&mut p), 1);
    assert_eq!(p.len(), 9);
}

#[test]
fn flat_repair_removes_duplicate_with_different_winding() {
    let mut p = vec![
        0.0, 0.0, 0.0, 1.0, 0.0, 0.0, 0.0, 1.0, 0.0, 0.0, 1.0, 0.0, 1.0, 0.0, 0.0, 0.0, 0.0, 0.0,
    ];
    assert_eq!(repair(&mut p), 1);
    assert_eq!(p.len(), 9);
}

#[test]
fn flat_repair_keeps_unique_triangles() {
    let mut p = vec![
        0.0, 0.0, 0.0, 1.0, 0.0, 0.0, 0.0, 1.0, 0.0, 1.0, 0.0, 0.0, 1.0, 1.0, 0.0, 0.0, 1.0, 0.0,
    ];
    assert_eq!(repair(&mut p), 0);
    assert_eq!(p.len(), 18);
}

#[test]
fn flat_repair_no_collisions_simple() {
    let mut p = vec![
        0.0, 0.0, 0.0, 1.0, 0.0, 0.0, 0.0, 1.0, 0.0, 0.0, 0.0, 0.0, 1.0, 0.0, 0.0, 0.0, 0.0, 1.0,
    ];
    assert_eq!(repair(&mut p), 0);
    assert_eq!(p.len(), 18);
}

#[test]
fn repair_keeps_first_copy_and_drops_tail_only_when_removing() {
    let mut p = vec![
        0.0, 0.0, 0.0, 1.0, 0.0, 0.0, 0.0, 1.0, 0.0, 5.0, 5.0, 5.0, 6.0, 5.0, 5.0, 5.0, 6.0, 5.0,
        7.0,
    ];
    assert_eq!(repair(&mut p), 0);
    assert_eq!(p.len(), 19);
    let mut q = vec![
        0.0, 0.0, 0.0, 1.0, 0.0, 0.0, 0.0, 1.0, 0.0, 0.0, 0.0, 0.0, 1.0, 0.0, 0.0, 0.0, 1.0, 0.0,
        7.0,
    ];
    assert_eq!(repair(&mut q), 1);
    assert_eq!(q, vec![0.0, 0.0, 0.0, 1.0, 0.0, 0.0, 0.0, 1.0, 0.0]);
}

#[test]
fn flat_normalize_winding_empty() {
    let mut p: Vec<f32> = Vec::new();
    assert_eq!(winding(&mut p), 0);
}

#[test]
fn flat_normalize_winding_single_triangle() {
    let mut p = vec![0.0, 0.0, 0.0, 1.0, 0.0, 0.0, 0.0, 1.0, 0.0];
    assert_eq!(winding(&mut p), 0);
}

#[test]
fn normalize_winding_two_triangles_consistent() {
    let mut p = vec![
        0.0, 0.0, 0.0, 1.0, 0.0, 0.0, 0.0, 1.0, 0.0, 1.0, 0.0, 0.0, 0.0, 0.0, 0.0, 0.0, 0.0, 1.0,
    ];
    assert_eq!(winding(&mut p), 0);
}

#[test]
fn normalize_winding_two_triangles_inverted() {
    let mut p = vec![
        0.0, 0.0, 0.0, 1.0, 0.0, 0.0, 0.0, 1.0, 0.0, 0.0, 0.0, 0.0, 1.0, 0.0, 0.0, 0.0, 0.0, 1.0,
    ];
    assert_eq!(winding(&mut p), 1, "Tri B should be flipped");
    assert_eq!(&p[12..18], &[0.0, 0.0, 1.0, 1.0, 0.0, 0.0]);
}

#[test]
fn normalize_winding_thin_shell() {
    let mut p = vec![
        0.0, 0.0, 0.0, 2.0, 0.0, 0.0, 0.0, 2.0, 0.0, 0.0, 0.0, 0.0, 2.0, 0.0, 0.0, 0.0, 2.0, 0.0,
    ];
    assert_eq!(winding(&mut p), 1);
}

#[test]
fn normalize_winding_chain_propagation() {
    let mut p = vec![
        0.0, 0.0, 0.0, 4.0, 0.0, 0.0, 0.0, 4.0, 0.0, 0.0, 0.0, 0.0, 4.0, 0.0, 0.0, 4.0, 0.0, 4.0,
        0.0, 0.0, 0.0, 4.0, 0.0, 4.0, 4.0, 4.0, 4.0,
    ];
    assert_eq!(winding(&mut p), 2, "B and C should be flipped");
}

#[test]
fn normalize_winding_degenerate_edge_skipped() {
    let mut p = vec![0.0, 0.0, 0.0, 0.0, 0.0, 0.0, 1.0, 0.0, 0.0];
    assert_eq!(winding(&mut p), 0);
}

#[test]
fn normalize_winding_disconnected_components() {
    let mut p = vec![
        0.0, 0.0, 0.0, 1.0, 0.0, 0.0, 0.0, 1.0, 0.0, 0.0, 0.0, 0.0, 1.0, 0.0, 0.0, 0.0, 0.0, 1.0,
        10.0, 0.0, 0.0, 11.0, 0.0, 0.0, 10.0, 1.0, 0.0, 10.0, 0.0, 0.0, 11.0, 0.0, 0.0, 10.0, 0.0,
        1.0,
    ];
    assert_eq!(winding(&mut p), 2, "Both inverted triangles flipped");
}

#[test]
fn winding_groups_follow_shared_edges() {
    let p = to_bits(&[
        0.0, 0.0, 0.0, 1.0, 0.0, 0.0, 0.0, 1.0, 0.0, 10.0, 0.0, 0.0, 11.0, 0.0, 0.0, 10.0, 1.0,
        0.0, 0.0, 0.0, 0.0, 1.0, 0.0, 0.0, 0.0, 0.0, 1.0,
    ]);
    let (flip, groups) = propagate_winding(&p);
    assert_eq!(groups, vec![vec![0, 2], vec![1]]);
    assert_eq!(flip, vec![false, false, true]);
}

#[test]
fn reversing_twice_restores() {
    let orig = to_bits(&[
        0.0, 0.0, 0.0, 1.0, 0.0, 0.0, 0.0, 1.0, 0.0, 0.0, 0.0, 0.0, 1.0, 0.0, 0.0, 0.0, 0.0, 1.0,
    ]);
    let flip = vec![true, false];
    let mut p = orig.clone();
    assert_eq!(apply_winding_flips(&mut p, &flip), 1);
    assert_ne!(p, orig);
    assert_eq!(apply_winding_flips(&mut p, &flip), 1);
    assert_eq!(p, orig);
}

#[test]
fn hole_loop_of_square_hole() {
    let verts = [[0.0, 0.0, 0.0], [2.0, 0.0, 0.0], [2.0, 2.0, 0.0], [0.0, 2.0, 0.0]];
    let p = to_bits(&hole_ring(&verts, &[10.0, 10.0, 10.0]));
    let loops = hole_loops(&p, 64);
    assert_eq!(
        loops,
        vec![vec![pt(0.0, 0.0, 0.0), pt(2.0, 0.0, 0.0), pt(2.0, 2.0, 0.0), pt(0.0, 2.0, 0.0)]]
    );
}

#[test]
fn hole_loop_of_triangle_and_hexagon_holes() {
    let tri = [[0.0, 0.0, 0.0], [2.0, 0.0, 0.0], [1.0, 2.0, 0.0]];
    let loops = hole_loops(&to_bits(&hole_ring(&tri, &[10.0, 10.0, 10.0])), 64);
    assert_eq!(loops.len(), 1);
    assert_eq!(loops[0].len(), 3);
    let hex = [
        [1.5, 0.0, 0.0],
        [3.0, 0.866, 0.0],
        [3.0, 2.598, 0.0],
        [1.5, 3.464, 0.0],
        [0.0, 2.598, 0.0],
        [0.0, 0.866, 0.0],
    ];
    let loops = hole_loops(&to_bits(&hole_ring(&hex, &[10.0, 10.0, 10.0])), 64);
    assert_eq!(loops.len(), 1);
    assert_eq!(loops[0].len(), 6);
}

#[test]
fn hole_loops_skip_large_holes() {
    let verts = [[0.0, 0.0, 0.0], [2.0, 0.0, 0.0], [2.0, 2.0, 0.0], [0.0, 2.0, 0.0]];
    let p = to_bits(&hole_ring(&verts, &[10.0, 10.0, 10.0]));
    assert!(hole_loops(&p, 2).is_empty());
    assert!(hole_loops(&Vec::new(), 64).is_empty());
}

#[test]
fn hole_loop_around_open_quad() {
    let p = to_bits(&[
        0.0, 0.0, 0.0, 1.0, 0.0, 0.0, 0.0, 1.0, 0.0, 1.0, 0.0, 0.0, 1.0, 1.0, 0.0, 0.0, 1.0, 0.0,
    ]);
    let loops = hole_loops(&p, 64);
    assert_eq!(
        loops,
        vec![vec![pt(0.0, 0.0, 0.0), pt(1.0, 0.0, 0.0), pt(1.0, 1.0, 0.0), pt(0.0, 1.0, 0.0)]]
    );
    assert_eq!(count_boundary_edges(&p), 4);
}

#[test]
fn boundary_edges_of_ring_and_closed_pair() {
    let verts = [[0.0, 0.0, 0.0], [2.0, 0.0, 0.0], [2.0, 2.0, 0.0], [0.0, 2.0, 0.0]];
    assert_eq!(count_boundary_edges(&to_bits(&hole_ring(&verts, &[10.0, 10.0, 10.0]))), 4);
    assert_eq!(count_boundary_edges(&Vec::new()), 0);
    let shell = to_bits(&[
        0.0, 0.0, 0.0, 2.0, 0.0, 0.0, 0.0, 2.0, 0.0, 0.0, 0.0, 0.0, 2.0, 0.0, 0.0, 0.0, 2.0, 0.0,
    ]);
    assert_eq!(count_boundary_edges(&shell), 0);
}

#[test]
fn point_and_edge_hashes_exact() {
    assert_eq!(vertex_hash(0, 0, 0), 6082024272624116885);
    assert_eq!(
        vertex_hash(1.0f32.to_bits(), 2.0f32.to_bits(), 3.0f32.to_bits()),
        2153861406017970776
    );
    let one = 1.0f32.to_bits();
    assert_eq!(edge_hash(0, 0, 0, one, 0, 0), 3164166326100902637);
    assert_eq!(edge_hash(one, 0, 0, 0, 0, 0), 3164166326100902637);
    assert_eq!(
        hash_tri(&[pt(0.0, 0.0, 0.0), pt(1.0, 0.0, 0.0), pt(0.0, 1.0, 0.0)]),
        2104647639135353397
    );
}

#[test]
fn float_equality_on_bits() {
    assert!(f32_bits_eq(0.0f32.to_bits(), (-0.0f32).to_bits()));
    assert!(!f32_bits_eq(f32::NAN.to_bits(), f32::NAN.to_bits()));
    assert!(f32_bits_eq(1.5f32.to_bits(), 1.5f32.to_bits()));
    assert!(!f32_bits_eq(1.5f32.to_bits(), 2.5f32.to_bits()));
    assert!(points_equal(pt(0.0, 1.0, 2.0), pt(-0.0, 1.0, 2.0)));
}

#[test]
fn repair_repair_empty_mesh() {
    let mut p = Vec::new();
    assert_eq!(repair(&mut p), 0);
}

#[test]
fn repair_repair_removes_duplicate_triangles() {
    let mut p = vec![
        0.0, 0.0, 0.0, 1.0, 0.0, 0.0, 0.0, 1.0, 0.0, 0.0, 0.0, 0.0, 1.0, 0.0, 0.0, 0.0, 1.0, 0.0,
    ];
    assert_eq!(repair(&mut p), 1);
    assert_eq!(p.len(), 9);
}

#[test]
fn repair_repair_removes_duplicate_with_different_winding() {
    let mut p = vec![
        0.0, 0.0, 0.0, 1.0, 0.0, 0.0, 0.0, 1.0, 0.0, 0.0, 1.0, 0.0, 1.0, 0.0, 0.0, 0.0, 0.0, 0.0,
    ];
    assert_eq!(repair(&mut p), 1);
    assert_eq!(p.len(), 9);
}

#[test]
fn repair_repair_keeps_unique_triangles() {
    let mut p = vec![
        0.0, 0.0, 0.0, 1.0, 0.0, 0.0, 0.0, 1.0, 0.0, 1.0, 0.0, 0.0, 1.0, 1.0, 0.0, 0.0, 1.0, 0.0,
    ];
    assert_eq!(repair(&mut p), 0);
    assert_eq!(p.len(), 18);
}

#[test]
fn repair_repair_no_collisions_simple() {
    let mut p = vec![
        0.0, 0.0, 0.0, 1.0, 0.0, 0.0, 0.0, 1.0, 0.0, 0.0, 0.0, 0.0, 1.0, 0.0, 0.0, 0.0, 0.0, 1.0,
    ];
    assert_eq!(repair(&mut p), 0);
    assert_eq!(p.len(), 18);
}

#[test]
fn voted_groups_turn_when_inward_and_large() {
    let mut flip = vec![false, true, false, false, false, false];
    let groups = vec![vec![0, 1, 2, 3], vec![4, 5]];
    turn_voted_groups(&mut flip, &groups, &vec![-2, -5]);
    assert_eq!(flip, vec![true, false, true, true, false, false]);
}

#[test]
fn voted_groups_keep_outward_groups() {
    let mut flip = vec![false; 5];
    let groups = vec![vec![4, 3, 2, 1, 0]];
    turn_voted_groups(&mut flip, &groups, &vec![0]);
    assert_eq!(flip, vec![false; 5]);
    turn_voted_groups(&mut flip, &groups, &vec![-1]);
    assert_eq!(flip, vec![true; 5]);
}

fn cube_soup() -> Vec<f32> {
    let v = [
        [0.0, 0.0, 0.0], [1.0, 0.0, 0.0], [1.0, 1.0, 0.0], [0.0, 1.0, 0.0],
        [0.0, 0.0, 1.0], [1.0, 0.0, 1.0], [1.0, 1.0, 1.0], [0.0, 1.0, 1.0],
    ];
    let tris = [
        [0, 2, 1], [0, 3, 2], [4, 5, 6], [4, 6, 7], [0, 1, 5], [0, 5, 4],
        [2, 3, 7], [2, 7, 6], [0, 4, 7], [0, 7, 3], [1, 2, 6], [1, 6, 5],
    ];
    let mut p = Vec::new();
    for t in tris {
        for i in t {
            p.extend_from_slice(&v[i]);
        }
    }
    p
}

fn directed_sides_unique(p: &[f32]) -> bool {
    let mut seen = std::collections::HashSet::new();
    for t in p.chunks_exact(9) {
        for k in 0..3 {
            let a = (t[3 * k].to_bits(), t[3 * k + 1].to_bits(), t[3 * k + 2].to_bits());
            let j = (k + 1) % 3;
            let b = (t[3 * j].to_bits(), t[3 * j + 1].to_bits(), t[3 * j + 2].to_bits());
            if !seen.insert((a, b)) {
                return false;
            }
        }
    }
    true
}

#[test]
fn winding_makes_a_scrambled_cube_consistent() {
    let mut p = cube_soup();
    assert!(directed_sides_unique(&p));
    let mut flip = vec![false; 12];
    for t in [1usize, 4, 9] {
        flip[t] = true;
    }
    let mut bits = to_bits(&p);
    apply_winding_flips(&mut bits, &flip);
    p = from_bits(&bits);
    assert!(!directed_sides_unique(&p));
    assert!(winding(&mut p) > 0);
    assert!(directed_sides_unique(&p));
}
