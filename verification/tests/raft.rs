use orient_core::raft::{all_pairs_lines, insert_point, minimum_spanning_tree, raft_lines, strip_super_triangle};

#[test]
fn mst_connects_all_vertices() {
    // Edges already in order of weight 1.0, 2.0, 3.0.
    let edges = vec![(0, 1), (1, 2), (0, 2)];

    let mst = minimum_spanning_tree(&edges);

    // MST should have n-1 edges for n vertices
    assert_eq!(mst.len(), 2);
    assert_eq!(mst, vec![(0, 1), (1, 2)]);
}

#[test]
fn mst_of_no_edges_is_empty() {
    assert!(minimum_spanning_tree(&Vec::new()).is_empty());
}

#[test]
fn mst_skips_edges_closing_a_cycle() {
    let edges = vec![(2, 3), (0, 1), (1, 0), (3, 2), (1, 2), (0, 3)];
    assert_eq!(minimum_spanning_tree(&edges), vec![(2, 3), (0, 1), (1, 2)]);
}

#[test]
fn mst_of_two_components_is_a_forest() {
    // Vertices 0..=4, components {0, 1, 2} and {3, 4}: 5 - 2 = 3 tree edges.
    let edges = vec![(0, 1), (3, 4), (1, 2), (2, 0), (4, 3)];
    let tree = minimum_spanning_tree(&edges);
    assert_eq!(tree, vec![(0, 1), (3, 4), (1, 2)]);
}

#[test]
fn insert_point_fans_the_cavity() {
    // Two triangles sharing the edge 1-2, both bad: the cavity is the quad
    // 0-1-3-2 and the new point 4 is joined to its four sides.
    let mut tris = vec![(0, 1, 2), (2, 1, 3), (5, 6, 7)];
    let bad = vec![true, true, false];
    insert_point(&mut tris, &bad, 4);
    assert_eq!(tris, vec![(5, 6, 7), (0, 1, 4), (2, 0, 4), (1, 3, 4), (3, 2, 4)]);
}

#[test]
fn insert_point_with_nothing_bad_keeps_triangles() {
    let mut tris = vec![(0, 1, 2)];
    insert_point(&mut tris, &vec![false], 3);
    assert_eq!(tris, vec![(0, 1, 2)]);
}

#[test]
fn insert_point_into_single_triangle_makes_three() {
    let mut tris = vec![(0, 1, 2)];
    insert_point(&mut tris, &vec![true], 3);
    assert_eq!(tris, vec![(0, 1, 3), (1, 2, 3), (2, 0, 3)]);
}

#[test]
fn strip_super_triangle_renumbers() {
    let tris = vec![(0, 3, 4), (3, 4, 5), (5, 6, 3), (2, 5, 6)];
    assert_eq!(strip_super_triangle(&tris), vec![(0, 1, 2), (2, 3, 0)]);
}

#[test]
fn raft_lines_skip_repeated_edges() {
    let tree = vec![(0, 1), (1, 2)];
    let tris = vec![(0, 1, 2), (2, 1, 3)];
    // Tree lines first; then 2-0 from the first triangle, and 1-3, 3-2 from
    // the second (2-1 and 1-2 are already drawn).
    assert_eq!(raft_lines(&tree, &tris), vec![0, 1, 1, 2, 2, 0, 1, 3, 3, 2]);
}

#[test]
fn raft_lines_of_tree_alone() {
    assert_eq!(raft_lines(&vec![(3, 1)], &Vec::new()), vec![3, 1]);
}

#[test]
fn all_pairs_lines_connect_every_two_points() {
    assert!(all_pairs_lines(0).is_empty());
    assert!(all_pairs_lines(1).is_empty());
    assert_eq!(all_pairs_lines(2), vec![0, 1]);
    assert_eq!(all_pairs_lines(3), vec![0, 1, 0, 2, 1, 2]);
    assert_eq!(all_pairs_lines(5).len(), 5 * 4);
}
