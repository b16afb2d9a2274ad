use orient_core::hull::horizon_edges;

#[test]
fn horizon_of_one_face_is_its_rim() {
    assert_eq!(horizon_edges(&vec![(0, 1, 2)]), vec![(0, 1), (1, 2), (2, 0)]);
}

#[test]
fn horizon_drops_shared_edges() {
    let visible = vec![(0, 1, 2), (2, 1, 3)];
    assert_eq!(horizon_edges(&visible), vec![(0, 1), (2, 0), (1, 3), (3, 2)]);
}

#[test]
fn horizon_of_closed_surface_is_empty() {
    let tetra = vec![(0, 1, 2), (0, 3, 1), (1, 3, 2), (2, 3, 0)];
    assert!(horizon_edges(&tetra).is_empty());
    assert!(horizon_edges(&Vec::new()).is_empty());
}
