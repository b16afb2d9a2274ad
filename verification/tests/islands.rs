use orient_core::island::{add_island_pixels, connected_components};
use orient_core::placement::find_edge_pixels;
use orient_core::types::SupportType;

#[test]
fn connected_components_finds_correct_groups() {
    let cells = vec![(0, 0), (1, 0), (0, 1), (1, 1), (100, 100)];
    let components = connected_components(&cells);
    assert_eq!(components.len(), 2, "should find 2 components");
    let large = components.iter().find(|c| c.len() == 4).unwrap();
    assert!(large.contains(&(0, 0)));
    assert!(large.contains(&(1, 0)));
    assert!(large.contains(&(0, 1)));
    assert!(large.contains(&(1, 1)));
}

#[test]
fn components_in_breadth_first_order() {
    let cells = vec![(5, 5), (0, 0), (1, 0), (2, 0), (5, 6)];
    let components = connected_components(&cells);
    assert_eq!(components, vec![vec![(5, 5), (5, 6)], vec![(0, 0), (1, 0), (2, 0)]]);
}

#[test]
fn components_of_no_cells() {
    let components = connected_components(&Vec::new());
    assert!(components.is_empty());
}

#[test]
fn diagonal_cells_are_not_connected() {
    let components = connected_components(&vec![(0, 0), (1, 1)]);
    assert_eq!(components.len(), 2);
}

#[test]
fn find_edge_pixels_identifies_boundary() {
    let pixels = vec![(0, 0), (1, 0), (2, 0), (0, 1), (1, 1), (2, 1)];
    let edge = find_edge_pixels(&pixels);
    assert_eq!(edge.len(), 6);
}

#[test]
fn interior_pixel_is_not_an_edge() {
    let mut pixels = Vec::new();
    for y in 0..3u32 {
        for x in 0..3u32 {
            pixels.push((x, y));
        }
    }
    let edge = find_edge_pixels(&pixels);
    assert_eq!(edge.len(), 8);
    assert!(!edge.contains(&(1, 1)));
}

#[test]
fn island_pixels_rest_on_nothing_above() {
    let mut acc = Vec::new();
    let layer = vec![(0, 0), (5, 5), (10, 10)];
    let above = vec![(1, 0), (5, 5)];
    let found = add_island_pixels(&mut acc, &layer, &above);
    assert!(found);
    assert_eq!(acc, vec![(10, 10)]);
}

#[test]
fn island_pixels_are_added_once() {
    let mut acc = vec![(10, 10)];
    let layer = vec![(10, 10), (20, 20)];
    let above = Vec::new();
    let found = add_island_pixels(&mut acc, &layer, &above);
    assert!(found);
    assert_eq!(acc, vec![(10, 10), (20, 20)]);
}

#[test]
fn fully_supported_layer_has_no_island_pixels() {
    let mut acc = Vec::new();
    let layer = vec![(3, 3), (4, 3)];
    let above = vec![(3, 4), (4, 3)];
    assert!(!add_island_pixels(&mut acc, &layer, &above));
    assert!(acc.is_empty());
}

#[test]
fn support_type_ordering() {
    assert_ne!(SupportType::Light, SupportType::Medium);
    assert_ne!(SupportType::Medium, SupportType::Heavy);
    assert_ne!(SupportType::Light, SupportType::Heavy);
}
