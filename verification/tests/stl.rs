use orient_core::stl::{mesh_corners, parse_stl, parse_stl_bytes, StlError};

fn write_binary_stl(triangles: &[[[f32; 3]; 3]]) -> Vec<u8> {
    let mut buf = Vec::new();
    buf.extend_from_slice(&[0u8; 80]);
    let count = triangles.len() as u32;
    buf.extend_from_slice(&count.to_le_bytes());
    for tri in triangles {
        buf.extend_from_slice(&0f32.to_le_bytes());
        buf.extend_from_slice(&0f32.to_le_bytes());
        buf.extend_from_slice(&0f32.to_le_bytes());
        for v in tri {
            buf.extend_from_slice(&v[0].to_le_bytes());
            buf.extend_from_slice(&v[1].to_le_bytes());
            buf.extend_from_slice(&v[2].to_le_bytes());
        }
        buf.extend_from_slice(&0u16.to_le_bytes());
    }
    buf
}

fn as_floats(c: (u32, u32, u32)) -> [f32; 3] {
    [f32::from_bits(c.0), f32::from_bits(c.1), f32::from_bits(c.2)]
}

#[test]
fn parse_two_triangles() {
    let triangles = [
        [[0.0, 0.0, 0.0], [1.0, 0.0, 0.0], [0.0, 1.0, 0.0]],
        [[1.0, 0.0, 0.0], [1.0, 1.0, 0.0], [0.0, 1.0, 0.0]],
    ];
    let buf = write_binary_stl(&triangles);
    let result = parse_stl(&buf).unwrap();
    assert_eq!(result.len(), 6);
    assert_eq!(as_floats(result[0]), [0.0, 0.0, 0.0]);
    assert_eq!(as_floats(result[4]), [1.0, 1.0, 0.0]);
}

#[test]
fn empty_stl() {
    let buf = write_binary_stl(&[]);
    let result = parse_stl(&buf).unwrap();
    assert_eq!(result.len(), 0);
}

#[test]
fn invalid_stl_returns_error() {
    let buf = vec![0u8; 10];
    assert!(parse_stl(&buf).is_err());
}

#[test]
fn invalid_stl_is_a_parse_error() {
    assert!(matches!(parse_stl(&vec![0u8; 10]), Err(StlError::Parse(_))));
    assert!(matches!(parse_stl_bytes(&vec![0u8; 10]), Err(StlError::Parse(_))));
}

#[test]
fn parse_keeps_corner_order_and_shared_vertices() {
    let triangles = [
        [[0.0, 0.0, 0.0], [2.0, 0.0, 0.0], [0.0, 3.0, 0.0]],
        [[2.0, 0.0, 0.0], [0.0, 0.0, 0.0], [0.0, 0.0, -1.5]],
    ];
    let result = parse_stl(&write_binary_stl(&triangles)).unwrap();
    let floats: Vec<[f32; 3]> = result.into_iter().map(as_floats).collect();
    assert_eq!(
        floats,
        vec![[0.0, 0.0, 0.0], [2.0, 0.0, 0.0], [0.0, 3.0, 0.0], [2.0, 0.0, 0.0], [0.0, 0.0, 0.0], [0.0, 0.0, -1.5]]
    );
}

#[test]
fn parse_bytes_is_flat() {
    let triangles = [[[1.0, 2.0, 3.0], [4.0, 5.0, 6.0], [7.0, 8.0, 9.5]]];
    let flat = parse_stl_bytes(&write_binary_stl(&triangles)).unwrap();
    let floats: Vec<f32> = flat.into_iter().map(f32::from_bits).collect();
    assert_eq!(floats, vec![1.0, 2.0, 3.0, 4.0, 5.0, 6.0, 7.0, 8.0, 9.5]);
}

#[test]
fn parse_ascii_stl() {
    let text = b"solid t\nfacet normal 0 0 1\nouter loop\nvertex 0 0 0\nvertex 1 0 0\nvertex 0 1 0\nendloop\nendfacet\nendsolid t\n";
    let result = parse_stl(&text.to_vec()).unwrap();
    assert_eq!(result.len(), 3);
    assert_eq!(as_floats(result[1]), [1.0, 0.0, 0.0]);
}

#[test]
fn mesh_corners_expands_faces() {
    let verts = vec![(1u32, 2u32, 3u32), (4, 5, 6), (7, 8, 9)];
    let faces = vec![(0usize, 1usize, 2usize), (2, 1, 0), (1, 1, 2)];
    let corners = mesh_corners(&verts, &faces).unwrap();
    assert_eq!(
        corners,
        vec![
            (1, 2, 3), (4, 5, 6), (7, 8, 9),
            (7, 8, 9), (4, 5, 6), (1, 2, 3),
            (4, 5, 6), (4, 5, 6), (7, 8, 9),
        ]
    );
}

#[test]
fn mesh_corners_empty() {
    let verts: Vec<(u32, u32, u32)> = Vec::new();
    let faces: Vec<(usize, usize, usize)> = Vec::new();
    assert_eq!(mesh_corners(&verts, &faces).unwrap(), Vec::new());
}

#[test]
fn mesh_corners_too_many_triangles() {
    let verts = vec![(0u32, 0u32, 0u32)];
    let faces = vec![(0usize, 0usize, 0usize); 5_000_001];
    match mesh_corners(&verts, &faces) {
        Err(StlError::TooManyTriangles(n)) => assert_eq!(n, 5_000_001),
        other => panic!("unexpected result: {:?}", other.map(|c| c.len())),
    }
}
