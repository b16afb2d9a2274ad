use orient_core::decimate::{complete_hull_sample, decimate_for_score, distinct_extremes};

#[test]
fn decimate_keeps_every_step_th_triangle() {
    // Five triangles, target two: stride 2, keeps triangles 0, 2 and 4.
    let positions: Vec<u32> = (0..45).collect();
    let normals: Vec<u32> = (100..115).collect();
    let areas: Vec<u32> = vec![7, 8, 9, 10, 11];
    let (p, n, a) = decimate_for_score(&positions, &normals, &areas, 2);
    assert_eq!(a, vec![7, 9, 11]);
    assert_eq!(n, vec![100, 101, 102, 106, 107, 108, 112, 113, 114]);
    assert_eq!(p.len(), 27);
    assert_eq!(&p[9..18], &[18, 19, 20, 21, 22, 23, 24, 25, 26]);
}

#[test]
fn decimate_below_target_returns_input() {
    let positions = vec![1.0f32; 18];
    let normals = vec![0.5f32; 6];
    let areas = vec![2.0f32, 3.0];
    let (p, n, a) = decimate_for_score(&positions, &normals, &areas, 2);
    assert_eq!((p, n, a), (positions, normals, areas));
}

#[test]
fn distinct_extremes_drop_repeats() {
    assert_eq!(distinct_extremes(&vec![0, 5, 0, 3, 5, 3]), vec![0, 5, 3]);
    assert_eq!(distinct_extremes(&vec![4, 4, 4, 4, 4, 4]), vec![4]);
}

#[test]
fn hull_sample_takes_stride_then_lowest() {
    // Extremes 0 and 9, stride picks 1, 4 (9 already taken), 7; target 5 is reached.
    assert_eq!(complete_hull_sample(10, &vec![0, 9], &vec![1, 1, 4, 9, 7, 8], 5), vec![0, 9, 1, 4, 7]);
    // No stride picks: the lowest vertices not yet taken fill up the sample.
    assert_eq!(complete_hull_sample(6, &vec![2], &vec![], 4), vec![2, 0, 1, 3]);
}

#[test]
fn hull_sample_stops_at_target() {
    assert_eq!(complete_hull_sample(6, &vec![2, 3], &vec![1], 2), vec![2, 3]);
    let s = complete_hull_sample(100, &vec![50], &vec![10, 20, 30], 40);
    assert_eq!(s.len(), 40);
    let mut sorted = s.clone();
    sorted.sort();
    sorted.dedup();
    assert_eq!(sorted.len(), 40);
}
