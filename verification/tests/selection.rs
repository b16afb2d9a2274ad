use orient_core::selection::merge_candidates;

fn angle_between(a: &[f32; 3], b: &[f32; 3]) -> f32 {
    let dot = a[0] * b[0] + a[1] * b[1] + a[2] * b[2];
    let la = (a[0] * a[0] + a[1] * a[1] + a[2] * a[2]).sqrt();
    let lb = (b[0] * b[0] + b[1] * b[1] + b[2] * b[2]).sqrt();
    (dot / (la * lb)).clamp(-1.0, 1.0).acos().to_degrees()
}

fn select(
    scored: &[(usize, f32)],
    directions: &[[f32; 3]],
    stable_flags: &[bool],
    exclude_unstable: bool,
    max_candidates: usize,
    min_angle_deg: f32,
) -> Vec<usize> {
    let order: Vec<usize> = scored.iter().map(|s| s.0).collect();
    let close: Vec<Vec<bool>> = directions
        .iter()
        .map(|a| directions.iter().map(|b| angle_between(a, b) < min_angle_deg).collect())
        .collect();
    merge_candidates(&order, &stable_flags.to_vec(), exclude_unstable, max_candidates, &close)
}

fn fan_directions() -> Vec<[f32; 3]> {
    vec![
        [0.0, 0.0, 1.0],
        [0.173648, 0.0, 0.984807],
        [0.342020, 0.0, 0.939692],
        [0.5, 0.0, 0.866025],
        [0.642787, 0.0, 0.766044],
    ]
}

#[test]
fn merge_candidates_diversity_filter() {
    let scored: Vec<(usize, f32)> = vec![(0, 0.1), (1, 0.2), (2, 0.3), (3, 0.4), (4, 0.5)];
    let stable_flags = vec![true; 5];
    let result = select(&scored, &fan_directions(), &stable_flags, false, 10, 15.0);
    assert_eq!(result, vec![0, 2, 4]);
}

#[test]
fn merge_candidates_excludes_unstable_when_flagged() {
    let scored: Vec<(usize, f32)> = vec![(0, 0.1), (1, 0.2), (2, 0.3), (3, 0.4), (4, 0.5)];
    let stable_flags = vec![true, true, false, true, true];
    let result = select(&scored, &fan_directions(), &stable_flags, true, 10, 15.0);
    assert_eq!(result, vec![0, 3]);
}

#[test]
fn merge_candidates_caps_at_max() {
    let scored: Vec<(usize, f32)> = (0..10).map(|i| (i, i as f32 * 0.1)).collect();
    let directions: Vec<[f32; 3]> = (0..10)
        .map(|i| {
            let angle = (i as f32 * 36.0).to_radians();
            [angle.sin(), 0.0, angle.cos()]
        })
        .collect();
    let stable_flags = vec![true; 10];
    let result = select(&scored, &directions, &stable_flags, false, 3, 15.0);
    assert_eq!(result.len(), 3);
}

#[test]
fn picks_follow_ranked_order() {
    let close = vec![vec![true, false, false], vec![false, true, true], vec![false, true, true]];
    let picked = merge_candidates(&vec![2, 1, 0], &vec![true, true, true], false, 5, &close);
    assert_eq!(picked, vec![2, 0]);
}

#[test]
fn zero_cap_picks_nothing() {
    let close = vec![vec![true]];
    assert!(merge_candidates(&vec![0], &vec![true], false, 0, &close).is_empty());
}
