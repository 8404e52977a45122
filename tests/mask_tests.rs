use blue_noise::{
    ranks_from_points, assign_ranks, build_prototype, complement_field, Prototype, dither_mask, find_largest_void, find_tightest_cluster,
    initial_point_count, initial_points, kernel_len, popcount, rank_pixels, toroidal_sq_distance,
    update_weights,
};

fn gaussian_kernel(width: u32, sigma: f64) -> Vec<u32> {
    let scale = u32::MAX as f64;
    (0..kernel_len(width))
        .map(|d| ((-(d as f64) / (2.0 * sigma * sigma)).exp() * scale).round() as u32)
        .collect()
}

fn is_permutation(ranks: &[u32]) -> bool {
    let n = ranks.len();
    let mut seen = vec![false; n];
    for &r in ranks {
        let r = r as usize;
        if r >= n || seen[r] {
            return false;
        }
        seen[r] = true;
    }
    true
}

#[test]
fn wrapped_offset_matches_short_offset() {
    assert_eq!(toroidal_sq_distance(8, 7, 0), toroidal_sq_distance(8, 1, 0));
    assert_eq!(toroidal_sq_distance(8, 7, 0), 1);
    assert_eq!(toroidal_sq_distance(8, 56, 0), 1);
    assert_eq!(toroidal_sq_distance(8, 0, 7), toroidal_sq_distance(8, 7, 0));
    assert_eq!(toroidal_sq_distance(8, 4, 0), 16);
    assert_eq!(toroidal_sq_distance(8, 9, 54), 9 + 9);
}

#[test]
fn distance_is_periodic_and_reversible() {
    let w = 6u32;
    for a in 0..36usize {
        for b in 0..36usize {
            assert_eq!(toroidal_sq_distance(w, a, b), toroidal_sq_distance(w, b, a));
            let shifted = (a % 6 + 1) % 6 + (a / 6) * 6;
            let other = (b % 6 + 1) % 6 + (b / 6) * 6;
            assert_eq!(toroidal_sq_distance(w, a, b), toroidal_sq_distance(w, shifted, other));
        }
    }
}

#[test]
fn kernel_table_size() {
    assert_eq!(kernel_len(8), 33);
    assert_eq!(kernel_len(5), 9);
    assert_eq!(kernel_len(1), 1);
}

#[test]
fn update_adds_weight_by_distance() {
    let kernel: Vec<u32> = (0..kernel_len(4)).map(|d| 100 - d as u32).collect();
    let mut w = vec![0i128; 16];
    update_weights(&mut w, 4, &kernel, 5, 1);
    assert_eq!(w[5], 100);
    assert_eq!(w[6], 99);
    assert_eq!(w[7], 96);
    assert_eq!(w[15], 92);
    update_weights(&mut w, 4, &kernel, 0, -1);
    assert_eq!(w[0], 100 - 2 - 100);
}

#[test]
fn update_then_revert_restores_field() {
    let kernel = gaussian_kernel(8, 1.5);
    let mut w: Vec<i128> = (0..64).map(|i| (i as i128) * 12345 - 400_000).collect();
    let before = w.clone();
    update_weights(&mut w, 8, &kernel, 27, 1);
    assert_ne!(w, before);
    update_weights(&mut w, 8, &kernel, 27, -1);
    assert_eq!(w, before);
}

#[test]
fn ties_go_to_the_first_cell() {
    let pattern = vec![0u8, 1, 0, 1, 1, 0];
    let weights = vec![5i128, 9, 2, 9, 1, 2];
    assert_eq!(find_tightest_cluster(&pattern, &weights, 1), Some(1));
    assert_eq!(find_largest_void(&pattern, &weights, 1), Some(2));
    assert_eq!(find_tightest_cluster(&pattern, &weights, 0), Some(0));
    assert_eq!(find_largest_void(&pattern, &weights, 0), Some(4));
}

#[test]
fn search_without_candidates() {
    let pattern = vec![1u8, 1, 1];
    let weights = vec![3i128, 1, 2];
    assert_eq!(find_tightest_cluster(&pattern, &weights, 0), None);
    assert_eq!(find_largest_void(&pattern, &weights, 1), None);
    assert_eq!(find_tightest_cluster(&pattern, &weights, 1), Some(0));
    assert_eq!(find_largest_void(&pattern, &weights, 0), Some(1));
}

#[test]
fn initial_draw_counts() {
    assert_eq!(initial_point_count(16), 26);
    assert_eq!(initial_point_count(4), 1);
    assert_eq!(initial_point_count(3), 0);
    assert_eq!(initial_point_count(64), 416);
}

#[test]
fn initial_points_follow_the_seed() {
    let a = initial_points(11, 16);
    let b = initial_points(11, 16);
    let c = initial_points(12, 16);
    assert_eq!(a.len(), 26);
    assert!(a.iter().all(|&p| p < 256));
    assert_eq!(a, b);
    assert_ne!(a, c);
}

#[test]
fn pixels_scale_ranks() {
    let pixels = rank_pixels(&vec![0, 3, 1, 2]);
    assert_eq!(pixels, vec![0, 0, 0, 192, 192, 192, 64, 64, 64, 128, 128, 128]);
    let pixels = rank_pixels(&vec![2, 0, 1]);
    assert_eq!(pixels, vec![170, 170, 170, 0, 0, 0, 85, 85, 85]);
}

fn converges_for(widths: std::ops::RangeInclusive<u32>) {
    for width in widths {
        let kernel = gaussian_kernel(width, 1.5);
        let points = initial_points(2024, width);
        let proto = build_prototype(width, &kernel, &points);
        assert_eq!(proto.pattern.len(), (width * width) as usize);
        assert_eq!(popcount(&proto.pattern) <= points.len(), true);
    }
}

#[test]
fn prototype_settles_small_widths() {
    converges_for(2..=24);
}

#[test]
fn prototype_settles_medium_widths() {
    converges_for(25..=40);
}

#[test]
fn prototype_settles_large_widths() {
    converges_for(41..=52);
}

#[test]
fn prototype_settles_largest_widths() {
    converges_for(53..=64);
}

#[test]
fn prototype_with_no_points_is_empty() {
    let kernel = gaussian_kernel(3, 1.5);
    let proto = build_prototype(3, &kernel, &vec![]);
    assert_eq!(proto.pattern, vec![0u8; 9]);
    assert_eq!(proto.weights, vec![0i128; 9]);
}

#[test]
fn prototype_removes_duplicate_draws() {
    let kernel = gaussian_kernel(4, 1.5);
    let proto = build_prototype(4, &kernel, &vec![5, 5, 6]);
    assert_eq!(popcount(&proto.pattern), 2);
}

#[test]
fn phases_split_the_ranks() {
    let width = 4u32;
    let kernel = gaussian_kernel(width, 1.5);
    let points = initial_points(99, width);
    assert_eq!(points.len(), 1);
    let proto = build_prototype(width, &kernel, &points);
    let ones = popcount(&proto.pattern);
    assert_eq!(ones, 1);
    assert!(points[0] < 16);
    assert_eq!(proto.pattern[0], 1);
    let ranks = assign_ranks(width, &kernel, &proto);
    assert!(is_permutation(&ranks));
    for i in 0..16 {
        assert_eq!(proto.pattern[i] == 1, (ranks[i] as usize) < ones);
    }
    assert_eq!(ranks[0], 0);
    let first_half = ranks.iter().filter(|&&r| r < 8).count();
    assert_eq!(first_half, 8);
    assert_eq!(ranks.iter().max(), Some(&15));
}

#[test]
fn ranks_are_a_permutation() {
    for width in 2..=12u32 {
        let kernel = gaussian_kernel(width, 1.5);
        let ranks = dither_mask(width, &kernel, 5);
        assert_eq!(ranks.len(), (width * width) as usize);
        assert!(is_permutation(&ranks));
    }
}

#[test]
fn same_seed_same_mask() {
    let kernel = gaussian_kernel(16, 1.5);
    let a = dither_mask(16, &kernel, 42);
    let b = dither_mask(16, &kernel, 42);
    let c = dither_mask(16, &kernel, 43);
    assert_eq!(a, b);
    assert_ne!(a, c);
    assert!(is_permutation(&a));
}

#[test]
fn wide_sigma_still_ranks_every_cell() {
    let kernel = gaussian_kernel(8, 4.0);
    let ranks = dither_mask(8, &kernel, 1);
    assert!(is_permutation(&ranks));
}

#[test]
fn complement_field_sums_empty_cells() {
    let kernel = vec![10u32, 5, 1];
    let w = complement_field(&vec![1u8, 0, 0, 0], 2, &kernel);
    assert_eq!(w, vec![11i128, 16, 16, 20]);
}

#[test]
fn ranks_follow_clusters_and_voids() {
    let kernel = vec![10u32, 5, 1];
    let proto = Prototype { pattern: vec![0, 0, 0, 1], weights: vec![1, 5, 5, 10] };
    let ranks = assign_ranks(2, &kernel, &proto);
    assert_eq!(ranks, vec![1, 2, 3, 0]);
}

#[test]
fn single_cell_grid() {
    let kernel = gaussian_kernel(1, 1.5);
    assert_eq!(dither_mask(1, &kernel, 3), vec![0]);
    assert_eq!(rank_pixels(&vec![0]), vec![0, 0, 0]);
}

#[test]
fn phases_replay_with_searches() {
    let width = 4u32;
    let n = 16usize;
    let kernel = gaussian_kernel(width, 1.5);
    let points = initial_points(7, width);
    assert_eq!(points.len(), 1);
    let proto = build_prototype(width, &kernel, &points);
    let ranks = assign_ranks(width, &kernel, &proto);
    let ones = popcount(&proto.pattern);

    // Removing clusters gives the prototype's cells in descending rank.
    let mut pattern = proto.pattern.clone();
    let mut weights = proto.weights.clone();
    let mut rank = ones;
    while rank > 0 {
        let c = find_tightest_cluster(&pattern, &weights, 1).unwrap();
        pattern[c] = 0;
        update_weights(&mut weights, width, &kernel, c, -1);
        rank -= 1;
        assert_eq!(ranks[c] as usize, rank);
    }
    assert_eq!(find_tightest_cluster(&pattern, &weights, 1), None);

    // Filling voids gives ranks from the count up to half the grid.
    let mut pattern = proto.pattern.clone();
    let mut weights = proto.weights.clone();
    for r in ones..n / 2 {
        let v = find_largest_void(&pattern, &weights, 1).unwrap();
        assert_eq!(ranks[v] as usize, r);
        pattern[v] = 1;
        update_weights(&mut weights, width, &kernel, v, 1);
    }
    assert_eq!(pattern.iter().filter(|&&b| b == 1).count(), 8);

    // The field of the zeros, rebuilt cell by cell.
    let mut field = vec![0i128; n];
    for i in 0..n {
        if pattern[i] == 0 {
            update_weights(&mut field, width, &kernel, i, 1);
        }
    }
    assert_eq!(field, complement_field(&pattern, width, &kernel));

    // Eight cluster calls take the zeros in rank order 8..=15.
    let mut seen = Vec::new();
    for r in 8..16usize {
        let c = find_tightest_cluster(&pattern, &field, 0).unwrap();
        assert_eq!(pattern[c], 0);
        assert_eq!(ranks[c] as usize, r);
        seen.push(c);
        pattern[c] = 1;
        update_weights(&mut field, width, &kernel, c, -1);
    }
    seen.sort();
    seen.dedup();
    assert_eq!(seen.len(), 8);
    assert_eq!(find_tightest_cluster(&pattern, &field, 0), None);
    assert!(is_permutation(&ranks));
}

#[test]
fn ranks_from_points_matches_dither_mask() {
    let kernel = gaussian_kernel(16, 1.5);
    let points = initial_points(42, 16);
    assert_eq!(ranks_from_points(16, &kernel, &points), dither_mask(16, &kernel, 42));
}

#[test]
fn repeated_draws_keep_one_cell_each() {
    let kernel = gaussian_kernel(8, 1.5);
    let proto = build_prototype(8, &kernel, &vec![3, 3, 3, 40, 41]);
    assert_eq!(popcount(&proto.pattern), 3);
}
