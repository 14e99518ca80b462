use t4a_bench::harness::{
    fused_point, fused_point_3d, index_to_bits, interleaved_point, sample_grid_indices,
    split_joint_index,
};

#[test]
fn index_to_bits_msb_first() {
    assert_eq!(index_to_bits(0b100, 3), vec![1, 0, 0]);
    assert_eq!(index_to_bits(0b011, 3), vec![0, 1, 1]);
}

#[test]
fn sample_grid_indices_is_deterministic_and_in_range() {
    let a = sample_grid_indices(10, 64, 7);
    let b = sample_grid_indices(10, 64, 7);
    assert_eq!(a, b);
    assert_eq!(a.len(), 64);
    assert!(a.iter().all(|&i| i < 1u64 << 10));
}

#[test]
fn sampled_indices_are_not_the_bound_itself() {
    // A draw from 0..2^r that returned its bound would leave the grid.
    let indices = sample_grid_indices(1, 256, 3);
    assert!(indices.iter().all(|&i| i < 2));
    assert!(indices.contains(&0) && indices.contains(&1));
}

#[test]
fn index_bits_read_back_as_the_index_modulo_the_grid() {
    for (i, r) in [(0u64, 0usize), (5, 3), (13, 3), (u64::MAX, 64), (0xdead_beef, 20)] {
        let bits = index_to_bits(i, r);
        assert_eq!(bits.len(), r);
        let value = bits.iter().fold(0u128, |acc, &b| 2 * acc + b as u128);
        let modulus = 1u128 << r;
        assert_eq!(value, i as u128 % modulus);
    }
}

#[test]
fn fused_point_packs_x_and_y_bits() {
    assert_eq!(fused_point(0b101, 0b011, 3), vec![1, 2, 3]);
    for (x, y) in [(0u64, 0u64), (37, 20), (63, 1), (32, 32)] {
        let point = fused_point(x, y, 6);
        let xb = index_to_bits(x, 6);
        let yb = index_to_bits(y, 6);
        let expected: Vec<usize> = (0..6).map(|n| xb[n] + 2 * yb[n]).collect();
        assert_eq!(point, expected);
    }
}

#[test]
fn fused_points_of_distinct_grid_points_differ() {
    let r = 4;
    let mut seen = std::collections::HashSet::new();
    for x in 0..16u64 {
        for y in 0..16u64 {
            assert!(seen.insert(fused_point(x, y, r)));
        }
    }
    assert_eq!(seen.len(), 256);
}

#[test]
fn fused_point_3d_packs_three_bits() {
    assert_eq!(fused_point_3d(0b10, 0b01, 0b11, 2), vec![1 + 4, 2 + 4]);
}

#[test]
fn interleaved_point_alternates_x_and_z() {
    assert_eq!(interleaved_point(0b10, 0b01, 2), vec![1, 0, 0, 1]);
}

#[test]
fn joint_index_splits_into_high_and_low_halves() {
    assert_eq!(split_joint_index(0x1234_5678, 16), (0x1234, 0x5678));
    assert_eq!(split_joint_index(7, 0), (7, 0));
}

#[test]
fn shorter_samplings_are_prefixes_of_longer_ones() {
    let long = sample_grid_indices(10, 64, 7);
    let short = sample_grid_indices(10, 16, 7);
    assert_eq!(short[..], long[..16]);
    assert_ne!(sample_grid_indices(10, 64, 8), long);
}

#[test]
fn smaller_indices_have_lexicographically_smaller_bits() {
    for i in 0u64..16 {
        for j in (i + 1)..16 {
            assert!(index_to_bits(i, 4) < index_to_bits(j, 4), "{i} {j}");
        }
    }
    assert!(index_to_bits(0b0111, 4) < index_to_bits(0b1000, 4));
}
