use t4a_bench::gaussian3d_input::{
    batch_diagonal_source, pivot_components_3d, stable_key_hash, validate_cached,
};
use t4a_bench::gaussian_input::{
    checked_product, pivot_components, push_unique, tensortrain_n_params, validate_cached_pair,
    validate_input_counts, InputCountError,
    CachedShapeError, GAUSSIAN_R, INPUT_TCI_MAX_BOND, INPUT_TCI_PIVOT_COMPONENTS, PATCH_CAP,
};
use t4a_bench::mpo_contract::{
    center_sample_components, direct_product_bytes, DirectProductError, FIT_NSWEEPS,
};

#[test]
fn instance_constants() {
    assert_eq!(GAUSSIAN_R, 16);
    assert_eq!(PATCH_CAP, 128);
    assert_eq!(INPUT_TCI_MAX_BOND, 1024);
    assert_eq!(INPUT_TCI_PIVOT_COMPONENTS, 16);
    assert_eq!(FIT_NSWEEPS, 1);
}

#[test]
fn stable_key_hash_is_fnv1a() {
    assert_eq!(stable_key_hash(""), 0xcbf29ce484222325);
    assert_eq!(stable_key_hash("a"), 0xaf63dc4c8601ec8c);
    assert_eq!(stable_key_hash("foobar"), 0x85944171f73967e8);
    assert_ne!(stable_key_hash("n2"), stable_key_hash("n3"));
}

#[test]
fn batch_diagonal_entries_read_the_fused_site() {
    for output in 0..4 {
        for input in 0..4 {
            let expected = if input % 2 == output % 2 {
                Some(output % 2 + 2 * (output / 2) + 4 * (input / 2))
            } else {
                None
            };
            assert_eq!(batch_diagonal_source(output, input), expected);
        }
    }
    let mut hits = [0; 8];
    for output in 0..4 {
        for input in 0..4 {
            if let Some(site) = batch_diagonal_source(output, input) {
                hits[site] += 1;
            }
        }
    }
    assert_eq!(hits, [1; 8]);
}

#[test]
fn pivot_and_holdout_components_are_disjoint() {
    assert_eq!(pivot_components(16, 5, false), vec![0, 2]);
    assert_eq!(pivot_components(16, 5, true), vec![1, 3]);
    assert_eq!(pivot_components(1, 9, false), vec![0]);
    assert_eq!(pivot_components(1, 9, true), vec![4]);
    assert_eq!(pivot_components(16, 1, false), vec![0]);
    assert_eq!(pivot_components(0, 4, false), Vec::<usize>::new());
    for len in 2..40 {
        for count in 1..12 {
            let seeds = pivot_components(count, len, false);
            let holdout = pivot_components(count, len, true);
            assert!(holdout.iter().all(|c| !seeds.contains(c)), "len={len} count={count}");
        }
    }
}

#[test]
fn pivot_components_3d_spread_over_the_mixture() {
    assert_eq!(pivot_components_3d(2, 8), vec![0, 4]);
    assert_eq!(pivot_components_3d(16, 3), vec![0, 1, 2]);
    assert_eq!(pivot_components_3d(0, 3), Vec::<usize>::new());
}

#[test]
fn pivots_are_kept_distinct() {
    let mut pivots = Vec::new();
    push_unique(&mut pivots, vec![1, 2]);
    push_unique(&mut pivots, vec![3, 4]);
    push_unique(&mut pivots, vec![1, 2]);
    push_unique(&mut pivots, vec![1]);
    assert_eq!(pivots, vec![vec![1, 2], vec![3, 4], vec![1]]);
}

#[test]
fn cached_shapes_are_validated() {
    assert_eq!(validate_cached_pair(&vec![4; 3], &vec![4; 3], 3), Ok(()));
    assert_eq!(
        validate_cached_pair(&vec![4; 3], &vec![4; 2], 3),
        Err(CachedShapeError::SiteCount)
    );
    assert_eq!(
        validate_cached_pair(&vec![4, 8, 4], &vec![4; 3], 3),
        Err(CachedShapeError::SiteDimension)
    );
    assert_eq!(validate_cached(&vec![8; 4], 4), Ok(()));
    assert_eq!(validate_cached(&vec![8; 4], 5), Err(CachedShapeError::SiteCount));
    assert_eq!(
        validate_cached(&vec![8, 4, 8, 8], 4),
        Err(CachedShapeError::SiteDimension)
    );
}

#[test]
fn parameter_counts_sum_core_sizes() {
    assert_eq!(tensortrain_n_params(&vec![vec![1, 4, 3], vec![3, 4, 1]]), Some(24));
    assert_eq!(tensortrain_n_params(&vec![]), Some(0));
    assert_eq!(tensortrain_n_params(&vec![vec![usize::MAX, 2]]), None);
    assert_eq!(
        tensortrain_n_params(&vec![vec![usize::MAX], vec![1]]),
        None
    );
    assert_eq!(checked_product(&vec![usize::MAX, usize::MAX, 0]), Some(0));
    assert_eq!(checked_product(&vec![]), Some(1));
}

#[test]
fn direct_product_budget_is_checked_before_forming_it() {
    let first = vec![(1usize, 2usize, 2usize, 3usize), (3, 2, 2, 1)];
    let second = first.clone();
    assert_eq!(direct_product_bytes(&first, &second, usize::MAX), Ok(2304));
    assert_eq!(
        direct_product_bytes(&first, &second, 0),
        Err(DirectProductError::TooLarge {
            bytes: 2304,
            limit: 0
        })
    );
    assert_eq!(
        direct_product_bytes(&first, &second[..1].to_vec(), usize::MAX),
        Err(DirectProductError::LengthMismatch)
    );
    let huge = vec![(usize::MAX, 2, 1, 1)];
    let one = vec![(1usize, 1usize, 1usize, 1usize)];
    assert_eq!(
        direct_product_bytes(&huge, &one, usize::MAX),
        Err(DirectProductError::ParameterOverflow)
    );
    let large = vec![(usize::MAX / 4, 1, 1, 1)];
    assert_eq!(
        direct_product_bytes(&large, &one, usize::MAX),
        Err(DirectProductError::ByteOverflow)
    );
}

#[test]
fn center_samples_run_from_first_to_last_component() {
    assert_eq!(center_sample_components(3, 5), vec![0, 2, 4]);
    assert_eq!(center_sample_components(1, 5), vec![0]);
    assert_eq!(center_sample_components(10, 4), vec![0, 1, 2, 3]);
    assert_eq!(center_sample_components(4, 100), vec![0, 33, 66, 99]);
}

#[test]
fn empty_mixtures_have_no_pivot_components() {
    assert_eq!(pivot_components(0, 0, false), Vec::<usize>::new());
    assert_eq!(pivot_components(0, 0, true), Vec::<usize>::new());
    assert_eq!(pivot_components_3d(0, 0), Vec::<usize>::new());
    assert_eq!(pivot_components_3d(5, 0), Vec::<usize>::new());
}

#[test]
fn input_counts_are_checked_in_order() {
    assert_eq!(validate_input_counts(2, None, 64, 2), Ok(()));
    assert_eq!(validate_input_counts(2, Some(8), 64, 2), Ok(()));
    assert_eq!(validate_input_counts(0, Some(0), 0, 0), Err(InputCountError::NoGaussians));
    assert_eq!(validate_input_counts(2, Some(0), 0, 0), Err(InputCountError::NoFixedBoxGaussians));
    assert_eq!(validate_input_counts(2, None, 0, 0), Err(InputCountError::ZeroRankCap));
    assert_eq!(validate_input_counts(2, Some(3), 1, 0), Err(InputCountError::NoPivotComponents));
}

#[test]
fn center_samples_of_a_single_component() {
    assert_eq!(center_sample_components(4, 1), vec![0]);
    assert_eq!(center_sample_components(1, 7), vec![0]);
}
