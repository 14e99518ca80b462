use t4a_bench::gaussian_input::tensortrain_n_params;
use t4a_bench::patched::{
    check_bridge_shape, embedded_edge_dims, free_sites, matching_patch, max_patch_bond,
    parse_split_strategy, split_strategy_label, total_params, BridgeError, PatchOverlap,
    PatchShape, SplitStrategy,
};

#[test]
fn split_strategies_parse_and_label() {
    assert_eq!(parse_split_strategy("gain"), Some(SplitStrategy::ExactParameterGain));
    assert_eq!(parse_split_strategy("sequential"), Some(SplitStrategy::Sequential));
    assert_eq!(parse_split_strategy("Gain"), None);
    assert_eq!(parse_split_strategy(""), None);
    for strategy in [SplitStrategy::ExactParameterGain, SplitStrategy::Sequential] {
        assert_eq!(parse_split_strategy(split_strategy_label(strategy)), Some(strategy));
    }
    assert_eq!(split_strategy_label(SplitStrategy::ExactParameterGain), "gain");
    assert_eq!(split_strategy_label(SplitStrategy::Sequential), "sequential");
}

#[test]
fn free_sites_are_the_unprojected_positions() {
    assert_eq!(free_sites(&vec![true, false, true, false]), vec![1, 3]);
    assert_eq!(free_sites(&vec![true, true]), Vec::<usize>::new());
    assert_eq!(free_sites(&vec![false, false, false]), vec![0, 1, 2]);
}

#[test]
fn fixed_sites_carry_the_product_bond_across() {
    assert_eq!(embedded_edge_dims(4, &vec![1, 3], &vec![5]), vec![1, 5, 5]);
    assert_eq!(embedded_edge_dims(3, &vec![0, 1, 2], &vec![2, 3]), vec![2, 3]);
    assert_eq!(embedded_edge_dims(3, &vec![], &vec![]), vec![1, 1]);
    assert_eq!(embedded_edge_dims(6, &vec![1, 4], &vec![7]), vec![1, 7, 7, 7, 1]);
    assert_eq!(embedded_edge_dims(0, &vec![], &vec![]), Vec::<usize>::new());
}

#[test]
fn exactly_one_patch_owns_each_point() {
    let patches = vec![
        vec![Some(0), None],
        vec![Some(1), Some(0)],
        vec![Some(1), Some(1)],
    ];
    assert_eq!(matching_patch(&patches, &vec![0, 3]), Ok(Some(0)));
    assert_eq!(matching_patch(&patches, &vec![1, 0]), Ok(Some(1)));
    assert_eq!(matching_patch(&patches, &vec![1, 1]), Ok(Some(2)));
    assert_eq!(matching_patch(&patches, &vec![2, 1]), Ok(None));
    let overlapping = vec![vec![None, Some(2)], vec![Some(1), None], vec![Some(1), Some(2)]];
    assert_eq!(
        matching_patch(&overlapping, &vec![1, 2]),
        Err(PatchOverlap {
            first: 0,
            second: 1
        })
    );
    assert_eq!(matching_patch(&Vec::new(), &vec![0]), Ok(None));
}

#[test]
fn only_free_cores_count_as_parameters() {
    let site_dims = vec![4, 4, 4];
    let patches = vec![
        PatchShape {
            projected: vec![true, false, false],
            link_dims: vec![1, 3],
        },
        PatchShape {
            projected: vec![false, false, false],
            link_dims: vec![2, 2],
        },
        PatchShape {
            projected: vec![true, true, true],
            link_dims: vec![1, 1],
        },
    ];
    assert_eq!(total_params(&patches, &site_dims), Some(24 + 32));
    assert_eq!(total_params(&Vec::new(), &site_dims), Some(0));
    let huge = vec![PatchShape {
        projected: vec![false],
        link_dims: vec![],
    }];
    assert_eq!(total_params(&huge, &vec![usize::MAX]), Some(usize::MAX));
    let too_many = vec![
        PatchShape {
            projected: vec![false],
            link_dims: vec![],
        },
        PatchShape {
            projected: vec![false],
            link_dims: vec![],
        },
    ];
    assert_eq!(total_params(&too_many, &vec![usize::MAX]), None);
}

#[test]
fn bridge_shape_checks_sites_and_bonds() {
    let cores = vec![(1, 4, 2), (2, 4, 3), (3, 4, 1)];
    assert_eq!(check_bridge_shape(&cores, &vec![2, 3], &vec![4, 4, 4]), Ok(()));
    assert_eq!(
        check_bridge_shape(&cores, &vec![2, 3], &vec![4, 4]),
        Err(BridgeError::SiteCount {
            train: 3,
            expected: 2
        })
    );
    assert_eq!(
        check_bridge_shape(&cores, &vec![2, 3], &vec![4, 2, 4]),
        Err(BridgeError::SiteDimension {
            position: 1,
            found: 4,
            expected: 2
        })
    );
    assert_eq!(
        check_bridge_shape(&vec![(2, 4, 2), (2, 4, 1)], &vec![2], &vec![4, 4]),
        Err(BridgeError::Bond {
            position: 0,
            left: 2,
            right: 2
        })
    );
    assert_eq!(
        check_bridge_shape(&vec![(1, 4, 2), (3, 4, 1)], &vec![2], &vec![4, 4]),
        Err(BridgeError::Bond {
            position: 1,
            left: 3,
            right: 1
        })
    );
}

#[test]
fn max_patch_bond_of_no_patches_is_zero() {
    assert_eq!(max_patch_bond(&vec![3, 7, 2]), 7);
    assert_eq!(max_patch_bond(&vec![]), 0);
}

#[test]
fn intersections_of_two_disjoint_covers_cover_disjointly() {
    let left = vec![vec![Some(0), None], vec![Some(1), None]];
    let right = vec![vec![None, Some(0)], vec![Some(0), Some(1)], vec![Some(1), Some(1)]];
    let mut merged = Vec::new();
    for a in &left {
        for b in &right {
            let compatible = a
                .iter()
                .zip(b)
                .all(|(x, y)| x.is_none() || y.is_none() || x == y);
            if compatible {
                merged.push(a.iter().zip(b).map(|(x, y)| x.or(*y)).collect::<Vec<_>>());
            }
        }
    }
    assert_eq!(merged.len(), 4);
    for x in 0..2 {
        for y in 0..2 {
            assert!(matches!(matching_patch(&merged, &vec![x, y]), Ok(Some(_))));
        }
    }
}

#[test]
fn an_unprojected_patch_counts_as_its_whole_train() {
    let site_dims = vec![4, 4, 4, 4];
    let link_dims = vec![3, 5, 2];
    let patch = PatchShape {
        projected: vec![false; 4],
        link_dims: link_dims.clone(),
    };
    let shapes = vec![vec![1, 4, 3], vec![3, 4, 5], vec![5, 4, 2], vec![2, 4, 1]];
    let expected = tensortrain_n_params(&shapes);
    assert_eq!(expected, Some(12 + 60 + 40 + 8));
    assert_eq!(total_params(&vec![patch], &site_dims), expected);
}
