use t4a_bench::patched_mpo::{
    assignment_values, axis_depth, chain_edge_count, check_pair_inputs, contraction_proxy_sums,
    count_distinct_regions, leading_projected, regular_layout, regular_refinement_plan,
    sorted_patch_values,
    split_site_roles, sweep_edge_visits, MpoPatchLayout, PairProxy, ProxyOverflow, ProxyStage,
    PairInputError, RefineError, RegularRefinement, SiteRoleError,
};

#[test]
fn layouts_have_stable_tokens() {
    assert_eq!(MpoPatchLayout::BalancedXyz.as_str(), "balanced_xyz");
    assert_eq!(MpoPatchLayout::SharedYOnly.as_str(), "shared_y_only");
}

#[test]
fn sweep_visits_count_every_chain_edge_twice() {
    assert_eq!(sweep_edge_visits(16), 30);
    assert_eq!(sweep_edge_visits(2), 2);
    assert_eq!(sweep_edge_visits(1), 2);
    assert_eq!(sweep_edge_visits(0), 2);
    assert_eq!(chain_edge_count(16), 15);
    assert_eq!(chain_edge_count(0), 1);
}

#[test]
fn depth_is_the_deepest_projected_prefix() {
    assert_eq!(leading_projected(&vec![true, true, false, true]), 2);
    assert_eq!(leading_projected(&vec![]), 0);
    assert_eq!(
        axis_depth(&vec![vec![true, false], vec![true, true], vec![false, true]]),
        2
    );
    assert_eq!(axis_depth(&vec![]), 0);
}

#[test]
fn assignments_fix_their_bits() {
    assert_eq!(assignment_values(5, 3), vec![1, 0, 1]);
    assert_eq!(assignment_values(0, 0), Vec::<usize>::new());
    let mut seen = std::collections::HashSet::new();
    for assignment in 0..16 {
        assert!(seen.insert(assignment_values(assignment, 4)));
    }
}

/// Compatibility of two projectors given as `(index, value)` lists.
fn compatible(a: &[(usize, usize)], b: &[(usize, usize)]) -> bool {
    a.iter()
        .all(|(i, v)| b.iter().all(|(j, w)| i != j || v == w))
}

#[test]
fn regular_refinement_splits_coarse_sources_without_overlap() {
    // Index 0 is x, index 1 is y. The adaptive partition is x = 0 (coarse),
    // then x = 1 split at y.
    let sources: Vec<Vec<(usize, usize)>> =
        vec![vec![(0, 0)], vec![(0, 1), (1, 0)], vec![(0, 1), (1, 1)]];
    let axes = [vec![0usize], vec![1usize]];
    let depths: Vec<usize> = axes
        .iter()
        .map(|axis| {
            axis_depth(
                &sources
                    .iter()
                    .map(|source| {
                        axis.iter()
                            .map(|index| source.iter().any(|(i, _)| i == index))
                            .collect()
                    })
                    .collect(),
            )
        })
        .collect();
    assert_eq!(depths, vec![1, 1]);
    let layout = regular_layout(&depths, &vec![vec![2], vec![2]]).unwrap();
    assert_eq!(layout.indices, vec![(0, 0), (1, 0)]);
    assert_eq!(layout.count, 4);
    let mut refinement = RegularRefinement::new(sources.len());
    let mut regular = Vec::new();
    for assignment in 0..layout.count {
        let values = assignment_values(assignment, layout.indices.len());
        let target: Vec<(usize, usize)> = layout
            .indices
            .iter()
            .zip(&values)
            .map(|(&(axis, position), &value)| (axes[axis][position], value))
            .collect();
        let flags: Vec<bool> = sources.iter().map(|s| compatible(s, &target)).collect();
        if let Some(source) = refinement.assign(assignment, &flags).unwrap() {
            regular.push((source, target));
        }
    }
    assert_eq!(refinement.finish(), Ok(()));
    assert_eq!(regular.len(), 4);
    for x in 0..2 {
        for y in 0..2 {
            let matching: Vec<_> = regular
                .iter()
                .filter(|(_, target)| target.contains(&(0, x)) && target.contains(&(1, y)))
                .collect();
            assert_eq!(matching.len(), 1);
        }
    }
}

#[test]
fn refinement_errors_are_reported() {
    assert_eq!(
        regular_layout(&vec![2], &vec![vec![2, 3]]).err(),
        Some(RefineError::NotBinary {
            axis: 0,
            position: 1
        })
    );
    assert_eq!(
        regular_layout(&vec![64], &vec![vec![2; 64]]).err(),
        Some(RefineError::CountOverflow { bits: 64 })
    );
    let mut refinement = RegularRefinement::new(2);
    assert_eq!(
        refinement.assign(3, &vec![true, true]),
        Err(RefineError::MultipleSources { assignment: 3 })
    );
    assert_eq!(refinement.assign(4, &vec![false, false]), Ok(None));
    assert_eq!(refinement.assign(5, &vec![false, true]), Ok(Some(1)));
    assert_eq!(refinement.finish(), Err(RefineError::Uncovered { source: 0 }));
}

#[test]
fn distinct_regions_are_counted_once() {
    let regions = vec![
        vec![Some(0), None],
        vec![Some(1), None],
        vec![Some(0), None],
        vec![None, None],
        vec![Some(1), None],
    ];
    assert_eq!(count_distinct_regions(&regions), 3);
    assert_eq!(count_distinct_regions(&vec![]), 0);
}

#[test]
fn contraction_proxies_sum_products() {
    let pairs = vec![
        PairProxy {
            left_params: 10,
            right_params: 20,
            left_bond: 3,
            right_bond: 4,
        },
        PairProxy {
            left_params: 1,
            right_params: 5,
            left_bond: 2,
            right_bond: 2,
        },
    ];
    assert_eq!(contraction_proxy_sums(&pairs), Ok((205, 16)));
    assert_eq!(contraction_proxy_sums(&vec![]), Ok((0, 0)));
    let overflow = vec![PairProxy {
        left_params: usize::MAX,
        right_params: 2,
        left_bond: 1,
        right_bond: 1,
    }];
    assert_eq!(
        contraction_proxy_sums(&overflow),
        Err(ProxyOverflow {
            pair: 0,
            stage: ProxyStage::ParameterProduct
        })
    );
    let bond_overflow = vec![PairProxy {
        left_params: 1,
        right_params: 1,
        left_bond: usize::MAX,
        right_bond: 2,
    }];
    assert_eq!(
        contraction_proxy_sums(&bond_overflow),
        Err(ProxyOverflow {
            pair: 0,
            stage: ProxyStage::BondProduct
        })
    );
}

#[test]
fn patch_values_are_sorted() {
    assert_eq!(sorted_patch_values(vec![3, 1, 2, 1]), vec![1, 1, 2, 3]);
}

#[test]
fn regular_assignments_cover_every_value_combination_once() {
    let mut seen = Vec::new();
    for assignment in 0..8 {
        let values = assignment_values(assignment, 3);
        assert!(!seen.contains(&values));
        seen.push(values);
    }
    for a in 0..2 {
        for b in 0..2 {
            for c in 0..2 {
                assert!(seen.contains(&vec![a, b, c]));
            }
        }
    }
}

#[test]
fn site_indices_split_into_own_and_shared_roles() {
    let left = vec![vec![10, 20], vec![11, 21]];
    let right = vec![vec![20, 30], vec![31, 11]];
    assert_eq!(split_site_roles(&left, &right), Ok(vec![(10, 20, 30), (21, 11, 31)]));
    let no_shared = vec![vec![1, 2]];
    assert_eq!(
        split_site_roles(&no_shared, &vec![vec![3, 4]]),
        Err(SiteRoleError::SharedCount { site: 0 })
    );
    assert_eq!(
        split_site_roles(&vec![vec![1, 2], vec![5, 6]], &vec![vec![2, 3], vec![5, 6]]),
        Err(SiteRoleError::SharedCount { site: 1 })
    );
    assert_eq!(
        split_site_roles(&vec![vec![1, 2, 4]], &vec![vec![2, 3]]),
        Err(SiteRoleError::NotMpoLike { site: 0 })
    );
    assert_eq!(split_site_roles(&Vec::new(), &Vec::new()), Ok(Vec::new()));
}

#[test]
fn pair_inputs_are_checked_in_order() {
    assert_eq!(check_pair_inputs(4, 4, 128), Ok(()));
    assert_eq!(check_pair_inputs(0, 0, 128), Err(PairInputError::Empty));
    assert_eq!(check_pair_inputs(0, 3, 0), Err(PairInputError::Empty));
    assert_eq!(check_pair_inputs(4, 3, 0), Err(PairInputError::LengthMismatch));
    assert_eq!(check_pair_inputs(4, 4, 0), Err(PairInputError::ZeroPatchCap));
}

#[test]
fn regular_refinement_plan_cuts_each_regular_patch_from_one_source() {
    let sources = vec![
        vec![vec![Some(0)], vec![None]],
        vec![vec![Some(1)], vec![Some(0)]],
        vec![vec![Some(1)], vec![Some(1)]],
    ];
    let dims = vec![vec![2], vec![2]];
    let (layout, plan) = match regular_refinement_plan(&sources, &dims) {
        Ok(plan) => plan,
        Err(e) => panic!("refused: {e:?}"),
    };
    assert_eq!(layout.indices, vec![(0, 0), (1, 0)]);
    assert_eq!(layout.count, 4);
    let got: Vec<(usize, Vec<usize>, usize)> =
        plan.into_iter().map(|p| (p.assignment, p.values, p.source)).collect();
    assert_eq!(
        got,
        vec![(0, vec![0, 0], 0), (1, vec![1, 0], 1), (2, vec![0, 1], 0), (3, vec![1, 1], 2)]
    );
}

#[test]
fn regular_refinement_plan_refusals() {
    let overlapping = vec![vec![vec![None]], vec![vec![Some(0)]]];
    assert!(matches!(
        regular_refinement_plan(&overlapping, &vec![vec![2]]),
        Err(RefineError::MultipleSources { assignment: 0 })
    ));
    let stray = vec![vec![vec![Some(5)]], vec![vec![Some(0)]]];
    assert!(matches!(
        regular_refinement_plan(&stray, &vec![vec![2]]),
        Err(RefineError::Uncovered { source: 0 })
    ));
    let ternary = vec![vec![vec![Some(0)]]];
    assert!(matches!(
        regular_refinement_plan(&ternary, &vec![vec![3]]),
        Err(RefineError::NotBinary { axis: 0, position: 0 })
    ));
    let (layout, plan) = match regular_refinement_plan(&vec![vec![vec![None]]], &vec![vec![2]]) {
        Ok(plan) => plan,
        Err(e) => panic!("refused: {e:?}"),
    };
    assert_eq!(layout.count, 1);
    assert_eq!(plan.len(), 1);
    assert_eq!(plan[0].source, 0);
}

#[test]
fn sorted_values_end_at_the_largest_and_keep_the_sum() {
    let values = vec![7, 3, 9, 1, 9, 4];
    let sorted = sorted_patch_values(values.clone());
    assert_eq!(*sorted.last().unwrap(), t4a_bench::patched::max_patch_bond(&values));
    assert_eq!(sorted.iter().sum::<usize>(), values.iter().sum::<usize>());
    assert_eq!(sorted_patch_values(Vec::new()).len(), 0);
    assert_eq!(t4a_bench::patched::max_patch_bond(&Vec::new()), 0);
}
