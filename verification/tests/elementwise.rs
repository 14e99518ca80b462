use t4a_bench::elementwise::{
    col_major_index, parse_fourier_algo, parse_gaussian_algo, AciTolerance, ElementwiseAlgo,
    FIT_NFULLSWEEPS,
};
use t4a_bench::patched::{pair_algo, PatchedEngine};

#[test]
fn engines_name_the_code_that_runs_each_arm() {
    assert_eq!(ElementwiseAlgo::Naive.engine(), "local");
    assert_eq!(ElementwiseAlgo::Zipup.engine(), "treetn");
    assert_eq!(ElementwiseAlgo::Fit.engine(), "treetn");
    assert_eq!(ElementwiseAlgo::Aci.engine(), "aci");
    assert_eq!(FIT_NFULLSWEEPS, 2);
    assert_ne!(AciTolerance::Absolute, AciTolerance::ScaleRelative);
}

#[test]
fn runner_algorithm_names_parse() {
    assert!(matches!(parse_fourier_algo("naive"), Some(ElementwiseAlgo::Naive)));
    assert!(matches!(parse_fourier_algo("zipup"), Some(ElementwiseAlgo::Zipup)));
    assert!(matches!(parse_fourier_algo("fit"), Some(ElementwiseAlgo::Fit)));
    assert!(matches!(parse_fourier_algo("aci"), Some(ElementwiseAlgo::Aci)));
    assert!(parse_fourier_algo("fit_treetn").is_none());
    assert!(matches!(parse_gaussian_algo("zipup_treetn"), Some(ElementwiseAlgo::Zipup)));
    assert!(matches!(parse_gaussian_algo("fit_treetn"), Some(ElementwiseAlgo::Fit)));
    assert!(matches!(parse_gaussian_algo("naive"), Some(ElementwiseAlgo::Naive)));
    assert!(matches!(parse_gaussian_algo("aci"), Some(ElementwiseAlgo::Aci)));
    assert!(parse_gaussian_algo("zipup").is_none());
    assert!(parse_gaussian_algo("").is_none());
}

#[test]
fn single_free_site_pairs_use_the_local_product() {
    assert!(matches!(pair_algo(PatchedEngine::FitTreetn, 1), ElementwiseAlgo::Naive));
    assert!(matches!(pair_algo(PatchedEngine::Aci, 0), ElementwiseAlgo::Naive));
    assert!(matches!(pair_algo(PatchedEngine::FitTreetn, 2), ElementwiseAlgo::Fit));
    assert!(matches!(pair_algo(PatchedEngine::Aci, 5), ElementwiseAlgo::Aci));
    assert!(matches!(PatchedEngine::Aci.algo(), ElementwiseAlgo::Aci));
    assert!(matches!(PatchedEngine::FitTreetn.algo(), ElementwiseAlgo::Fit));
}

#[test]
fn col_major_index_matches_the_naive_kronecker_layout() {
    assert_eq!(col_major_index(&vec![1, 2], &vec![3, 4]), 7);
    let (la, lb, s, ra, rb) = (2usize, 3usize, 4usize, 2usize, 3usize);
    let dims = vec![la, lb, s, ra, rb];
    let mut seen = vec![false; la * lb * s * ra * rb];
    for r2 in 0..rb {
        for r1 in 0..ra {
            for si in 0..s {
                for l2 in 0..lb {
                    for l1 in 0..la {
                        let idx = (l1 + la * l2) + la * lb * (si + s * (r1 + ra * r2));
                        assert_eq!(col_major_index(&vec![l1, l2, si, r1, r2], &dims), idx);
                        assert!(!seen[idx]);
                        seen[idx] = true;
                    }
                }
            }
        }
    }
    assert!(seen.iter().all(|&hit| hit));
}
