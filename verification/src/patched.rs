//! Bookkeeping of the patched (domain decomposed) elementwise product:
//! which engine runs inside a patch pair, how the split strategy is named,
//! which sites a merged projector leaves free, the bond dimensions of a
//! product embedded back onto all sites, which patch owns an evaluation
//! point, the parameter count of a patched representation, and the shape
//! check of a global train bridged onto the shared site indices.

use vstd::prelude::*;
use crate::elementwise::ElementwiseAlgo;
use crate::text::same_text;
use crate::gaussian_input::{entries, product};

verus! {

/// Which engine forms the product inside one patch pair.
#[derive(Clone, Copy, Debug, PartialEq, Eq, Structural)]
pub enum PatchedEngine {
    /// Hadamard product with the variational fit contraction.
    FitTreetn,
    /// Adaptive cross interpolation of the product.
    Aci,
}

impl PatchedEngine {
    /// The global arm whose algorithm this engine runs on a patch pair.
    pub fn algo(self) -> (algo: ElementwiseAlgo)
        ensures
            algo == (match self {
                PatchedEngine::FitTreetn => ElementwiseAlgo::Fit,
                PatchedEngine::Aci => ElementwiseAlgo::Aci,
            }),
    {
        match self {
            PatchedEngine::FitTreetn => ElementwiseAlgo::Fit,
            PatchedEngine::Aci => ElementwiseAlgo::Aci,
        }
    }
}

/// The algorithm that multiplies one patch pair with `free_count` free sites.
///
/// A single free site has no sweep to run, so the sweeping engines have
/// nothing to contribute and the local product is the whole computation.
pub fn pair_algo(engine: PatchedEngine, free_count: usize) -> (algo: ElementwiseAlgo)
    ensures
        algo == (if free_count >= 2 {
            engine.algo_spec()
        } else {
            ElementwiseAlgo::Naive
        }),
{
    if free_count >= 2 {
        engine.algo()
    } else {
        ElementwiseAlgo::Naive
    }
}

impl PatchedEngine {
    /// The algorithm of [`PatchedEngine::algo`], as a specification.
    pub open spec fn algo_spec(self) -> ElementwiseAlgo {
        match self {
            PatchedEngine::FitTreetn => ElementwiseAlgo::Fit,
            PatchedEngine::Aci => ElementwiseAlgo::Aci,
        }
    }
}

/// How a patch over its rank cap chooses the index it is split at.
#[derive(Clone, Copy, Debug, PartialEq, Eq, Structural)]
pub enum SplitStrategy {
    /// Form and budget-truncate the children of every candidate index and keep
    /// the cheapest.
    ExactParameterGain,
    /// Take the first unprojected index of the patch order, coarse to fine.
    Sequential,
}

/// Name of a split strategy as it appears in `BENCH_PATCH_SPLIT` and in the
/// records.
pub open spec fn strategy_label(strategy: SplitStrategy) -> Seq<char> {
    match strategy {
        SplitStrategy::ExactParameterGain => "gain"@,
        SplitStrategy::Sequential => "sequential"@,
    }
}

/// The strategy named `name`, if any.
pub open spec fn strategy_named(name: Seq<char>) -> Option<SplitStrategy> {
    if name == "gain"@ {
        Some(SplitStrategy::ExactParameterGain)
    } else if name == "sequential"@ {
        Some(SplitStrategy::Sequential)
    } else {
        None
    }
}

/// Parse `BENCH_PATCH_SPLIT` into a split strategy.
pub fn parse_split_strategy(name: &str) -> (strategy: Option<SplitStrategy>)
    ensures
        strategy == strategy_named(name@),
{
    if same_text(name, "gain") {
        Some(SplitStrategy::ExactParameterGain)
    } else if same_text(name, "sequential") {
        Some(SplitStrategy::Sequential)
    } else {
        None
    }
}

/// Name of a split strategy as it appears in `BENCH_PATCH_SPLIT` and in the
/// records.
pub fn split_strategy_label(strategy: SplitStrategy) -> (label: &'static str)
    ensures
        label@ == strategy_label(strategy),
{
    match strategy {
        SplitStrategy::ExactParameterGain => "gain",
        SplitStrategy::Sequential => "sequential",
    }
}

/// Law: the label of every strategy parses back to that strategy, so a
/// record token always names the strategy that produced it.
pub proof fn lemma_split_strategy_label_round_trip(strategy: SplitStrategy)
    ensures
        strategy_named(strategy_label(strategy)) == Some(strategy),
{
    reveal_strlit("gain");
    reveal_strlit("sequential");
    assert("sequential"@.len() != "gain"@.len());
}

/// `free` lists, in increasing order, exactly the positions that
/// `projected` leaves unprojected.
pub open spec fn is_free_list(free: Seq<usize>, projected: Seq<bool>) -> bool {
    &&& forall|i: int, j: int| 0 <= i < j < free.len() ==> free[i] < free[j]
    &&& forall|i: int|
        0 <= i < free.len() ==> #[trigger] free[i] < projected.len() && !projected[free[i] as int]
    &&& forall|p: int| 0 <= p < projected.len() && !projected[p] ==> free.contains(p as usize)
}

/// The sites a merged projector leaves free, in site order.
pub fn free_sites(projected: &Vec<bool>) -> (free: Vec<usize>)
    ensures
        is_free_list(free@, projected@),
{
    let mut free: Vec<usize> = Vec::new();
    let mut p: usize = 0;
    while p < projected.len()
        invariant
            p <= projected@.len(),
            forall|i: int, j: int| 0 <= i < j < free@.len() ==> free@[i] < free@[j],
            forall|i: int|
                0 <= i < free@.len() ==> #[trigger] free@[i] < p && !projected@[free@[i] as int],
            forall|q: int| 0 <= q < p && !projected@[q] ==> free@.contains(q as usize),
        decreases projected@.len() - p,
    {
        if !projected[p] {
            let ghost before = free@;
            free.push(p);
            assert forall|q: int| 0 <= q < p + 1 && !projected@[q] implies free@.contains(
                q as usize,
            ) by {
                if q < p {
                    let w = choose|w: int| 0 <= w < before.len() && before[w] == q as usize;
                    assert(free@[w] == q as usize);
                } else {
                    assert(free@[before.len() as int] == p);
                }
            }
        }
        p = p + 1;
    }
    free
}

/// How many entries of `free` are at most `edge`.
pub open spec fn count_at_most(free: Seq<usize>, edge: int) -> nat
    decreases free.len(),
{
    if free.len() == 0 {
        0
    } else {
        count_at_most(free.drop_last(), edge) + if free.last() as int <= edge {
            1nat
        } else {
            0nat
        }
    }
}

proof fn lemma_count_at_most_bound(free: Seq<usize>, edge: int)
    ensures
        count_at_most(free, edge) <= free.len(),
    decreases free.len(),
{
    if free.len() > 0 {
        lemma_count_at_most_bound(free.drop_last(), edge);
    }
}

/// Bond dimension of interior edge `edge` of a product over the free sites
/// `free` (with bonds `link_dims`) once it is embedded back onto all sites: an
/// edge with no free site on its left, or with all of them, carries nothing.
pub open spec fn embedded_edge_dim(free: Seq<usize>, link_dims: Seq<usize>, edge: int) -> usize {
    let left_free = count_at_most(free, edge);
    if left_free == 0 || left_free == free.len() {
        1
    } else {
        link_dims[left_free - 1]
    }
}

/// Bond dimensions of the `n - 1` interior edges of a free-site product
/// embedded back onto all `n` sites, the fixed sites carrying the bond across.
pub fn embedded_edge_dims(n: usize, free: &Vec<usize>, link_dims: &Vec<usize>) -> (dims: Vec<
    usize,
>)
    requires
        free@.len() == 0 || link_dims@.len() + 1 == free@.len(),
    ensures
        dims@.len() == (if n == 0 {
            0
        } else {
            n - 1
        }),
        forall|e: int| 0 <= e < dims@.len() ==> #[trigger] dims@[e] == embedded_edge_dim(
            free@,
            link_dims@,
            e,
        ),
{
    let edges: usize = if n == 0 {
        0
    } else {
        n - 1
    };
    let mut dims: Vec<usize> = Vec::with_capacity(edges);
    let mut edge: usize = 0;
    while edge < edges
        invariant
            edge <= edges,
            edges == (if n == 0 {
                0
            } else {
                n - 1
            }),
            free@.len() == 0 || link_dims@.len() + 1 == free@.len(),
            dims@.len() == edge,
            forall|e: int| 0 <= e < edge ==> #[trigger] dims@[e] == embedded_edge_dim(
                free@,
                link_dims@,
                e,
            ),
        decreases edges - edge,
    {
        let mut left_free: usize = 0;
        let mut k: usize = 0;
        while k < free.len()
            invariant
                k <= free@.len(),
                left_free == count_at_most(free@.take(k as int), edge as int),
                left_free <= k,
            decreases free@.len() - k,
        {
            assert(free@.take(k + 1).drop_last() =~= free@.take(k as int));
            if free[k] <= edge {
                left_free = left_free + 1;
            }
            k = k + 1;
        }
        assert(free@.take(free@.len() as int) =~= free@);
        let dim = if left_free == 0 || left_free == free.len() {
            1
        } else {
            link_dims[left_free - 1]
        };
        dims.push(dim);
        edge = edge + 1;
    }
    dims
}

proof fn lemma_count_at_most_split(s: Seq<usize>, edge: int, idx: nat)
    requires
        idx <= s.len(),
        forall|k: int| 0 <= k < idx ==> s[k] as int <= edge,
        forall|k: int| idx <= k < s.len() ==> s[k] as int > edge,
    ensures
        count_at_most(s, edge) == idx,
    decreases s.len(),
{
    if s.len() > 0 {
        if idx == s.len() {
            lemma_count_at_most_split(s.drop_last(), edge, (idx - 1) as nat);
        } else {
            lemma_count_at_most_split(s.drop_last(), edge, idx);
        }
    }
}

/// Law: once the free-site product is embedded back onto all sites, every
/// edge between two consecutive free sites carries the product's bond between
/// them (the fixed sites in between pass it across), and every edge before
/// the first or after the last free site has dimension one.
pub proof fn lemma_embedded_edges_carry_product_bonds(
    free: Seq<usize>,
    link_dims: Seq<usize>,
    edge: int,
)
    requires
        forall|i: int, j: int| 0 <= i < j < free.len() ==> free[i] < free[j],
        free.len() == 0 || link_dims.len() + 1 == free.len(),
    ensures
        forall|j: int|
            0 <= j < free.len() - 1 && free[j] as int <= edge < free[j + 1] as int
                ==> embedded_edge_dim(free, link_dims, edge) == link_dims[j],
        (free.len() == 0 || edge < free[0] as int || edge >= free[free.len() - 1] as int)
            ==> embedded_edge_dim(free, link_dims, edge) == 1,
{
    assert forall|j: int|
        0 <= j < free.len() - 1 && free[j] as int <= edge < free[j + 1] as int implies embedded_edge_dim(
        free,
        link_dims,
        edge,
    ) == link_dims[j] by {
        assert forall|k: int| 0 <= k < j + 1 implies free[k] as int <= edge by {
            if k < j {
                assert(free[k] < free[j]);
            }
        }
        assert forall|k: int| j + 1 <= k < free.len() implies free[k] as int > edge by {
            if k > j + 1 {
                assert(free[j + 1] < free[k]);
            }
        }
        lemma_count_at_most_split(free, edge, (j + 1) as nat);
    }
    if free.len() > 0 {
        if edge < free[0] as int {
            assert forall|k: int| 0 <= k < free.len() implies free[k] as int > edge by {
                if k > 0 {
                    assert(free[0] < free[k]);
                }
            }
            lemma_count_at_most_split(free, edge, 0);
        } else if edge >= free[free.len() - 1] as int {
            assert forall|k: int| 0 <= k < free.len() implies free[k] as int <= edge by {
                if k < free.len() - 1 {
                    assert(free[k] < free[free.len() - 1]);
                }
            }
            lemma_count_at_most_split(free, edge, free.len());
        }
    }
}

/// Whether a patch whose projector fixes `projector[s]` (when `Some`) at each
/// site contains the fused point `point`.
pub open spec fn projector_matches(projector: Seq<Option<usize>>, point: Seq<usize>) -> bool {
    forall|s: int|
        0 <= s < point.len() ==> match #[trigger] projector[s] {
            Some(fixed) => fixed == point[s],
            None => true,
        }
}

/// Two patches claim the same point, so the partition overlaps.
#[derive(Clone, Copy, Debug, PartialEq, Eq, Structural)]
pub struct PatchOverlap {
    pub first: usize,
    pub second: usize,
}

fn matches_point(projector: &Vec<Option<usize>>, point: &Vec<usize>) -> (matches: bool)
    requires
        projector@.len() == point@.len(),
    ensures
        matches == projector_matches(projector@, point@),
{
    let mut s: usize = 0;
    while s < point.len()
        invariant
            projector@.len() == point@.len(),
            s <= point@.len(),
            forall|t: int|
                0 <= t < s ==> match #[trigger] projector@[t] {
                    Some(fixed) => fixed == point@[t],
                    None => true,
                },
        decreases point@.len() - s,
    {
        match projector[s] {
            Some(fixed) => {
                if fixed != point[s] {
                    return false;
                }
            },
            None => {},
        }
        s = s + 1;
    }
    true
}

/// The one patch of a disjoint cover that contains `point`.
///
/// Exactly one patch can match when the patches are disjoint and cover the
/// domain. No match means the patch was dropped by the budgeting, which the
/// caller evaluates to zero; two matches mean the partition overlaps.
pub fn matching_patch(projectors: &Vec<Vec<Option<usize>>>, point: &Vec<usize>) -> (found: Result<
    Option<usize>,
    PatchOverlap,
>)
    requires
        forall|k: int| 0 <= k < projectors@.len() ==> #[trigger] projectors@[k]@.len() == point@.len(),
    ensures
        match found {
            Ok(Some(k)) => k < projectors@.len() && projector_matches(projectors@[k as int]@, point@)
                && forall|j: int|
                0 <= j < projectors@.len() && j != k ==> !projector_matches(
                    #[trigger] projectors@[j]@,
                    point@,
                ),
            Ok(None) => forall|j: int|
                0 <= j < projectors@.len() ==> !projector_matches(#[trigger] projectors@[j]@, point@),
            Err(overlap) => overlap.first < overlap.second < projectors@.len() && projector_matches(
                projectors@[overlap.first as int]@,
                point@,
            ) && projector_matches(projectors@[overlap.second as int]@, point@),
        },
{
    let mut found: Option<usize> = None;
    let mut k: usize = 0;
    while k < projectors.len()
        invariant
            k <= projectors@.len(),
            forall|j: int| 0 <= j < projectors@.len() ==> #[trigger] projectors@[j]@.len() == point@.len(),
            match found {
                Some(f) => f < k && projector_matches(projectors@[f as int]@, point@) && forall|j: int|
                    0 <= j < k && j != f ==> !projector_matches(#[trigger] projectors@[j]@, point@),
                None => forall|j: int|
                    0 <= j < k ==> !projector_matches(#[trigger] projectors@[j]@, point@),
            },
        decreases projectors@.len() - k,
    {
        if matches_point(&projectors[k], point) {
            match found {
                Some(f) => {
                    return Err(PatchOverlap { first: f, second: k });
                },
                None => {
                    found = Some(k);
                },
            }
        }
        k = k + 1;
    }
    Ok(found)
}

/// Whether two projectors over the same sites agree wherever both fix a site,
/// so that their subdomains intersect.
pub open spec fn projectors_compatible(a: Seq<Option<usize>>, b: Seq<Option<usize>>) -> bool {
    &&& a.len() == b.len()
    &&& forall|s: int|
        0 <= s < a.len() ==> match (#[trigger] a[s], b[s]) {
            (Some(x), Some(y)) => x == y,
            _ => true,
        }
}

/// The projector of the intersection of two compatible subdomains: every
/// site that either projector fixes, at the value it is fixed to.
pub open spec fn merged_projector(a: Seq<Option<usize>>, b: Seq<Option<usize>>) -> Seq<
    Option<usize>,
> {
    Seq::new(a.len(), |s: int| if a[s] is Some { a[s] } else { b[s] })
}

/// Whether `point` is a point of the grid of `n` sites with `d` values each.
pub open spec fn in_grid(point: Seq<usize>, n: nat, d: nat) -> bool {
    &&& point.len() == n
    &&& forall|s: int| 0 <= s < n ==> #[trigger] point[s] < d
}

/// Whether the projectors `patches` cover the grid of `n` sites with `d`
/// values each disjointly: every grid point lies in exactly one patch.
pub open spec fn is_disjoint_cover(patches: Seq<Seq<Option<usize>>>, n: nat, d: nat) -> bool {
    &&& forall|k: int| 0 <= k < patches.len() ==> (#[trigger] patches[k]).len() == n
    &&& forall|point: Seq<usize>|
        #![trigger in_grid(point, n, d)]
        in_grid(point, n, d) ==> {
            &&& exists|k: int| 0 <= k < patches.len() && projector_matches(patches[k], point)
            &&& forall|k1: int, k2: int|
                0 <= k1 < patches.len() && 0 <= k2 < patches.len() && projector_matches(
                    #[trigger] patches[k1],
                    point,
                ) && projector_matches(#[trigger] patches[k2], point) ==> k1 == k2
        }
}

/// A point lies in two subdomains exactly when the subdomains are compatible
/// and the point lies in their intersection.
proof fn lemma_merged_projector_matches(
    a: Seq<Option<usize>>,
    b: Seq<Option<usize>>,
    point: Seq<usize>,
)
    requires
        a.len() == point.len(),
        b.len() == point.len(),
    ensures
        projector_matches(a, point) && projector_matches(b, point) <==> projectors_compatible(a, b)
            && projector_matches(merged_projector(a, b), point),
{
    let m = merged_projector(a, b);
    if projector_matches(a, point) && projector_matches(b, point) {
        assert forall|s: int| 0 <= s < a.len() implies match (#[trigger] a[s], b[s]) {
            (Some(x), Some(y)) => x == y,
            _ => true,
        } by {
            assert(match a[s] { Some(fixed) => fixed == point[s], None => true });
            assert(match b[s] { Some(fixed) => fixed == point[s], None => true });
        }
        assert forall|s: int| 0 <= s < point.len() implies match #[trigger] m[s] {
            Some(fixed) => fixed == point[s],
            None => true,
        } by {
            assert(match a[s] { Some(fixed) => fixed == point[s], None => true });
            assert(match b[s] { Some(fixed) => fixed == point[s], None => true });
        }
    }
    if projectors_compatible(a, b) && projector_matches(m, point) {
        assert forall|s: int| 0 <= s < point.len() implies match #[trigger] a[s] {
            Some(fixed) => fixed == point[s],
            None => true,
        } by {
            assert(match m[s] { Some(fixed) => fixed == point[s], None => true });
        }
        assert forall|s: int| 0 <= s < point.len() implies match #[trigger] b[s] {
            Some(fixed) => fixed == point[s],
            None => true,
        } by {
            assert(match m[s] { Some(fixed) => fixed == point[s], None => true });
            assert(match (a[s], b[s]) {
                (Some(x), Some(y)) => x == y,
                _ => true,
            });
        }
    }
}

/// Law: when both inputs of a patched product cover the grid disjointly, the
/// intersections of their compatible patch pairs cover it disjointly too.
/// Every grid point lies in the intersection of exactly one compatible pair,
/// so each output patch comes from one input pair and no two output patches
/// ever have to be added.
pub proof fn lemma_pairwise_intersections_are_a_disjoint_cover(
    left: Seq<Seq<Option<usize>>>,
    right: Seq<Seq<Option<usize>>>,
    n: nat,
    d: nat,
    point: Seq<usize>,
)
    requires
        is_disjoint_cover(left, n, d),
        is_disjoint_cover(right, n, d),
        in_grid(point, n, d),
    ensures
        exists|i: int, j: int|
            0 <= i < left.len() && 0 <= j < right.len() && projectors_compatible(left[i], right[j])
                && projector_matches(merged_projector(left[i], right[j]), point),
        forall|i1: int, j1: int, i2: int, j2: int|
            0 <= i1 < left.len() && 0 <= j1 < right.len() && 0 <= i2 < left.len() && 0 <= j2
                < right.len() && projectors_compatible(left[i1], right[j1]) && projector_matches(
                #[trigger] merged_projector(left[i1], right[j1]),
                point,
            ) && projectors_compatible(left[i2], right[j2]) && projector_matches(
                #[trigger] merged_projector(left[i2], right[j2]),
                point,
            ) ==> i1 == i2 && j1 == j2,
{
    assert(in_grid(point, n, d));
    let i = choose|k: int| 0 <= k < left.len() && projector_matches(left[k], point);
    let j = choose|k: int| 0 <= k < right.len() && projector_matches(right[k], point);
    lemma_merged_projector_matches(left[i], right[j], point);
    assert forall|i1: int, j1: int, i2: int, j2: int|
        0 <= i1 < left.len() && 0 <= j1 < right.len() && 0 <= i2 < left.len() && 0 <= j2
            < right.len() && projectors_compatible(left[i1], right[j1]) && projector_matches(
            #[trigger] merged_projector(left[i1], right[j1]),
            point,
        ) && projectors_compatible(left[i2], right[j2]) && projector_matches(
            #[trigger] merged_projector(left[i2], right[j2]),
            point,
        ) implies i1 == i2 && j1 == j2 by {
        lemma_merged_projector_matches(left[i1], right[j1], point);
        lemma_merged_projector_matches(left[i2], right[j2], point);
    }
}

/// Shape of one patch train as the parameter count reads it: which sites its
/// projector fixes and the dimensions of its interior bonds.
pub struct PatchShape {
    pub projected: Vec<bool>,
    pub link_dims: Vec<usize>,
}

/// Left bond of the core at `position`; a boundary bond has dimension one.
pub open spec fn left_bond(link_dims: Seq<usize>, position: int) -> nat {
    if 0 < position && position - 1 < link_dims.len() {
        link_dims[position - 1] as nat
    } else {
        1
    }
}

/// Right bond of the core at `position`; a boundary bond has dimension one.
pub open spec fn right_bond(link_dims: Seq<usize>, position: int) -> nat {
    if 0 <= position < link_dims.len() {
        link_dims[position] as nat
    } else {
        1
    }
}

/// Stored parameters of the free cores among the first `n` sites of a patch.
pub open spec fn free_core_params(
    projected: Seq<bool>,
    site_dims: Seq<usize>,
    link_dims: Seq<usize>,
    n: nat,
) -> nat
    decreases n,
{
    if n == 0 {
        0
    } else {
        let p = (n - 1) as int;
        free_core_params(projected, site_dims, link_dims, (n - 1) as nat) + if projected[p] {
            0nat
        } else {
            left_bond(link_dims, p) * site_dims[p] as nat * right_bond(link_dims, p)
        }
    }
}

/// Stored parameters of the first `k` patches.
pub open spec fn patches_params(patches: Seq<PatchShape>, site_dims: Seq<usize>, k: nat) -> nat
    decreases k,
{
    if k == 0 {
        0
    } else {
        let patch = patches[k - 1];
        patches_params(patches, site_dims, (k - 1) as nat) + free_core_params(
            patch.projected@,
            site_dims,
            patch.link_dims@,
            site_dims.len(),
        )
    }
}

/// Number of stored parameters of a patched representation.
///
/// Only the free sites of a patch are counted: the cores at the fixed sites
/// are one-hot copy selectors, structure rather than data. `None` when the
/// count does not fit in `usize`.
pub fn total_params(patches: &Vec<PatchShape>, site_dims: &Vec<usize>) -> (total: Option<usize>)
    requires
        forall|k: int|
            0 <= k < patches@.len() ==> #[trigger] patches@[k].projected@.len() == site_dims@.len(),
    ensures
        match total {
            Some(t) => t as nat == patches_params(patches@, site_dims@, patches@.len()),
            None => patches_params(patches@, site_dims@, patches@.len()) > usize::MAX,
        },
{
    let n = site_dims.len();
    let mut total: usize = 0;
    let mut k: usize = 0;
    while k < patches.len()
        invariant
            k <= patches@.len(),
            n == site_dims@.len(),
            forall|j: int|
                0 <= j < patches@.len() ==> #[trigger] patches@[j].projected@.len() == site_dims@.len(),
            total as nat == patches_params(patches@, site_dims@, k as nat),
        decreases patches@.len() - k,
    {
        let patch = &patches[k];
        let mut p: usize = 0;
        let mut sum: usize = total;
        while p < n
            invariant
                p <= n,
                k < patches@.len(),
                *patch == patches@[k as int],
                n == site_dims@.len(),
                patch.projected@.len() == n,
                sum as nat == patches_params(patches@, site_dims@, k as nat) + free_core_params(
                    patch.projected@,
                    site_dims@,
                    patch.link_dims@,
                    p as nat,
                ),
            decreases n - p,
        {
            if !patch.projected[p] {
                let left: usize = if p > 0 && p - 1 < patch.link_dims.len() {
                    patch.link_dims[p - 1]
                } else {
                    1
                };
                let right: usize = if p < patch.link_dims.len() {
                    patch.link_dims[p]
                } else {
                    1
                };
                let core = checked_product3(left, site_dims[p], right);
                let next = match core {
                    Some(c) => sum.checked_add(c),
                    None => None,
                };
                match next {
                    Some(s) => {
                        sum = s;
                    },
                    None => {
                        proof {
                            let t = left as nat * site_dims@[p as int] as nat * right as nat;
                            assert(t == left_bond(patch.link_dims@, p as int) * site_dims@[p as int] as nat
                                * right_bond(patch.link_dims@, p as int));
                            assert(sum as nat + t > usize::MAX);
                            assert(free_core_params(patch.projected@, site_dims@, patch.link_dims@, (p + 1) as nat)
                                == free_core_params(patch.projected@, site_dims@, patch.link_dims@, p as nat) + t);
                            lemma_free_core_params_monotone(
                                patch.projected@,
                                site_dims@,
                                patch.link_dims@,
                                (p + 1) as nat,
                                n as nat,
                            );
                            lemma_patches_params_monotone(
                                patches@,
                                site_dims@,
                                (k + 1) as nat,
                                patches@.len(),
                            );
                            assert(patches_params(patches@, site_dims@, (k + 1) as nat) == patches_params(patches@, site_dims@, k as nat)
                                + free_core_params(patch.projected@, site_dims@, patch.link_dims@, n as nat));
                        }
                        return None;
                    },
                }
            }
            p = p + 1;
        }
        total = sum;
        k = k + 1;
    }
    Some(total)
}

/// Core shapes `[left, site, right]` of a train with site dimensions
/// `site_dims` and interior bonds `link_dims`, boundary bonds being one.
pub open spec fn train_core_shapes(site_dims: Seq<usize>, link_dims: Seq<usize>) -> Seq<Seq<usize>> {
    Seq::new(
        site_dims.len(),
        |p: int| seq![left_bond(link_dims, p) as usize, site_dims[p], right_bond(link_dims, p) as usize],
    )
}

proof fn lemma_free_cores_of_unprojected_patch(
    projected: Seq<bool>,
    site_dims: Seq<usize>,
    link_dims: Seq<usize>,
    n: nat,
)
    requires
        n <= site_dims.len(),
        projected.len() == site_dims.len(),
        forall|p: int| 0 <= p < projected.len() ==> !projected[p],
    ensures
        free_core_params(projected, site_dims, link_dims, n) == entries(
            train_core_shapes(site_dims, link_dims).take(n as int),
        ),
    decreases n,
{
    let shapes = train_core_shapes(site_dims, link_dims);
    if n == 0 {
        assert(shapes.take(0) =~= Seq::<Seq<usize>>::empty());
    } else {
        let p = (n - 1) as int;
        lemma_free_cores_of_unprojected_patch(projected, site_dims, link_dims, (n - 1) as nat);
        assert(shapes.take(n as int).drop_last() =~= shapes.take(p));
        let l = left_bond(link_dims, p);
        let r = right_bond(link_dims, p);
        assert(l as usize as nat == l && r as usize as nat == r);
        let core = shapes.take(n as int).last();
        assert(core == seq![l as usize, site_dims[p], r as usize]);
        let c2 = core.drop_last();
        let c1 = c2.drop_last();
        let c0 = c1.drop_last();
        assert(c2 =~= seq![l as usize, site_dims[p]]);
        assert(c1 =~= seq![l as usize]);
        assert(c0 =~= Seq::<usize>::empty());
        assert(product(c0) == 1);
        assert(product(c1) == product(c0) * l);
        assert(product(c2) == product(c1) * site_dims[p] as nat);
        assert(product(core) == product(c2) * r);
        assert(product(core) == l * site_dims[p] as nat * r);
    }
}

/// Law: a patch whose projector fixes no site is a whole train, and its
/// parameter count is that of the train: the sum over its cores of
/// `left * site * right`, boundary bonds counted as one.
pub proof fn lemma_unprojected_patch_counts_every_core(patch: PatchShape, site_dims: Seq<usize>)
    requires
        patch.projected@.len() == site_dims.len(),
        forall|p: int| 0 <= p < patch.projected@.len() ==> !patch.projected@[p],
    ensures
        patches_params(seq![patch], site_dims, 1) == entries(
            train_core_shapes(site_dims, patch.link_dims@),
        ),
{
    lemma_free_cores_of_unprojected_patch(
        patch.projected@,
        site_dims,
        patch.link_dims@,
        site_dims.len(),
    );
    let shapes = train_core_shapes(site_dims, patch.link_dims@);
    assert(shapes.take(site_dims.len() as int) =~= shapes);
    assert(seq![patch][0] == patch);
    assert(patches_params(seq![patch], site_dims, 0) == 0);
    assert(patches_params(seq![patch], site_dims, 1) == free_core_params(
        patch.projected@,
        site_dims,
        patch.link_dims@,
        site_dims.len(),
    ));
}

/// Number of entries of core `p` of a whole train with site dimensions
/// `site_dims` and the `site_dims.len() - 1` interior bonds `link_dims`: its
/// left bond (one at the first site) times its site dimension times its right
/// bond (one at the last site).
pub open spec fn whole_core_entries(site_dims: Seq<usize>, link_dims: Seq<usize>, p: int) -> nat {
    (if p == 0 {
        1nat
    } else {
        link_dims[p - 1] as nat
    }) * site_dims[p] as nat * (if p + 1 < site_dims.len() {
        link_dims[p] as nat
    } else {
        1nat
    })
}

proof fn lemma_free_cores_after_projecting(
    projected: Seq<bool>,
    more: Seq<bool>,
    site_dims: Seq<usize>,
    link_dims: Seq<usize>,
    q: int,
    n: nat,
)
    requires
        projected.len() == site_dims.len(),
        link_dims.len() + 1 == site_dims.len(),
        0 <= q < site_dims.len(),
        !projected[q],
        more == projected.update(q, true),
        n <= site_dims.len(),
    ensures
        n <= q ==> free_core_params(more, site_dims, link_dims, n) == free_core_params(
            projected,
            site_dims,
            link_dims,
            n,
        ),
        n > q ==> free_core_params(more, site_dims, link_dims, n) + whole_core_entries(
            site_dims,
            link_dims,
            q,
        ) == free_core_params(projected, site_dims, link_dims, n),
    decreases n,
{
    if n > 0 {
        lemma_free_cores_after_projecting(projected, more, site_dims, link_dims, q, (n - 1) as nat);
        let p = (n - 1) as int;
        if p == q {
            assert(left_bond(link_dims, p) * site_dims[p] as nat * right_bond(link_dims, p)
                == whole_core_entries(site_dims, link_dims, p));
        } else {
            assert(more[p] == projected[p]);
        }
    }
}

/// Law: projecting one more free site of a patch removes exactly the entries
/// of that site's core of the whole train from the patch's parameter count,
/// and nothing else: the other free cores keep the bonds of the whole train,
/// whatever is projected next to them. With
/// [`lemma_unprojected_patch_counts_every_core`], the count of a patch is the
/// sum, over its free sites, of the core sizes of the whole train.
pub proof fn lemma_projecting_a_site_drops_its_core(
    patch: PatchShape,
    projected_more: PatchShape,
    site_dims: Seq<usize>,
    q: int,
)
    requires
        patch.projected@.len() == site_dims.len(),
        patch.link_dims@.len() + 1 == site_dims.len(),
        0 <= q < site_dims.len(),
        !patch.projected@[q],
        projected_more.projected@ == patch.projected@.update(q, true),
        projected_more.link_dims@ == patch.link_dims@,
    ensures
        patches_params(seq![projected_more], site_dims, 1) + whole_core_entries(
            site_dims,
            patch.link_dims@,
            q,
        ) == patches_params(seq![patch], site_dims, 1),
{
    lemma_free_cores_after_projecting(
        patch.projected@,
        projected_more.projected@,
        site_dims,
        patch.link_dims@,
        q,
        site_dims.len(),
    );
    assert(seq![patch][0] == patch);
    assert(seq![projected_more][0] == projected_more);
    assert(patches_params(seq![patch], site_dims, 0) == 0);
    assert(patches_params(seq![projected_more], site_dims, 0) == 0);
}

/// `a * b * c`, or `None` when it does not fit in `usize`.
pub fn checked_product3(a: usize, b: usize, c: usize) -> (product: Option<usize>)
    ensures
        match product {
            Some(x) => x as nat == a as nat * b as nat * c as nat,
            None => a as nat * b as nat * c as nat > usize::MAX,
        },
{
    if a == 0 || b == 0 || c == 0 {
        proof {
            assert(a as nat * b as nat * c as nat == 0) by (nonlinear_arith)
                requires a == 0 || b == 0 || c == 0;
        }
        return Some(0);
    }
    match a.checked_mul(b) {
        Some(ab) => {
            let r = ab.checked_mul(c);
            r
        },
        None => {
            proof {
                assert(a as nat * b as nat * c as nat >= a as nat * b as nat) by (nonlinear_arith)
                    requires c >= 1;
            }
            None
        },
    }
}

proof fn lemma_free_core_params_monotone(
    projected: Seq<bool>,
    site_dims: Seq<usize>,
    link_dims: Seq<usize>,
    a: nat,
    b: nat,
)
    requires
        a <= b,
    ensures
        free_core_params(projected, site_dims, link_dims, a) <= free_core_params(
            projected,
            site_dims,
            link_dims,
            b,
        ),
    decreases b,
{
    if a < b {
        lemma_free_core_params_monotone(projected, site_dims, link_dims, a, (b - 1) as nat);
    }
}

proof fn lemma_patches_params_monotone(patches: Seq<PatchShape>, site_dims: Seq<usize>, a: nat, b: nat)
    requires
        a <= b,
    ensures
        patches_params(patches, site_dims, a) <= patches_params(patches, site_dims, b),
    decreases b,
{
    if a < b {
        lemma_patches_params_monotone(patches, site_dims, a, (b - 1) as nat);
    }
}


/// Why a global train cannot be copied onto the shared site indices.
#[derive(Clone, Copy, Debug, PartialEq, Eq, Structural)]
pub enum BridgeError {
    /// The train has `train` sites, the site list `expected`.
    SiteCount { train: usize, expected: usize },
    /// The core at `position` has site dimension `found`, the site `expected`.
    SiteDimension { position: usize, found: usize, expected: usize },
    /// The core at `position` has bonds `left` and `right` that do not match
    /// the train's links, or a boundary bond other than one.
    Bond { position: usize, left: usize, right: usize },
}

/// Shape `(left, site, right)` of one core of a train.
pub type CoreShape = (usize, usize, usize);

/// The bond to the left of `position` in a train with links `link_dims`.
pub open spec fn bond_left(link_dims: Seq<usize>, position: int) -> usize {
    if position == 0 {
        1
    } else {
        link_dims[position - 1]
    }
}

/// The bond to the right of `position` in a train with links `link_dims`.
pub open spec fn bond_right(link_dims: Seq<usize>, position: int) -> usize {
    if position < link_dims.len() {
        link_dims[position]
    } else {
        1
    }
}

/// Whether the core at `position` fits its site and its two bonds.
pub open spec fn core_fits(
    cores: Seq<CoreShape>,
    link_dims: Seq<usize>,
    site_dims: Seq<usize>,
    position: int,
) -> bool {
    &&& cores[position].1 == site_dims[position]
    &&& cores[position].0 == bond_left(link_dims, position)
    &&& cores[position].2 == bond_right(link_dims, position)
}

/// Check that a global train can be copied core by core onto the shared
/// site indices: one core per site, of the site's dimension, whose bonds are
/// the train's links and whose boundary bonds are one.
///
/// The first offending position decides the error.
pub fn check_bridge_shape(
    cores: &Vec<CoreShape>,
    link_dims: &Vec<usize>,
    site_dims: &Vec<usize>,
) -> (checked: Result<(), BridgeError>)
    requires
        cores@.len() == 0 || link_dims@.len() + 1 == cores@.len(),
    ensures
        checked is Ok <==> cores@.len() == site_dims@.len() && forall|q: int|
            0 <= q < cores@.len() ==> #[trigger] core_fits(cores@, link_dims@, site_dims@, q),
        checked matches Err(BridgeError::SiteCount { train, expected }) ==> train == cores@.len()
            && expected == site_dims@.len() && train != expected,
        checked matches Err(BridgeError::SiteDimension { position, found, expected }) ==> {
            &&& cores@.len() == site_dims@.len()
            &&& position < cores@.len()
            &&& found == cores@[position as int].1
            &&& expected == site_dims@[position as int]
            &&& found != expected
            &&& forall|q: int| 0 <= q < position ==> #[trigger] core_fits(cores@, link_dims@, site_dims@, q)
        },
        checked matches Err(BridgeError::Bond { position, left, right }) ==> {
            &&& cores@.len() == site_dims@.len()
            &&& position < cores@.len()
            &&& left == cores@[position as int].0
            &&& right == cores@[position as int].2
            &&& cores@[position as int].1 == site_dims@[position as int]
            &&& !core_fits(cores@, link_dims@, site_dims@, position as int)
            &&& forall|q: int| 0 <= q < position ==> #[trigger] core_fits(cores@, link_dims@, site_dims@, q)
        },
{
    if cores.len() != site_dims.len() {
        return Err(BridgeError::SiteCount { train: cores.len(), expected: site_dims.len() });
    }
    let mut position: usize = 0;
    while position < cores.len()
        invariant
            cores@.len() == site_dims@.len(),
            cores@.len() == 0 || link_dims@.len() + 1 == cores@.len(),
            position <= cores@.len(),
            forall|q: int| 0 <= q < position ==> #[trigger] core_fits(cores@, link_dims@, site_dims@, q),
        decreases cores@.len() - position,
    {
        let (l, s, r) = cores[position];
        if s != site_dims[position] {
            assert(!core_fits(cores@, link_dims@, site_dims@, position as int));
            return Err(BridgeError::SiteDimension { position, found: s, expected: site_dims[position] });
        }
        let left: usize = if position == 0 {
            1
        } else {
            link_dims[position - 1]
        };
        let right: usize = if position < link_dims.len() {
            link_dims[position]
        } else {
            1
        };
        if l != left || r != right {
            assert(!core_fits(cores@, link_dims@, site_dims@, position as int));
            return Err(BridgeError::Bond { position, left: l, right: r });
        }
        position = position + 1;
    }
    Ok(())
}

/// Largest entry of `values`, zero when it is empty.
pub open spec fn max_or_zero(values: Seq<usize>) -> usize
    decreases values.len(),
{
    if values.len() == 0 {
        0
    } else {
        let rest = max_or_zero(values.drop_last());
        if values.last() > rest {
            values.last()
        } else {
            rest
        }
    }
}

/// Largest bond dimension over all patches, zero when there are none.
pub fn max_patch_bond(bonds: &Vec<usize>) -> (max: usize)
    ensures
        max == max_or_zero(bonds@),
{
    let mut max: usize = 0;
    let mut k: usize = 0;
    while k < bonds.len()
        invariant
            k <= bonds@.len(),
            max == max_or_zero(bonds@.take(k as int)),
        decreases bonds@.len() - k,
    {
        assert(bonds@.take(k + 1).drop_last() =~= bonds@.take(k as int));
        if bonds[k] > max {
            max = bonds[k];
        }
        k = k + 1;
    }
    assert(bonds@.take(bonds@.len() as int) =~= bonds@);
    max
}

} // verus!
