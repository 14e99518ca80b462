//! Shared deterministic Gaussian inputs of the two Gaussian benchmark cases:
//! the fixed sizes of the instance, the components that seed and validate the
//! cross interpolation, the parameter count of a train, and the shape check
//! of a cached input pair.

use vstd::prelude::*;
use vstd::arithmetic::div_mod::{lemma_div_is_ordered, lemma_hoist_over_denominator};

verus! {

/// Fixed quantics bit count per physical axis.
pub const GAUSSIAN_R: usize = 16;
/// Fixed patch rank cap used by every patched benchmark arm.
pub const PATCH_CAP: usize = 128;
/// Maximum raw TCI bond dimension before final L2 compression.
pub const INPUT_TCI_MAX_BOND: usize = 1024;
/// Gaussian components supplying deterministic center and principal-axis pivots.
pub const INPUT_TCI_PIVOT_COMPONENTS: usize = 16;
/// Site dimension of a fused two-variable quantics train.
pub const FUSED_2D_SITE_DIM: usize = 4;

/// Product of the entries of `dims`.
pub open spec fn product(dims: Seq<usize>) -> nat
    decreases dims.len(),
{
    if dims.len() == 0 {
        1
    } else {
        product(dims.drop_last()) * dims.last() as nat
    }
}

/// Sum over the tensors of the product of their dimensions.
pub open spec fn entries(shapes: Seq<Seq<usize>>) -> nat
    decreases shapes.len(),
{
    if shapes.len() == 0 {
        0
    } else {
        entries(shapes.drop_last()) + product(shapes.last())
    }
}

proof fn lemma_product_zero(dims: Seq<usize>, z: int)
    requires
        0 <= z < dims.len(),
        dims[z] == 0,
    ensures
        product(dims) == 0,
    decreases dims.len(),
{
    let p = product(dims.drop_last());
    let d = dims.last() as nat;
    if z < dims.len() - 1 {
        lemma_product_zero(dims.drop_last(), z);
        assert(p * d == 0) by (nonlinear_arith)
            requires p == 0;
    } else {
        assert(p * d == 0) by (nonlinear_arith)
            requires d == 0;
    }
}

proof fn lemma_product_monotone(dims: Seq<usize>, k: int)
    requires
        0 <= k <= dims.len(),
        forall|i: int| 0 <= i < dims.len() ==> dims[i] >= 1,
    ensures
        product(dims.take(k)) <= product(dims),
        product(dims.take(k)) >= 1,
    decreases dims.len() - k,
{
    if k < dims.len() {
        lemma_product_monotone(dims, k + 1);
        assert(dims.take(k + 1).drop_last() =~= dims.take(k));
        let p = product(dims.take(k));
        let d = dims[k] as nat;
        lemma_product_positive(dims.take(k));
        assert(p * d >= p) by (nonlinear_arith)
            requires d >= 1;
    } else {
        assert(dims.take(k) =~= dims);
        lemma_product_positive(dims);
    }
}

proof fn lemma_product_positive(dims: Seq<usize>)
    requires
        forall|i: int| 0 <= i < dims.len() ==> dims[i] >= 1,
    ensures
        product(dims) >= 1,
    decreases dims.len(),
{
    if dims.len() > 0 {
        lemma_product_positive(dims.drop_last());
        let p = product(dims.drop_last());
        let d = dims.last() as nat;
        assert(p * d >= 1) by (nonlinear_arith)
            requires p >= 1, d >= 1;
    }
}

/// Product of `dims`, or `None` when it does not fit in `usize`.
pub fn checked_product(dims: &Vec<usize>) -> (result: Option<usize>)
    ensures
        match result {
            Some(p) => p as nat == product(dims@),
            None => product(dims@) > usize::MAX,
        },
{
    let mut z: usize = 0;
    while z < dims.len()
        invariant
            z <= dims@.len(),
            forall|i: int| 0 <= i < z ==> dims@[i] >= 1,
        decreases dims@.len() - z,
    {
        if dims[z] == 0 {
            proof {
                lemma_product_zero(dims@, z as int);
            }
            return Some(0);
        }
        z = z + 1;
    }
    let mut acc: usize = 1;
    let mut k: usize = 0;
    while k < dims.len()
        invariant
            k <= dims@.len(),
            forall|i: int| 0 <= i < dims@.len() ==> dims@[i] >= 1,
            acc as nat == product(dims@.take(k as int)),
        decreases dims@.len() - k,
    {
        assert(dims@.take(k + 1).drop_last() =~= dims@.take(k as int));
        match acc.checked_mul(dims[k]) {
            Some(next) => {
                acc = next;
            },
            None => {
                proof {
                    lemma_product_monotone(dims@, k + 1);
                }
                return None;
            },
        }
        k = k + 1;
    }
    assert(dims@.take(dims@.len() as int) =~= dims@);
    Some(acc)
}

proof fn lemma_entries_monotone(shapes: Seq<Seq<usize>>, k: int)
    requires
        0 <= k <= shapes.len(),
    ensures
        entries(shapes.take(k)) <= entries(shapes),
    decreases shapes.len() - k,
{
    if k < shapes.len() {
        lemma_entries_monotone(shapes, k + 1);
        assert(shapes.take(k + 1).drop_last() =~= shapes.take(k));
    } else {
        assert(shapes.take(k) =~= shapes);
    }
}

/// Number of stored scalar entries of a tensor network whose tensors have the
/// dimensions `shapes`: the sum over tensors of the product of their
/// dimensions. `None` when the count does not fit in `usize`.
pub fn tensortrain_n_params(shapes: &Vec<Vec<usize>>) -> (n_params: Option<usize>)
    ensures
        match n_params {
            Some(n) => n as nat == entries(shapes@.map_values(|s: Vec<usize>| s@)),
            None => entries(shapes@.map_values(|s: Vec<usize>| s@)) > usize::MAX,
        },
{
    let ghost views = shapes@.map_values(|s: Vec<usize>| s@);
    let mut total: usize = 0;
    let mut k: usize = 0;
    while k < shapes.len()
        invariant
            k <= shapes@.len(),
            views == shapes@.map_values(|s: Vec<usize>| s@),
            total as nat == entries(views.take(k as int)),
        decreases shapes@.len() - k,
    {
        assert(views.take(k + 1).drop_last() =~= views.take(k as int));
        assert(views.take(k + 1).last() == shapes@[k as int]@);
        let next = match checked_product(&shapes[k]) {
            Some(p) => total.checked_add(p),
            None => None,
        };
        match next {
            Some(t) => {
                total = t;
            },
            None => {
                proof {
                    lemma_entries_monotone(views, k + 1);
                }
                return None;
            },
        }
        k = k + 1;
    }
    assert(views.take(views.len() as int) =~= views);
    Some(total)
}

/// Number of Gaussian components that seed (or, shifted, validate) the cross
/// interpolation of a mixture of `len` components when `count` are asked for:
/// at most half of the components, and at least one.
pub open spec fn pivot_count(count: nat, len: nat) -> nat {
    let half = if len / 2 > 1 {
        len / 2
    } else {
        1
    };
    if count < half {
        count
    } else {
        half
    }
}

/// Component `pivot` of the `c` evenly spread pivot components of a mixture
/// of `len` components; the shifted set takes the components halfway between.
pub open spec fn pivot_component(pivot: nat, shifted: bool, c: nat, len: nat) -> nat {
    let raw = ((2 * pivot + if shifted {
        1nat
    } else {
        0nat
    }) * len / (2 * c)) as nat;
    if raw < len - 1 {
        raw
    } else {
        (len - 1) as nat
    }
}

/// The mixture components whose centers and principal axes seed the global
/// cross interpolation (`shifted == false`) or validate it at points that were
/// not pivots (`shifted == true`).
pub fn pivot_components(count: usize, len: usize, shifted: bool) -> (components: Vec<usize>)
    requires
        len > 0 || count == 0,
        2 * pivot_count(count as nat, len as nat) * len <= usize::MAX,
    ensures
        components@.len() == pivot_count(count as nat, len as nat),
        forall|p: int|
            0 <= p < components@.len() ==> #[trigger] components@[p] as nat == pivot_component(
                p as nat,
                shifted,
                pivot_count(count as nat, len as nat),
                len as nat,
            ),
{
    let half: usize = if len / 2 > 1 {
        len / 2
    } else {
        1
    };
    let c: usize = if count < half {
        count
    } else {
        half
    };
    let offset: usize = if shifted {
        1
    } else {
        0
    };
    let mut components: Vec<usize> = Vec::with_capacity(c);
    let mut p: usize = 0;
    while p < c
        invariant
            c > 0 ==> len > 0,
            c == pivot_count(count as nat, len as nat),
            2 * c * len <= usize::MAX,
            offset == (if shifted {
                1usize
            } else {
                0usize
            }),
            p <= c,
            components@.len() == p,
            forall|q: int|
                0 <= q < p ==> #[trigger] components@[q] as nat == pivot_component(
                    q as nat,
                    shifted,
                    c as nat,
                    len as nat,
                ),
        decreases c - p,
    {
        proof {
            assert((2 * p + offset) * len <= 2 * c * len) by (nonlinear_arith)
                requires
                    p < c,
                    offset <= 1,
            ;
        }
        let raw: usize = (2 * p + offset) * len / (2 * c);
        let component: usize = if raw < len - 1 {
            raw
        } else {
            len - 1
        };
        components.push(component);
        p = p + 1;
    }
    components
}

/// `k * big / small` grows by at least one with every step of `k` when
/// `big >= small`.
pub proof fn lemma_scaled_index_strictly_increasing(j: nat, k: nat, big: nat, small: nat)
    requires
        0 < small <= big,
        j < k,
    ensures
        (j * big) / small < (k * big) / small,
{
    let x = (j * big) as int;
    lemma_hoist_over_denominator(x, 1, small);
    assert(x / small as int + 1 == (x + small) / small as int);
    assert(x + small <= (k * big) as int) by (nonlinear_arith)
        requires
            j < k,
            small <= big,
            x == j * big,
    ;
    lemma_div_is_ordered(x + small, (k * big) as int, small as int);
}

/// Law: the validation components are never the seeding components, so the
/// principal-axis holdout error is measured away from the pivots of the
/// cross interpolation (for any mixture of at least two components).
pub proof fn lemma_holdout_components_are_not_pivots(
    count: nat,
    len: nat,
    p: nat,
    q: nat,
)
    requires
        len >= 2,
        count >= 1,
        p < pivot_count(count, len),
        q < pivot_count(count, len),
    ensures
        pivot_component(p, false, pivot_count(count, len), len) != pivot_component(
            q,
            true,
            pivot_count(count, len),
            len,
        ),
{
    let c = pivot_count(count, len);
    assert(2 * c <= len);
    let m = 2 * c;
    assert(((2 * c - 1) * len) as int / (m as int) < len) by {
        assert((2 * c - 1) * len <= m * len - 1) by (nonlinear_arith)
            requires m == 2 * c, c >= 1, len >= 1;
        lemma_div_is_ordered(((2 * c - 1) * len) as int, (m * len - 1) as int, m as int);
        assert(((m * len - 1) as int) / (m as int) < len) by (nonlinear_arith)
            requires m >= 1, len >= 1;
    }
    assert((2 * p) * len <= (2 * c - 1) * len) by (nonlinear_arith)
        requires p < c;
    assert((2 * q + 1) * len <= (2 * c - 1) * len) by (nonlinear_arith)
        requires q < c;
    lemma_div_is_ordered(((2 * p) * len) as int, ((2 * c - 1) * len) as int, m as int);
    lemma_div_is_ordered(((2 * q + 1) * len) as int, ((2 * c - 1) * len) as int, m as int);
    if 2 * p < 2 * q + 1 {
        lemma_scaled_index_strictly_increasing(2 * p, 2 * q + 1, len, m);
    } else {
        lemma_scaled_index_strictly_increasing(2 * q + 1, 2 * p, len, m);
    }
}

/// Whether two grid points are the same point.
fn same_point(a: &Vec<usize>, b: &Vec<usize>) -> (equal: bool)
    ensures
        equal == (a@ == b@),
{
    if a.len() != b.len() {
        return false;
    }
    let mut k: usize = 0;
    while k < a.len()
        invariant
            a@.len() == b@.len(),
            k <= a@.len(),
            forall|j: int| 0 <= j < k ==> a@[j] == b@[j],
        decreases a@.len() - k,
    {
        if a[k] != b[k] {
            return false;
        }
        k = k + 1;
    }
    assert(a@ =~= b@);
    true
}

/// The grid points held by a list of points.
pub open spec fn point_views(points: Seq<Vec<usize>>) -> Seq<Seq<usize>> {
    points.map_values(|p: Vec<usize>| p@)
}

/// Appends `point` unless the list already holds it: pivots are distinct.
pub fn push_unique(pivots: &mut Vec<Vec<usize>>, point: Vec<usize>)
    ensures
        point_views(final(pivots)@) == if point_views(old(pivots)@).contains(point@) {
            point_views(old(pivots)@)
        } else {
            point_views(old(pivots)@).push(point@)
        },
        point_views(old(pivots)@).no_duplicates() ==> point_views(final(pivots)@).no_duplicates(),
{
    let mut k: usize = 0;
    while k < pivots.len()
        invariant
            k <= pivots@.len(),
            forall|j: int| 0 <= j < k ==> pivots@[j]@ != point@,
        decreases pivots@.len() - k,
    {
        if same_point(&pivots[k], &point) {
            assert(point_views(pivots@)[k as int] == point@);
            return;
        }
        k = k + 1;
    }
    let ghost before = pivots@;
    assert(!point_views(before).contains(point@));
    pivots.push(point);
    assert(point_views(pivots@) =~= point_views(before).push(point@));
}

/// Which integer setting of a Gaussian input instance is out of range.
#[derive(Clone, Copy, Debug, PartialEq, Eq, Structural)]
pub enum InputCountError {
    /// The Gaussian count is zero.
    NoGaussians,
    /// The count whose box size is reused is zero.
    NoFixedBoxGaussians,
    /// The cross-interpolation rank cap is zero.
    ZeroRankCap,
    /// No component is asked to seed the cross interpolation.
    NoPivotComponents,
}

/// Check the integer settings of a Gaussian input instance: `n` Gaussians,
/// an optional count `fixed_box_n` whose box size is reused, the
/// cross-interpolation rank cap and the number of pivot components. The
/// first failing setting in that order is reported.
pub fn validate_input_counts(
    n: usize,
    fixed_box_n: Option<usize>,
    rank_cap: usize,
    pivot_components: usize,
) -> (checked: Result<(), InputCountError>)
    ensures
        checked is Ok <==> n > 0 && (fixed_box_n matches Some(b) ==> b > 0) && rank_cap > 0
            && pivot_components > 0,
        checked == Err::<(), InputCountError>(InputCountError::NoGaussians) <==> n == 0,
        checked == Err::<(), InputCountError>(InputCountError::NoFixedBoxGaussians) <==> n > 0
            && fixed_box_n == Some(0usize),
        checked == Err::<(), InputCountError>(InputCountError::ZeroRankCap) <==> n > 0 && fixed_box_n
            != Some(0usize) && rank_cap == 0,
        checked == Err::<(), InputCountError>(InputCountError::NoPivotComponents) <==> n > 0
            && fixed_box_n != Some(0usize) && rank_cap > 0 && pivot_components == 0,
{
    if n == 0 {
        return Err(InputCountError::NoGaussians);
    }
    match fixed_box_n {
        Some(b) => {
            if b == 0 {
                return Err(InputCountError::NoFixedBoxGaussians);
            }
        },
        None => {},
    }
    if rank_cap == 0 {
        return Err(InputCountError::ZeroRankCap);
    }
    if pivot_components == 0 {
        return Err(InputCountError::NoPivotComponents);
    }
    Ok(())
}

/// Why a cached input does not have the shape of the instance.
#[derive(Clone, Copy, Debug, PartialEq, Eq, Structural)]
pub enum CachedShapeError {
    /// A cached train has another number of sites than the instance's bits.
    SiteCount,
    /// A cached train has a site of another dimension than the fused one.
    SiteDimension,
}

/// Whether `site_dims` describes `r` sites of dimension `dim`.
pub open spec fn has_shape(site_dims: Seq<usize>, r: nat, dim: nat) -> bool {
    &&& site_dims.len() == r
    &&& forall|s: int| 0 <= s < site_dims.len() ==> site_dims[s] == dim
}

/// Whether every site of `site_dims` has dimension `dim`.
pub fn all_sites_have_dim(site_dims: &Vec<usize>, dim: usize) -> (all: bool)
    ensures
        all == forall|s: int| 0 <= s < site_dims@.len() ==> site_dims@[s] == dim,
{
    let mut s: usize = 0;
    while s < site_dims.len()
        invariant
            s <= site_dims@.len(),
            forall|t: int| 0 <= t < s ==> site_dims@[t] == dim,
        decreases site_dims@.len() - s,
    {
        if site_dims[s] != dim {
            return false;
        }
        s = s + 1;
    }
    true
}

/// Check that a cached pair of fused 2D trains (given by their site
/// dimensions) has `r` sites of dimension four each; site counts are checked
/// before site dimensions.
pub fn validate_cached_pair(left: &Vec<usize>, right: &Vec<usize>, r: usize) -> (checked: Result<
    (),
    CachedShapeError,
>)
    ensures
        checked is Ok <==> has_shape(left@, r as nat, 4) && has_shape(right@, r as nat, 4),
        checked == Err::<(), CachedShapeError>(CachedShapeError::SiteCount) <==> (left@.len() != r
            || right@.len() != r),
{
    if left.len() != r || right.len() != r {
        return Err(CachedShapeError::SiteCount);
    }
    if !(all_sites_have_dim(left, FUSED_2D_SITE_DIM) && all_sites_have_dim(right, FUSED_2D_SITE_DIM)) {
        return Err(CachedShapeError::SiteDimension);
    }
    Ok(())
}

} // verus!
