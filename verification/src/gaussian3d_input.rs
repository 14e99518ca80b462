//! Input-only fully correlated 3D Gaussian rank probe: the cache key hash,
//! the seeding components, the batch-diagonal MPO embedding of a fused 3D
//! train, and the shape check of a cached train.

use vstd::prelude::*;
use vstd::string::StringSliceAdditionalSpecFns;
use crate::gaussian_input::{has_shape, all_sites_have_dim, lemma_scaled_index_strictly_increasing, CachedShapeError};

verus! {

/// FNV-1a offset basis.
pub const FNV_OFFSET_BASIS: u64 = 0xcbf29ce484222325;
/// FNV-1a prime.
pub const FNV_PRIME: u64 = 0x100000001b3;
/// Site dimension of a fused three-variable quantics train.
pub const FUSED_3D_SITE_DIM: usize = 8;

/// 64-bit FNV-1a hash of a byte string.
pub open spec fn fnv1a(bytes: Seq<u8>) -> u64
    decreases bytes.len(),
{
    if bytes.len() == 0 {
        FNV_OFFSET_BASIS
    } else {
        (fnv1a(bytes.drop_last()) ^ (bytes.last() as u64)).wrapping_mul(FNV_PRIME)
    }
}

/// Law: 64-bit FNV-1a starts from the offset basis `0xcbf29ce484222325` and
/// folds in every byte, at any length: appending a byte XORs it into the
/// hash of the shorter string and multiplies by the FNV prime `0x100000001b3`
/// modulo `2^64`.
pub proof fn lemma_fnv1a_appends_every_byte(bytes: Seq<u8>, b: u8)
    ensures
        fnv1a(Seq::empty()) == 0xcbf29ce484222325u64,
        fnv1a(bytes.push(b)) == (fnv1a(bytes) ^ (b as u64)).wrapping_mul(0x100000001b3u64),
{
    assert(bytes.push(b).drop_last() =~= bytes);
    assert(bytes.push(b).last() == b);
}

/// Stable 64-bit hash of a cache identity: FNV-1a over its UTF-8 bytes, the
/// same on every machine and in every process.
pub fn stable_key_hash(value: &str) -> (hash: u64)
    ensures
        hash == fnv1a(value.spec_bytes()),
{
    let bytes = value.as_bytes();
    let mut hash: u64 = FNV_OFFSET_BASIS;
    let mut k: usize = 0;
    while k < bytes.len()
        invariant
            bytes@ == value.spec_bytes(),
            k <= bytes@.len(),
            hash == fnv1a(bytes@.take(k as int)),
        decreases bytes@.len() - k,
    {
        assert(bytes@.take(k + 1).drop_last() =~= bytes@.take(k as int));
        hash = (hash ^ (bytes[k] as u64)).wrapping_mul(FNV_PRIME);
        k = k + 1;
    }
    assert(bytes@.take(bytes@.len() as int) =~= bytes@);
    hash
}

/// Site index of the fused 3D train `(b, x, y)` that feeds MPO entry
/// `(output, input)` of the batch-diagonal embedding, whose legs are fused as
/// `output = b + 2 x` and `input = b' + 2 y`; `None` off the batch diagonal
/// `b != b'`, where the entry is zero.
pub open spec fn batch_diagonal_entry(output: nat, input: nat) -> Option<nat> {
    if output % 2 == input % 2 {
        Some(output % 2 + 2 * (output / 2) + 4 * (input / 2))
    } else {
        None
    }
}

/// The fused 3D site index behind one entry of the batch-diagonal MPO core.
pub fn batch_diagonal_source(output: usize, input: usize) -> (source: Option<usize>)
    requires
        output < 4,
        input < 4,
    ensures
        match (source, batch_diagonal_entry(output as nat, input as nat)) {
            (Some(s), Some(t)) => s as nat == t,
            (None, None) => true,
            _ => false,
        },
{
    let batch_input = input % 2;
    let y = input / 2;
    let batch_output = output % 2;
    let x = output / 2;
    if batch_output == batch_input {
        Some(batch_output + 2 * x + 4 * y)
    } else {
        None
    }
}

/// Law: the batch-diagonal embedding reads every fused 3D site exactly once,
/// from the entry whose legs carry its batch bit on both sides, its `x` bit on
/// the output leg and its `y` bit on the input leg.
pub proof fn lemma_batch_diagonal_is_a_bijection(site: nat)
    requires
        site < 8,
    ensures
        batch_diagonal_entry(site % 2 + 2 * ((site / 2) % 2), site % 2 + 2 * (site / 4)) == Some(site),
        forall|output: nat, input: nat|
            output < 4 && input < 4 && #[trigger] batch_diagonal_entry(output, input) == Some(site)
                ==> output == site % 2 + 2 * ((site / 2) % 2) && input == site % 2 + 2 * (site / 4),
{
    assert(site == 0 || site == 1 || site == 2 || site == 3 || site == 4 || site == 5 || site == 6
        || site == 7);
    assert forall|output: nat, input: nat|
        output < 4 && input < 4 && #[trigger] batch_diagonal_entry(output, input) == Some(site)
            implies output == site % 2 + 2 * ((site / 2) % 2) && input == site % 2 + 2 * (site / 4) by {
        assert(output == 0 || output == 1 || output == 2 || output == 3);
        assert(input == 0 || input == 1 || input == 2 || input == 3);
    }
}

/// Number of evenly spread components that seed the 3D cross interpolation.
pub open spec fn pivot_count_3d(count: nat, len: nat) -> nat {
    if count < len {
        count
    } else {
        len
    }
}

/// Component `pivot` of the seeding components of a mixture of `len`.
pub open spec fn pivot_component_3d(pivot: nat, c: nat, len: nat) -> nat {
    let raw = pivot * len / c;
    if raw < len - 1 {
        raw
    } else {
        (len - 1) as nat
    }
}

/// The mixture components whose centers and principal axes seed the 3D
/// global cross interpolation: `min(count, len)` evenly spread components.
pub fn pivot_components_3d(count: usize, len: usize) -> (components: Vec<usize>)
    requires
        pivot_count_3d(count as nat, len as nat) * len <= usize::MAX,
    ensures
        components@.len() == pivot_count_3d(count as nat, len as nat),
        forall|p: int|
            0 <= p < components@.len() ==> #[trigger] components@[p] as nat == pivot_component_3d(
                p as nat,
                pivot_count_3d(count as nat, len as nat),
                len as nat,
            ),
{
    let c: usize = if count < len {
        count
    } else {
        len
    };
    let mut components: Vec<usize> = Vec::with_capacity(c);
    let mut p: usize = 0;
    while p < c
        invariant
            c <= len,
            c == pivot_count_3d(count as nat, len as nat),
            c * len <= usize::MAX,
            p <= c,
            components@.len() == p,
            forall|q: int|
                0 <= q < p ==> #[trigger] components@[q] as nat == pivot_component_3d(
                    q as nat,
                    c as nat,
                    len as nat,
                ),
        decreases c - p,
    {
        proof {
            assert(p * len <= c * len) by (nonlinear_arith)
                requires p < c;
        }
        let raw: usize = p * len / c;
        let component: usize = if raw < len - 1 {
            raw
        } else {
            len - 1
        };
        components.push(component);
        p = p + 1;
    }
    components
}

/// Law: the seeding components of the 3D probe are distinct Gaussians.
pub proof fn lemma_pivot_components_3d_distinct(count: nat, len: nat, p: nat, q: nat)
    requires
        len >= 1,
        p < q < pivot_count_3d(count, len),
    ensures
        pivot_component_3d(p, pivot_count_3d(count, len), len) < pivot_component_3d(
            q,
            pivot_count_3d(count, len),
            len,
        ),
{
    let c = pivot_count_3d(count, len);
    lemma_scaled_index_strictly_increasing(p, q, len, c);
    assert(q * len <= (c - 1) * len) by (nonlinear_arith)
        requires q < c;
    assert(((c - 1) * len) as int / (c as int) <= len - 1) by {
        assert((c - 1) * len + c <= c * len) by (nonlinear_arith)
            requires c <= len, c >= 1;
        vstd::arithmetic::div_mod::lemma_hoist_over_denominator(((c - 1) * len) as int, 1, c);
        vstd::arithmetic::div_mod::lemma_div_is_ordered(((c - 1) * len + c) as int, (c * len) as int, c as int);
        vstd::arithmetic::div_mod::lemma_div_multiples_vanish(len as int, c as int);
    }
    vstd::arithmetic::div_mod::lemma_div_is_ordered((q * len) as int, ((c - 1) * len) as int, c as int);
}

/// Check that a cached fused 3D train (given by its site dimensions) has `r`
/// sites of dimension eight; the site count is checked first.
pub fn validate_cached(site_dims: &Vec<usize>, r: usize) -> (checked: Result<(), CachedShapeError>)
    ensures
        checked is Ok <==> has_shape(site_dims@, r as nat, 8),
        checked == Err::<(), CachedShapeError>(CachedShapeError::SiteCount) <==> site_dims@.len() != r,
{
    if site_dims.len() != r {
        return Err(CachedShapeError::SiteCount);
    }
    if !all_sites_have_dim(site_dims, FUSED_3D_SITE_DIM) {
        return Err(CachedShapeError::SiteDimension);
    }
    Ok(())
}

} // verus!
