//! Global fit contraction of quantics MPOs: the fixed sweep count, the
//! memory budget of the exact sitewise direct product, and the retained
//! output components at which the contraction is validated.

use vstd::prelude::*;
use crate::gaussian_input::{entries, product, tensortrain_n_params, lemma_scaled_index_strictly_increasing};

verus! {

/// Full variational sweeps used by every fit contraction arm.
pub const FIT_NSWEEPS: usize = 1;

/// Bytes of one stored `f64` entry.
pub const ENTRY_BYTES: usize = 8;

/// Shape `(left, output, input, right)` of one MPO core.
pub type MpoCoreShape = (usize, usize, usize, usize);

/// Dimensions of the direct product of two cores: each of the four legs is
/// the fusion of the corresponding legs of the two factors.
pub open spec fn direct_core_dims(a: MpoCoreShape, b: MpoCoreShape) -> Seq<usize> {
    seq![a.0, b.0, a.1, b.1, a.2, b.2, a.3, b.3]
}

/// Dimensions of all direct-product cores, site by site.
pub open spec fn direct_product_shapes(first: Seq<MpoCoreShape>, second: Seq<MpoCoreShape>) -> Seq<
    Seq<usize>,
> {
    Seq::new(first.len(), |site: int| direct_core_dims(first[site], second[site]))
}

/// Why the direct product of two MPOs is refused before it is formed.
#[derive(Clone, Copy, Debug, PartialEq, Eq, Structural)]
pub enum DirectProductError {
    /// The two MPOs have different lengths.
    LengthMismatch,
    /// The parameter count of the product does not fit in `usize`.
    ParameterOverflow,
    /// The byte count of the product does not fit in `usize`.
    ByteOverflow,
    /// The product needs `bytes` bytes, more than the `limit` allowed.
    TooLarge { bytes: usize, limit: usize },
}

/// Bytes the exact sitewise direct product of two equally long MPOs would
/// occupy, refused when it exceeds `max_bytes`.
pub fn direct_product_bytes(
    first: &Vec<MpoCoreShape>,
    second: &Vec<MpoCoreShape>,
    max_bytes: usize,
) -> (bytes: Result<usize, DirectProductError>)
    ensures
        first@.len() != second@.len() <==> bytes == Err::<usize, DirectProductError>(
            DirectProductError::LengthMismatch,
        ),
        first@.len() == second@.len() ==> {
            let n = entries(direct_product_shapes(first@, second@));
            match bytes {
                Ok(b) => b as nat == 8 * n && b <= max_bytes,
                Err(DirectProductError::ParameterOverflow) => n > usize::MAX,
                Err(DirectProductError::ByteOverflow) => n <= usize::MAX && 8 * n > usize::MAX,
                Err(DirectProductError::TooLarge { bytes, limit }) => bytes as nat == 8 * n && limit
                    == max_bytes && bytes > max_bytes,
                Err(DirectProductError::LengthMismatch) => false,
            }
        },
{
    if first.len() != second.len() {
        return Err(DirectProductError::LengthMismatch);
    }
    let mut shapes: Vec<Vec<usize>> = Vec::with_capacity(first.len());
    let mut site: usize = 0;
    while site < first.len()
        invariant
            first@.len() == second@.len(),
            site <= first@.len(),
            shapes@.len() == site,
            forall|j: int|
                0 <= j < site ==> (#[trigger] shapes@[j])@ == direct_core_dims(first@[j], second@[j]),
        decreases first@.len() - site,
    {
        let a = first[site];
        let b = second[site];
        let dims: Vec<usize> = vec![a.0, b.0, a.1, b.1, a.2, b.2, a.3, b.3];
        assert(dims@ =~= direct_core_dims(a, b));
        shapes.push(dims);
        site = site + 1;
    }
    assert(shapes@.map_values(|s: Vec<usize>| s@) =~= direct_product_shapes(first@, second@));
    let total = match tensortrain_n_params(&shapes) {
        Some(t) => t,
        None => {
            return Err(DirectProductError::ParameterOverflow);
        },
    };
    let bytes = match total.checked_mul(ENTRY_BYTES) {
        Some(b) => b,
        None => {
            return Err(DirectProductError::ByteOverflow);
        },
    };
    if bytes > max_bytes {
        return Err(DirectProductError::TooLarge { bytes, limit: max_bytes });
    }
    Ok(bytes)
}

/// Number of entries of one MPO core of shape `(left, output, input, right)`.
pub open spec fn mpo_core_entries(c: MpoCoreShape) -> nat {
    c.0 as nat * c.1 as nat * c.2 as nat * c.3 as nat
}

/// Sum over the first `n` sites of the product of the core sizes of the two
/// MPOs at that site.
pub open spec fn paired_core_entries(first: Seq<MpoCoreShape>, second: Seq<MpoCoreShape>, n: nat) -> nat
    decreases n,
{
    if n == 0 {
        0
    } else {
        paired_core_entries(first, second, (n - 1) as nat) + mpo_core_entries(first[n - 1])
            * mpo_core_entries(second[n - 1])
    }
}

proof fn lemma_direct_core_entries(a: MpoCoreShape, b: MpoCoreShape)
    ensures
        product(direct_core_dims(a, b)) == mpo_core_entries(a) * mpo_core_entries(b),
{
    let d8 = direct_core_dims(a, b);
    let d7 = d8.drop_last();
    let d6 = d7.drop_last();
    let d5 = d6.drop_last();
    let d4 = d5.drop_last();
    let d3 = d4.drop_last();
    let d2 = d3.drop_last();
    let d1 = d2.drop_last();
    let d0 = d1.drop_last();
    assert(d0 =~= Seq::<usize>::empty());
    assert(d1 =~= seq![a.0]);
    assert(d2 =~= seq![a.0, b.0]);
    assert(d3 =~= seq![a.0, b.0, a.1]);
    assert(d4 =~= seq![a.0, b.0, a.1, b.1]);
    assert(d5 =~= seq![a.0, b.0, a.1, b.1, a.2]);
    assert(d6 =~= seq![a.0, b.0, a.1, b.1, a.2, b.2]);
    assert(d7 =~= seq![a.0, b.0, a.1, b.1, a.2, b.2, a.3]);
    let (a0, a1, a2, a3) = (a.0 as nat, a.1 as nat, a.2 as nat, a.3 as nat);
    let (b0, b1, b2, b3) = (b.0 as nat, b.1 as nat, b.2 as nat, b.3 as nat);
    assert(product(d0) == 1);
    assert(product(d1) == product(d0) * a0);
    assert(product(d2) == product(d1) * b0);
    assert(product(d3) == product(d2) * a1);
    assert(product(d4) == product(d3) * b1);
    assert(product(d5) == product(d4) * a2);
    assert(product(d6) == product(d5) * b2);
    assert(product(d7) == product(d6) * a3);
    assert(product(d8) == product(d7) * b3);
    let aa1 = a0 * a1;
    let aa2 = aa1 * a2;
    let aa3 = aa2 * a3;
    let bb1 = b0 * b1;
    let bb2 = bb1 * b2;
    let bb3 = bb2 * b3;
    lemma_mul_regroup(a0 as int, b0 as int, a1 as int);
    assert(product(d3) == aa1 * b0);
    lemma_mul_assoc(aa1 as int, b0 as int, b1 as int);
    assert(product(d4) == aa1 * bb1);
    lemma_mul_regroup(aa1 as int, bb1 as int, a2 as int);
    assert(product(d5) == aa2 * bb1);
    lemma_mul_assoc(aa2 as int, bb1 as int, b2 as int);
    assert(product(d6) == aa2 * bb2);
    lemma_mul_regroup(aa2 as int, bb2 as int, a3 as int);
    assert(product(d7) == aa3 * bb2);
    lemma_mul_assoc(aa3 as int, bb2 as int, b3 as int);
    assert(product(d8) == aa3 * bb3);
}

proof fn lemma_mul_regroup(x: int, y: int, z: int)
    ensures
        (x * y) * z == (x * z) * y,
{
    assert((x * y) * z == (x * z) * y) by (nonlinear_arith);
}

proof fn lemma_mul_assoc(x: int, y: int, z: int)
    ensures
        (x * y) * z == x * (y * z),
{
    assert((x * y) * z == x * (y * z)) by (nonlinear_arith);
}

/// Law: the direct product stores, at every site, as many entries as the
/// product of the sizes of the two operand cores there (each leg of the
/// product core has the product of the two legs' dimensions), so its size is
/// the same whichever operand comes first.
pub proof fn lemma_direct_product_entries(first: Seq<MpoCoreShape>, second: Seq<MpoCoreShape>)
    requires
        first.len() == second.len(),
    ensures
        entries(direct_product_shapes(first, second)) == paired_core_entries(first, second, first.len()),
        entries(direct_product_shapes(first, second)) == entries(direct_product_shapes(second, first)),
    decreases first.len(),
{
    if first.len() > 0 {
        let n = first.len();
        let f = first.drop_last();
        let g = second.drop_last();
        lemma_direct_product_entries(f, g);
        assert(direct_product_shapes(first, second).drop_last() =~= direct_product_shapes(f, g));
        assert(direct_product_shapes(second, first).drop_last() =~= direct_product_shapes(g, f));
        lemma_paired_prefix(first, second, f, g, (n - 1) as nat);
        lemma_paired_prefix(second, first, g, f, (n - 1) as nat);
        lemma_direct_core_entries(first.last(), second.last());
        lemma_direct_core_entries(second.last(), first.last());
        assert(direct_product_shapes(first, second).last() == direct_core_dims(first.last(), second.last()));
        assert(direct_product_shapes(second, first).last() == direct_core_dims(second.last(), first.last()));
        lemma_paired_symmetric(f, g, (n - 1) as nat);
        let x = mpo_core_entries(first.last());
        let y = mpo_core_entries(second.last());
        assert(x * y == y * x) by (nonlinear_arith);
    }
}

proof fn lemma_paired_prefix(
    first: Seq<MpoCoreShape>,
    second: Seq<MpoCoreShape>,
    f: Seq<MpoCoreShape>,
    g: Seq<MpoCoreShape>,
    n: nat,
)
    requires
        n <= f.len(),
        n <= g.len(),
        f.len() <= first.len(),
        g.len() <= second.len(),
        forall|k: int| 0 <= k < f.len() ==> f[k] == first[k],
        forall|k: int| 0 <= k < g.len() ==> g[k] == second[k],
    ensures
        paired_core_entries(first, second, n) == paired_core_entries(f, g, n),
    decreases n,
{
    if n > 0 {
        lemma_paired_prefix(first, second, f, g, (n - 1) as nat);
    }
}

proof fn lemma_paired_symmetric(first: Seq<MpoCoreShape>, second: Seq<MpoCoreShape>, n: nat)
    ensures
        paired_core_entries(first, second, n) == paired_core_entries(second, first, n),
    decreases n,
{
    if n > 0 {
        lemma_paired_symmetric(first, second, (n - 1) as nat);
        let x = mpo_core_entries(first[n - 1]);
        let y = mpo_core_entries(second[n - 1]);
        assert(x * y == y * x) by (nonlinear_arith);
    }
}

/// Number of retained output components sampled for validation.
pub open spec fn center_count(samples: nat, len: nat) -> nat {
    if samples < len {
        samples
    } else {
        len
    }
}

/// Component of sample `s` among `count` samples spread evenly over `len`
/// components, from the first to the last.
pub open spec fn center_component(s: nat, count: nat, len: nat) -> nat {
    if count == 1 {
        0
    } else {
        (s * ((len - 1) as nat)) / ((count - 1) as nat)
    }
}

/// The retained output components at whose centers a contraction is
/// validated: `min(samples, len)` of them, spread evenly from the first
/// component to the last.
pub fn center_sample_components(samples: usize, len: usize) -> (components: Vec<usize>)
    requires
        samples > 0,
        len > 0,
        (center_count(samples as nat, len as nat) - 1) * (len - 1) <= usize::MAX,
    ensures
        components@.len() == center_count(samples as nat, len as nat),
        forall|s: int|
            0 <= s < components@.len() ==> #[trigger] components@[s] as nat == center_component(
                s as nat,
                center_count(samples as nat, len as nat),
                len as nat,
            ),
{
    let count: usize = if samples < len {
        samples
    } else {
        len
    };
    let mut components: Vec<usize> = Vec::with_capacity(count);
    let mut s: usize = 0;
    while s < count
        invariant
            count == center_count(samples as nat, len as nat),
            count >= 1,
            len >= 1,
            (count - 1) * (len - 1) <= usize::MAX,
            s <= count,
            components@.len() == s,
            forall|j: int|
                0 <= j < s ==> #[trigger] components@[j] as nat == center_component(
                    j as nat,
                    count as nat,
                    len as nat,
                ),
        decreases count - s,
    {
        let component: usize = if count == 1 {
            0
        } else {
            proof {
                assert(s * (len - 1) <= (count - 1) * (len - 1)) by (nonlinear_arith)
                    requires s < count, len >= 1;
            }
            s * (len - 1) / (count - 1)
        };
        components.push(component);
        s = s + 1;
    }
    components
}

/// Law: the validation samples are distinct components in increasing order,
/// starting at the first retained component and ending at the last.
pub proof fn lemma_center_components_spread(samples: nat, len: nat)
    requires
        samples > 0,
        len > 0,
    ensures
        center_component(0, center_count(samples, len), len) == 0,
        center_component((center_count(samples, len) - 1) as nat, center_count(samples, len), len)
            == len - 1 || center_count(samples, len) == 1,
        forall|s: nat, t: nat|
            s < t < center_count(samples, len) ==> #[trigger] center_component(
                s,
                center_count(samples, len),
                len,
            ) < #[trigger] center_component(t, center_count(samples, len), len),
{
    let c = center_count(samples, len);
    if c > 1 {
        let m = (c - 1) as nat;
        assert(0 * (len - 1) == 0);
        vstd::arithmetic::div_mod::lemma_div_multiples_vanish((len - 1) as int, m as int);
        assert(m * (len - 1) == (len - 1) * m) by (nonlinear_arith);
        assert forall|s: nat, t: nat| s < t < c implies #[trigger] center_component(s, c, len)
            < #[trigger] center_component(t, c, len) by {
            lemma_scaled_index_strictly_increasing(s, t, (len - 1) as nat, m);
            assert(c <= len);
        }
    }
}

} // verus!
