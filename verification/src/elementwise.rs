//! The arms of the elementwise (Hadamard) product of two quantics tensor
//! trains, and the names under which the runners select them.

use vstd::prelude::*;
use crate::text::same_text;

verus! {

/// The fit arm uses a fixed two full sweeps: the sweep count is part of the
/// benchmark definition, not something we let adapt or inherit from upstream
/// defaults.
pub const FIT_NFULLSWEEPS: usize = 2;

/// The four ways to form the elementwise product.
#[derive(Clone, Copy, Debug)]
pub enum ElementwiseAlgo {
    Naive,
    Zipup,
    Fit,
    Aci,
}

/// How the `aci` arm interprets the stopping tolerance it is handed.
///
/// The SVD-based arms take the tolerance as a singular value threshold relative
/// to the largest singular value. ACI instead compares a pivot error against the
/// tolerance, and whether that comparison is absolute or scaled by the sampled
/// output magnitude of the bond is a separate switch; this enum makes the choice
/// explicit at every call site.
#[derive(Clone, Copy, Debug, PartialEq, Eq, Structural)]
pub enum AciTolerance {
    /// Absolute pivot error threshold.
    Absolute,
    /// Pivot error divided by the largest sampled output magnitude of the bond.
    ScaleRelative,
}

/// Record token of the engine that runs an arm.
pub open spec fn engine_name(algo: ElementwiseAlgo) -> Seq<char> {
    match algo {
        ElementwiseAlgo::Naive => "local"@,
        ElementwiseAlgo::Zipup => "treetn"@,
        ElementwiseAlgo::Fit => "treetn"@,
        ElementwiseAlgo::Aci => "aci"@,
    }
}

impl ElementwiseAlgo {
    /// Which engine actually runs this arm.
    ///
    /// `Naive` is the local bond-Kronecker product plus an SVD sweep written on
    /// top of tensor train primitives, so it is labelled `local` rather than
    /// attributed to an upstream contraction engine.
    pub fn engine(self) -> (name: &'static str)
        ensures
            name@ == engine_name(self),
    {
        match self {
            ElementwiseAlgo::Naive => "local",
            ElementwiseAlgo::Zipup | ElementwiseAlgo::Fit => "treetn",
            ElementwiseAlgo::Aci => "aci",
        }
    }
}

/// The arm that the Fourier runner selects by `name`, if any.
pub open spec fn fourier_algo_named(name: Seq<char>) -> Option<ElementwiseAlgo> {
    if name == "naive"@ {
        Some(ElementwiseAlgo::Naive)
    } else if name == "zipup"@ {
        Some(ElementwiseAlgo::Zipup)
    } else if name == "fit"@ {
        Some(ElementwiseAlgo::Fit)
    } else if name == "aci"@ {
        Some(ElementwiseAlgo::Aci)
    } else {
        None
    }
}

/// The arm that the Gaussian-mixture runners select by `name`, if any.
pub open spec fn gaussian_algo_named(name: Seq<char>) -> Option<ElementwiseAlgo> {
    if name == "naive"@ {
        Some(ElementwiseAlgo::Naive)
    } else if name == "zipup_treetn"@ {
        Some(ElementwiseAlgo::Zipup)
    } else if name == "fit_treetn"@ {
        Some(ElementwiseAlgo::Fit)
    } else if name == "aci"@ {
        Some(ElementwiseAlgo::Aci)
    } else {
        None
    }
}

/// Parses a `BENCH_ALGOS` entry of the Fourier runner
/// (`naive`, `zipup`, `fit`, `aci`).
pub fn parse_fourier_algo(name: &str) -> (algo: Option<ElementwiseAlgo>)
    ensures
        algo == fourier_algo_named(name@),
{
    if same_text(name, "naive") {
        Some(ElementwiseAlgo::Naive)
    } else if same_text(name, "zipup") {
        Some(ElementwiseAlgo::Zipup)
    } else if same_text(name, "fit") {
        Some(ElementwiseAlgo::Fit)
    } else if same_text(name, "aci") {
        Some(ElementwiseAlgo::Aci)
    } else {
        None
    }
}

/// Parses a `BENCH_ALGOS` entry of the Gaussian-mixture runners
/// (`naive`, `zipup_treetn`, `fit_treetn`, `aci`).
pub fn parse_gaussian_algo(name: &str) -> (algo: Option<ElementwiseAlgo>)
    ensures
        algo == gaussian_algo_named(name@),
{
    if same_text(name, "naive") {
        Some(ElementwiseAlgo::Naive)
    } else if same_text(name, "zipup_treetn") {
        Some(ElementwiseAlgo::Zipup)
    } else if same_text(name, "fit_treetn") {
        Some(ElementwiseAlgo::Fit)
    } else if same_text(name, "aci") {
        Some(ElementwiseAlgo::Aci)
    } else {
        None
    }
}

/// Number of entries of a dense tensor with dimensions `dims`.
pub open spec fn dense_size(dims: Seq<usize>) -> nat
    decreases dims.len(),
{
    if dims.len() == 0 {
        1
    } else {
        dims[0] as nat * dense_size(dims.drop_first())
    }
}

/// Column-major position of the multi-index `index` in a dense tensor with
/// dimensions `dims`: the first index varies fastest.
pub open spec fn col_major(index: Seq<usize>, dims: Seq<usize>) -> nat
    decreases index.len(),
{
    if index.len() == 0 {
        0
    } else {
        index[0] as nat + dims[0] as nat * col_major(index.drop_first(), dims.drop_first())
    }
}

/// Whether `index` addresses an entry of a tensor with dimensions `dims`.
pub open spec fn in_box(index: Seq<usize>, dims: Seq<usize>) -> bool {
    &&& index.len() == dims.len()
    &&& forall|k: int| 0 <= k < index.len() ==> index[k] < dims[k]
}

/// Law: the column-major position of an in-range multi-index is an entry of
/// the tensor, and distinct multi-indices have distinct positions.
pub proof fn lemma_col_major_bijective(index: Seq<usize>, other: Seq<usize>, dims: Seq<usize>)
    requires
        in_box(index, dims),
        in_box(other, dims),
    ensures
        col_major(index, dims) < dense_size(dims),
        col_major(index, dims) == col_major(other, dims) ==> index == other,
    decreases index.len(),
{
    if index.len() > 0 {
        let rest = index.drop_first();
        let other_rest = other.drop_first();
        let dims_rest = dims.drop_first();
        lemma_col_major_bijective(rest, other_rest, dims_rest);
        let d = dims[0] as nat;
        let c = col_major(rest, dims_rest);
        let co = col_major(other_rest, dims_rest);
        let size = dense_size(dims_rest);
        assert(index[0] as nat + d * c < d * size) by (nonlinear_arith)
            requires
                index[0] < d,
                c < size,
        ;
        if col_major(index, dims) == col_major(other, dims) {
            assert(other[0] < dims[0]);
            assert(d * co == co * d) by (nonlinear_arith);
            assert(d * c == c * d) by (nonlinear_arith);
            vstd::arithmetic::div_mod::lemma_fundamental_div_mod_converse(
                col_major(index, dims) as int,
                d as int,
                c as int,
                index[0] as int,
            );
            vstd::arithmetic::div_mod::lemma_fundamental_div_mod_converse(
                col_major(other, dims) as int,
                d as int,
                co as int,
                other[0] as int,
            );
            assert(index =~= seq![index[0]] + rest);
            assert(other =~= seq![other[0]] + other_rest);
        }
    }
}

/// Column-major position of `index` in a dense tensor with dimensions `dims`,
/// the layout of every core of this benchmark (the first index varies
/// fastest): `i0 + d0 * (i1 + d1 * (i2 + ...))`.
pub fn col_major_index(index: &Vec<usize>, dims: &Vec<usize>) -> (position: usize)
    requires
        in_box(index@, dims@),
        dense_size(dims@) <= usize::MAX,
    ensures
        position as nat == col_major(index@, dims@),
{
    let n = index.len();
    let mut position: usize = 0;
    let mut k: usize = n;
    proof {
        assert(index@.subrange(n as int, n as int) =~= Seq::<usize>::empty());
        lemma_suffix_size_bound(dims@, n as int);
    }
    while k > 0
        invariant
            n == index@.len(),
            k <= n,
            in_box(index@, dims@),
            dense_size(dims@) <= usize::MAX,
            position as nat == col_major(index@.subrange(k as int, n as int), dims@.subrange(k as int, n as int)),
            (position as nat) < dense_size(dims@.subrange(k as int, n as int)),
        decreases k,
    {
        k = k - 1;
        let ghost idx_rest = index@.subrange(k + 1, n as int);
        let ghost dims_rest = dims@.subrange(k + 1, n as int);
        proof {
            lemma_suffix_size_bound(dims@, k as int);
            assert(index@.subrange(k as int, n as int).drop_first() =~= idx_rest);
            assert(dims@.subrange(k as int, n as int).drop_first() =~= dims_rest);
            let d = dims@[k as int] as nat;
            let size = dense_size(dims_rest);
            assert(index@[k as int] as nat + d * (position as nat) < d * size) by (nonlinear_arith)
                requires
                    index@[k as int] < d,
                    (position as nat) < size,
            ;
            assert(d * size == dense_size(dims@.subrange(k as int, n as int)));
        }
        position = index[k] + dims[k] * position;
    }
    assert(index@.subrange(0, n as int) =~= index@);
    assert(dims@.subrange(0, n as int) =~= dims@);
    position
}

proof fn lemma_suffix_size_bound(dims: Seq<usize>, k: int)
    requires
        0 <= k <= dims.len(),
        forall|j: int| 0 <= j < dims.len() ==> dims[j] >= 1,
    ensures
        dense_size(dims.subrange(k, dims.len() as int)) <= dense_size(dims),
        dense_size(dims.subrange(k, dims.len() as int)) >= 1,
    decreases k,
{
    if k == 0 {
        assert(dims.subrange(0, dims.len() as int) =~= dims);
        lemma_size_positive(dims);
    } else {
        lemma_suffix_size_bound(dims.drop_first(), k - 1);
        assert(dims.drop_first().subrange(k - 1, dims.drop_first().len() as int) =~= dims.subrange(
            k,
            dims.len() as int,
        ));
        let tail = dense_size(dims.drop_first());
        assert(dims[0] as nat * tail >= tail) by (nonlinear_arith)
            requires dims[0] >= 1;
    }
}

proof fn lemma_size_positive(dims: Seq<usize>)
    requires
        forall|j: int| 0 <= j < dims.len() ==> dims[j] >= 1,
    ensures
        dense_size(dims) >= 1,
    decreases dims.len(),
{
    if dims.len() > 0 {
        lemma_size_positive(dims.drop_first());
        let tail = dense_size(dims.drop_first());
        assert(dims[0] as nat * tail >= 1) by (nonlinear_arith)
            requires dims[0] >= 1, tail >= 1;
    }
}

} // verus!
