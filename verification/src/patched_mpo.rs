//! Bookkeeping of the patched MPO-MPO contraction: the eligible-axis layouts
//! and their record tokens, the sweep tolerance split, the regular binary
//! refinement of an adaptive input partition, and the structural statistics
//! of a prepared pair of patched inputs.

use vstd::prelude::*;
use vstd::arithmetic::power2::pow2;
use vstd::multiset::Multiset;
use crate::patched::max_or_zero;

verus! {

/// Input axes eligible for adaptive patching.
#[derive(Clone, Copy, Debug, Eq, PartialEq, Structural)]
pub enum MpoPatchLayout {
    /// Interleaved shared/output axes: left y/x and right y/z.
    BalancedXyz,
    /// Shared y indices only; x and z remain unprojected.
    SharedYOnly,
}

/// Record token of a layout.
pub open spec fn layout_token(layout: MpoPatchLayout) -> Seq<char> {
    match layout {
        MpoPatchLayout::BalancedXyz => "balanced_xyz"@,
        MpoPatchLayout::SharedYOnly => "shared_y_only"@,
    }
}

impl MpoPatchLayout {
    /// Stable record token.
    pub fn as_str(self) -> (token: &'static str)
        ensures
            token@ == layout_token(self),
    {
        match self {
            Self::BalancedXyz => "balanced_xyz",
            Self::SharedYOnly => "shared_y_only",
        }
    }
}

/// Law: the two layouts have distinct record tokens.
pub proof fn lemma_layout_tokens_distinct()
    ensures
        layout_token(MpoPatchLayout::BalancedXyz) != layout_token(MpoPatchLayout::SharedYOnly),
{
    reveal_strlit("balanced_xyz");
    reveal_strlit("shared_y_only");
    assert("balanced_xyz"@.len() != "shared_y_only"@.len());
}

/// Number of chain edges a relative budget is spread over: one per edge of a
/// chain of `node_count` nodes, and one for a chain of zero or one node.
pub open spec fn chain_edges(node_count: nat) -> nat {
    if node_count <= 1 {
        1
    } else {
        (node_count - 1) as nat
    }
}

/// Number of truncation visits a squared whole-chain budget is divided over:
/// every chain edge is visited twice by the truncation plan, and zero- and
/// one-node chains count as one edge.
pub fn sweep_edge_visits(node_count: usize) -> (visits: usize)
    requires
        node_count <= usize::MAX / 2,
    ensures
        visits as nat == 2 * chain_edges(node_count as nat),
{
    2 * chain_edge_count(node_count)
}

/// Number of edges of a chain of `node_count` nodes, counting a chain of
/// zero or one node as one edge.
pub fn chain_edge_count(node_count: usize) -> (edges: usize)
    ensures
        edges as nat == chain_edges(node_count as nat),
{
    if node_count <= 1 {
        1
    } else {
        node_count - 1
    }
}

/// Number of leading `true` entries of `flags`.
pub open spec fn leading_run(flags: Seq<bool>) -> nat
    decreases flags.len(),
{
    if flags.len() == 0 || !flags[0] {
        0
    } else {
        1 + leading_run(flags.drop_first())
    }
}

proof fn lemma_leading_run_prefix(flags: Seq<bool>, k: nat)
    requires
        k <= flags.len(),
        forall|i: int| 0 <= i < k ==> flags[i],
    ensures
        leading_run(flags) == k + leading_run(flags.subrange(k as int, flags.len() as int)),
    decreases k,
{
    if k > 0 {
        lemma_leading_run_prefix(flags.drop_first(), (k - 1) as nat);
        assert(flags.drop_first().subrange((k - 1) as int, flags.drop_first().len() as int)
            =~= flags.subrange(k as int, flags.len() as int));
    } else {
        assert(flags.subrange(0, flags.len() as int) =~= flags);
    }
}

/// How many leading indices of an axis a projector fixes.
pub fn leading_projected(flags: &Vec<bool>) -> (run: usize)
    ensures
        run as nat == leading_run(flags@),
{
    let mut k: usize = 0;
    while k < flags.len() && flags[k]
        invariant
            k <= flags@.len(),
            forall|i: int| 0 <= i < k ==> flags@[i],
        decreases flags@.len() - k,
    {
        k = k + 1;
    }
    proof {
        lemma_leading_run_prefix(flags@, k as nat);
        let rest = flags@.subrange(k as int, flags@.len() as int);
        if k < flags@.len() {
            assert(!rest[0]);
        }
    }
    k
}

/// The largest leading run over the projectors of one axis, zero when there
/// are none.
pub open spec fn max_leading_run(per_projector: Seq<Seq<bool>>) -> nat
    decreases per_projector.len(),
{
    if per_projector.len() == 0 {
        0
    } else {
        let rest = max_leading_run(per_projector.drop_last());
        let last = leading_run(per_projector.last());
        if last > rest {
            last
        } else {
            rest
        }
    }
}

/// Refinement depth of one axis: the deepest prefix of the axis that some
/// projector of the adaptive partition fixes. `per_projector[p][i]` says
/// whether projector `p` fixes index `i` of the axis.
pub fn axis_depth(per_projector: &Vec<Vec<bool>>) -> (depth: usize)
    ensures
        depth as nat == max_leading_run(per_projector@.map_values(|f: Vec<bool>| f@)),
{
    let ghost runs = per_projector@.map_values(|f: Vec<bool>| f@);
    let mut depth: usize = 0;
    let mut p: usize = 0;
    while p < per_projector.len()
        invariant
            p <= per_projector@.len(),
            runs == per_projector@.map_values(|f: Vec<bool>| f@),
            depth as nat == max_leading_run(runs.take(p as int)),
        decreases per_projector@.len() - p,
    {
        let run = leading_projected(&per_projector[p]);
        assert(runs.take(p + 1).drop_last() =~= runs.take(p as int));
        assert(runs.take(p + 1).last() == per_projector@[p as int]@);
        if run > depth {
            depth = run;
        }
        p = p + 1;
    }
    assert(runs.take(per_projector@.len() as int) =~= runs);
    depth
}

/// Why a regular binary refinement of an adaptive partition failed.
#[derive(Clone, Copy, Debug, PartialEq, Eq, Structural)]
pub enum RefineError {
    /// A selected index is not binary; the refinement needs dimension two.
    NotBinary { axis: usize, position: usize },
    /// `2^bits` regular patches do not fit in `usize`.
    CountOverflow { bits: usize },
    /// The regular projector of `assignment` has more than one source.
    MultipleSources { assignment: usize },
    /// Some nonzero adaptive source was not covered by any regular patch.
    Uncovered { source: usize },
}

/// The indices a regular refinement fixes, as `(axis, position)` pairs, and
/// the number of regular patches, `2^indices.len()`.
pub struct RegularLayout {
    pub indices: Vec<(usize, usize)>,
    pub count: usize,
}

/// The first `depths[a]` positions of every axis `a`, axis by axis.
pub open spec fn selected_indices(depths: Seq<usize>) -> Seq<(usize, usize)>
    decreases depths.len(),
{
    if depths.len() == 0 {
        Seq::empty()
    } else {
        let a = (depths.len() - 1) as usize;
        selected_indices(depths.drop_last()) + Seq::new(
            depths.last() as nat,
            |i: int| (a, i as usize),
        )
    }
}

/// Plan the regular refinement: fix the first `depths[a]` indices of every
/// axis, require each of them to be binary (`axis_dims[a][i] == 2`), and
/// count the `2^n` regular projectors over the `n` fixed indices.
pub fn regular_layout(depths: &Vec<usize>, axis_dims: &Vec<Vec<usize>>) -> (layout: Result<
    RegularLayout,
    RefineError,
>)
    requires
        depths@.len() == axis_dims@.len(),
        forall|a: int| 0 <= a < depths@.len() ==> #[trigger] depths@[a] <= axis_dims@[a]@.len(),
    ensures
        match layout {
            Ok(l) => {
                &&& l.indices@ == selected_indices(depths@)
                &&& forall|k: int|
                    0 <= k < l.indices@.len() ==> axis_dims@[#[trigger] l.indices@[k].0 as int]@[l.indices@[k].1 as int]
                        == 2
                &&& l.count as nat == pow2(l.indices@.len())
            },
            Err(RefineError::NotBinary { axis, position }) => {
                &&& axis < depths@.len()
                &&& position < depths@[axis as int]
                &&& axis_dims@[axis as int]@[position as int] != 2
            },
            Err(RefineError::CountOverflow { bits }) => {
                &&& bits as nat == selected_indices(depths@).len()
                &&& pow2(bits as nat) > usize::MAX
                &&& forall|k: int|
                    0 <= k < bits ==> axis_dims@[#[trigger] selected_indices(depths@)[k].0 as int]@[selected_indices(
                        depths@,
                    )[k].1 as int] == 2
            },
            Err(_) => false,
        },
{
    let mut indices: Vec<(usize, usize)> = Vec::new();
    let mut a: usize = 0;
    while a < depths.len()
        invariant
            a <= depths@.len(),
            depths@.len() == axis_dims@.len(),
            forall|b: int| 0 <= b < depths@.len() ==> #[trigger] depths@[b] <= axis_dims@[b]@.len(),
            indices@ == selected_indices(depths@.take(a as int)),
        decreases depths@.len() - a,
    {
        let ghost prefix = indices@;
        let mut i: usize = 0;
        while i < depths[a]
            invariant
                a < depths@.len(),
                i <= depths@[a as int],
                indices@ == prefix + Seq::new(i as nat, |j: int| (a, j as usize)),
            decreases depths@[a as int] - i,
        {
            indices.push((a, i));
            assert(indices@ =~= prefix + Seq::new((i + 1) as nat, |j: int| (a, j as usize)));
            i = i + 1;
        }
        assert(depths@.take(a + 1).drop_last() =~= depths@.take(a as int));
        assert(indices@ =~= selected_indices(depths@.take(a + 1)));
        a = a + 1;
    }
    assert(depths@.take(depths@.len() as int) =~= depths@);
    proof {
        lemma_selected_indices_in_range(depths@);
    }
    let mut k: usize = 0;
    while k < indices.len()
        invariant
            indices@ == selected_indices(depths@),
            depths@.len() == axis_dims@.len(),
            forall|b: int| 0 <= b < depths@.len() ==> #[trigger] depths@[b] <= axis_dims@[b]@.len(),
            forall|j: int|
                0 <= j < indices@.len() ==> (#[trigger] indices@[j]).0 < depths@.len() && indices@[j].1
                    < depths@[indices@[j].0 as int],
            k <= indices@.len(),
            forall|j: int|
                0 <= j < k ==> axis_dims@[#[trigger] indices@[j].0 as int]@[indices@[j].1 as int] == 2,
        decreases indices@.len() - k,
    {
        let (axis, position) = indices[k];
        if axis_dims[axis][position] != 2 {
            return Err(RefineError::NotBinary { axis, position });
        }
        k = k + 1;
    }
    let bits = indices.len();
    if bits >= usize::BITS as usize {
        proof {
            lemma_usize_max_pow2();
            if bits > usize::BITS {
                vstd::arithmetic::power2::lemma_pow2_strictly_increases(usize::BITS as nat, bits as nat);
            }
        }
        return Err(RefineError::CountOverflow { bits });
    }
    proof {
        vstd::bits::lemma_usize_pow2_no_overflow(bits as nat);
        vstd::bits::lemma_usize_shl_is_mul(1, bits);
    }
    let count: usize = 1usize << bits;
    Ok(RegularLayout { indices, count })
}

proof fn lemma_usize_max_pow2()
    ensures
        usize::MAX < pow2(usize::BITS as nat),
{
    vstd::arithmetic::power2::lemma2_to64();
    vstd::arithmetic::power2::lemma2_to64_rest();
}

proof fn lemma_selected_indices_in_range(depths: Seq<usize>)
    requires
        depths.len() <= usize::MAX,
    ensures
        forall|j: int|
            0 <= j < selected_indices(depths).len() ==> (#[trigger] selected_indices(depths)[j]).0
                < depths.len() && selected_indices(depths)[j].1 < depths[selected_indices(
                depths,
            )[j].0 as int],
    decreases depths.len(),
{
    if depths.len() > 0 {
        let rest = depths.drop_last();
        lemma_selected_indices_in_range(rest);
        let a = (depths.len() - 1) as usize;
        let tail = Seq::new(depths.last() as nat, |i: int| (a, i as usize));
        assert(selected_indices(depths) == selected_indices(rest) + tail);
        assert forall|j: int| 0 <= j < selected_indices(depths).len() implies (
        #[trigger] selected_indices(depths)[j]).0 < depths.len() && selected_indices(depths)[j].1
            < depths[selected_indices(depths)[j].0 as int] by {
            if j < selected_indices(rest).len() {
                assert(selected_indices(depths)[j] == selected_indices(rest)[j]);
                assert(depths[selected_indices(rest)[j].0 as int] == rest[selected_indices(
                    rest,
                )[j].0 as int]);
            } else {
                let i = j - selected_indices(rest).len();
                assert(selected_indices(depths)[j] == tail[i]);
                assert(tail[i] == (a, i as usize));
                assert(a as int == depths.len() - 1);
            }
        }
    }
}

/// The bit of `assignment` at position `bit`.
pub open spec fn assignment_bit(assignment: usize, bit: nat) -> usize {
    (((assignment as nat) / pow2(bit)) % 2) as usize
}

/// Values of the regular projector number `assignment`: index `bit` of the
/// layout is fixed to bit `bit` of `assignment`.
pub fn assignment_values(assignment: usize, bits: usize) -> (values: Vec<usize>)
    requires
        bits <= usize::BITS,
    ensures
        values@.len() == bits,
        forall|b: int| 0 <= b < bits ==> #[trigger] values@[b] == assignment_bit(assignment, b as nat),
{
    let mut values: Vec<usize> = Vec::with_capacity(bits);
    let mut b: usize = 0;
    while b < bits
        invariant
            bits <= usize::BITS,
            b <= bits,
            values@.len() == b,
            forall|j: int| 0 <= j < b ==> #[trigger] values@[j] == assignment_bit(assignment, j as nat),
        decreases bits - b,
    {
        proof {
            vstd::bits::lemma_usize_shr_is_div(assignment, b);
            let s = assignment >> b;
            assert(s & 1 == s % 2) by (bit_vector);
        }
        values.push((assignment >> b) & 1);
        b = b + 1;
    }
    values
}

proof fn lemma_assignment_bits_determine_residue(a: nat, b: nat, n: nat)
    requires
        forall|k: nat| k < n ==> #[trigger] ((a / pow2(k)) % 2) == (b / pow2(k)) % 2,
    ensures
        a % pow2(n) == b % pow2(n),
    decreases n,
{
    vstd::arithmetic::power2::lemma2_to64();
    if n == 0 {
        assert(a % 1 == 0 && b % 1 == 0);
    } else {
        let m = (n - 1) as nat;
        assert forall|k: nat| k < m implies #[trigger] (((a / 2) / pow2(k)) % 2) == ((b / 2) / pow2(
            k,
        )) % 2 by {
            vstd::arithmetic::power2::lemma_pow2_pos(k);
            vstd::arithmetic::div_mod::lemma_div_denominator(a as int, 2, pow2(k) as int);
            vstd::arithmetic::div_mod::lemma_div_denominator(b as int, 2, pow2(k) as int);
            vstd::arithmetic::power2::lemma_pow2_unfold(k + 1);
            assert(((k + 1) as nat) < n);
            assert((a / pow2((k + 1) as nat)) % 2 == (b / pow2((k + 1) as nat)) % 2);
        }
        lemma_assignment_bits_determine_residue(a / 2, b / 2, m);
        vstd::arithmetic::power2::lemma_pow2_pos(m);
        vstd::arithmetic::power2::lemma_pow2_unfold(n);
        vstd::arithmetic::div_mod::lemma_mod_breakdown(a as int, 2, pow2(m) as int);
        vstd::arithmetic::div_mod::lemma_mod_breakdown(b as int, 2, pow2(m) as int);
        assert((a / pow2(0)) % 2 == (b / pow2(0)) % 2);
        assert(a / 1 == a && b / 1 == b);
    }
}

/// Law: distinct regular projectors fix distinct values, so the `2^bits`
/// regular patches do not overlap.
pub proof fn lemma_assignment_values_injective(a: usize, b: usize, bits: nat)
    requires
        (a as nat) < pow2(bits),
        (b as nat) < pow2(bits),
        forall|k: nat| k < bits ==> #[trigger] assignment_bit(a, k) == assignment_bit(b, k),
    ensures
        a == b,
{
    assert forall|k: nat| k < bits implies #[trigger] (((a as nat) / pow2(k)) % 2) == ((b as nat)
        / pow2(k)) % 2 by {
        assert(assignment_bit(a, k) == assignment_bit(b, k));
    }
    lemma_assignment_bits_determine_residue(a as nat, b as nat, bits);
    vstd::arithmetic::div_mod::lemma_small_mod(a as nat, pow2(bits));
    vstd::arithmetic::div_mod::lemma_small_mod(b as nat, pow2(bits));
}

/// The number whose binary digits, least significant first, are `values`.
pub open spec fn bits_value(values: Seq<usize>) -> nat
    decreases values.len(),
{
    if values.len() == 0 {
        0
    } else {
        values[0] as nat + 2 * bits_value(values.drop_first())
    }
}

proof fn lemma_bits_value_digits(values: Seq<usize>)
    requires
        forall|b: int| 0 <= b < values.len() ==> #[trigger] values[b] < 2,
    ensures
        bits_value(values) < pow2(values.len()),
        forall|k: nat|
            k < values.len() ==> #[trigger] ((bits_value(values) / pow2(k)) % 2) == values[k as int]
                as nat,
    decreases values.len(),
{
    vstd::arithmetic::power2::lemma2_to64();
    if values.len() > 0 {
        let rest = values.drop_first();
        assert forall|b: int| 0 <= b < rest.len() implies #[trigger] rest[b] < 2 by {
            assert(rest[b] == values[b + 1]);
        }
        lemma_bits_value_digits(rest);
        let v = bits_value(values);
        let r = bits_value(rest);
        let low = values[0] as nat;
        assert(low < 2);
        assert(v == low + 2 * r);
        vstd::arithmetic::power2::lemma_pow2_unfold(values.len());
        assert(v % 2 == low && v / 2 == r) by {
            vstd::arithmetic::div_mod::lemma_fundamental_div_mod_converse(v as int, 2, r as int, low as int);
        }
        assert forall|k: nat| k < values.len() implies #[trigger] ((v / pow2(k)) % 2) == values[k as int]
            as nat by {
            if k == 0 {
                assert(v / 1 == v);
            } else {
                let j = (k - 1) as nat;
                vstd::arithmetic::power2::lemma_pow2_unfold(k);
                vstd::arithmetic::power2::lemma_pow2_pos(j);
                vstd::arithmetic::div_mod::lemma_div_denominator(v as int, 2, pow2(j) as int);
                assert(rest[j as int] == values[k as int]);
                assert((r / pow2(j)) % 2 == rest[j as int] as nat);
            }
        }
    }
}

/// Whether the regular projector number `assignment` is one of the `2^bits`
/// regular projectors and fixes index `b` to `values[b]` for every `b`.
pub open spec fn is_assignment_of(assignment: usize, values: Seq<usize>) -> bool {
    &&& (assignment as nat) < pow2(values.len())
    &&& forall|b: nat| b < values.len() ==> #[trigger] assignment_bit(assignment, b) == values[b as int]
}

/// Law: every assignment of binary values to the indices a regular
/// refinement fixes is the projector of one number below `2^bits`, so, with
/// [`lemma_assignment_values_injective`], the `2^bits` regular patches cover
/// every combination of the fixed values exactly once.
pub proof fn lemma_assignment_values_cover(values: Seq<usize>)
    requires
        forall|b: int| 0 <= b < values.len() ==> #[trigger] values[b] < 2,
        pow2(values.len()) <= usize::MAX + 1,
    ensures
        exists|a: usize| #[trigger] is_assignment_of(a, values),
{
    lemma_bits_value_digits(values);
    let a = bits_value(values) as usize;
    assert forall|b: nat| b < values.len() implies #[trigger] assignment_bit(a, b) == values[b as int] by {
        assert(((bits_value(values) / pow2(b)) % 2) == values[b as int] as nat);
    }
    assert(is_assignment_of(a, values));
}

/// Tracks which adaptive sources the regular patches have been cut from.
pub struct RegularRefinement {
    covered: Vec<bool>,
}

impl View for RegularRefinement {
    type V = Seq<bool>;

    closed spec fn view(&self) -> Seq<bool> {
        self.covered@
    }
}

impl RegularRefinement {
    /// A refinement of a partition with `sources` adaptive patches, none of
    /// them covered yet.
    pub fn new(sources: usize) -> (refinement: Self)
        ensures
            refinement@ == Seq::new(sources as nat, |s: int| false),
    {
        let mut covered: Vec<bool> = Vec::with_capacity(sources);
        let mut s: usize = 0;
        while s < sources
            invariant
                s <= sources,
                covered@ == Seq::new(s as nat, |j: int| false),
            decreases sources - s,
        {
            covered.push(false);
            s = s + 1;
            assert(covered@ =~= Seq::new(s as nat, |j: int| false));
        }
        RegularRefinement { covered }
    }

    /// Record the regular projector number `assignment`, given which
    /// adaptive sources are compatible with it. Returns the source it is cut
    /// from, `None` when no source covers it, and an error when more than one
    /// does; the source is marked covered.
    pub fn assign(&mut self, assignment: usize, compatible: &Vec<bool>) -> (source: Result<
        Option<usize>,
        RefineError,
    >)
        requires
            compatible@.len() == old(self)@.len(),
        ensures
            match source {
                Ok(Some(s)) => {
                    &&& s < compatible@.len()
                    &&& compatible@[s as int]
                    &&& forall|t: int| 0 <= t < compatible@.len() && t != s ==> !compatible@[t]
                    &&& final(self)@ == old(self)@.update(s as int, true)
                },
                Ok(None) => {
                    &&& forall|t: int| 0 <= t < compatible@.len() ==> !compatible@[t]
                    &&& final(self)@ == old(self)@
                },
                Err(e) => {
                    &&& e == RefineError::MultipleSources { assignment }
                    &&& exists|s: int, t: int|
                        0 <= s < t < compatible@.len() && compatible@[s] && compatible@[t]
                    &&& final(self)@ == old(self)@
                },
            },
    {
        let mut found: Option<usize> = None;
        let mut k: usize = 0;
        while k < compatible.len()
            invariant
                k <= compatible@.len(),
                match found {
                    Some(f) => f < k && compatible@[f as int] && forall|j: int|
                        0 <= j < k && j != f ==> !compatible@[j],
                    None => forall|j: int| 0 <= j < k ==> !compatible@[j],
                },
            decreases compatible@.len() - k,
        {
            if compatible[k] {
                match found {
                    Some(f) => {
                        return Err(RefineError::MultipleSources { assignment });
                    },
                    None => {
                        found = Some(k);
                    },
                }
            }
            k = k + 1;
        }
        match found {
            Some(f) => {
                self.covered.set(f, true);
            },
            None => {},
        }
        Ok(found)
    }

    /// Check that every adaptive source was cut into at least one regular
    /// patch; the first uncovered source is reported.
    pub fn finish(&self) -> (checked: Result<(), RefineError>)
        ensures
            checked is Ok <==> forall|s: int| 0 <= s < self@.len() ==> self@[s],
            checked matches Err(e) ==> e matches RefineError::Uncovered { source } && source
                < self@.len() && !self@[source as int] && forall|s: int|
                0 <= s < source ==> self@[s],
    {
        let mut s: usize = 0;
        while s < self.covered.len()
            invariant
                s <= self@.len(),
                forall|t: int| 0 <= t < s ==> self@[t],
            decreases self@.len() - s,
        {
            if !self.covered[s] {
                return Err(RefineError::Uncovered { source: s });
            }
            s = s + 1;
        }
        Ok(())
    }
}

/// Sorts a vector in ascending order with `<[usize]>::sort_unstable`. The
/// contract claims that the result is an ascending rearrangement of the input.
#[verifier::external_body]
fn sort_unstable_usize(values: &mut Vec<usize>)
    ensures
        final(values)@.to_multiset() == old(values)@.to_multiset(),
        forall|i: int, j: int| 0 <= i <= j < final(values)@.len() ==> final(values)@[i] <= final(values)@[j],
{
    values.sort_unstable();
}

/// The per-patch values (bond dimensions or parameter counts) in ascending
/// order.
pub fn sorted_patch_values(values: Vec<usize>) -> (sorted: Vec<usize>)
    ensures
        sorted@.to_multiset() == values@.to_multiset(),
        forall|i: int, j: int| 0 <= i <= j < sorted@.len() ==> sorted@[i] <= sorted@[j],
{
    let mut sorted = values;
    sort_unstable_usize(&mut sorted);
    sorted
}

/// Sum of the per-patch values.
pub open spec fn value_sum(values: Seq<usize>) -> nat
    decreases values.len(),
{
    if values.len() == 0 {
        0
    } else {
        value_sum(values.drop_last()) + values.last() as nat
    }
}

proof fn lemma_value_sum_remove(values: Seq<usize>, i: int)
    requires
        0 <= i < values.len(),
    ensures
        value_sum(values) == value_sum(values.remove(i)) + values[i] as nat,
    decreases values.len(),
{
    if i == values.len() - 1 {
        assert(values.remove(i) =~= values.drop_last());
    } else {
        lemma_value_sum_remove(values.drop_last(), i);
        let removed = values.remove(i);
        assert(removed.drop_last() =~= values.drop_last().remove(i));
        assert(removed.last() == values.last());
    }
}

proof fn lemma_value_sum_of_rearrangement(a: Seq<usize>, b: Seq<usize>)
    requires
        a.to_multiset() == b.to_multiset(),
    ensures
        value_sum(a) == value_sum(b),
    decreases b.len(),
{
    broadcast use vstd::seq_lib::group_to_multiset_ensures;
    broadcast use vstd::multiset::group_multiset_axioms;

    if b.len() == 0 {
        assert(a.len() == b.to_multiset().len());
    } else {
        let x = b.last();
        let rest = b.drop_last();
        assert(rest.push(x) =~= b);
        assert(b.to_multiset() =~= rest.to_multiset().insert(x));
        assert(a.to_multiset().count(x) > 0);
        assert(a.contains(x));
        let i = choose|i: int| 0 <= i < a.len() && a[i] == x;
        assert(a.remove(i).to_multiset() =~= rest.to_multiset());
        lemma_value_sum_of_rearrangement(a.remove(i), rest);
        lemma_value_sum_remove(a, i);
    }
}

proof fn lemma_max_or_zero_bounds(values: Seq<usize>)
    ensures
        forall|k: int| 0 <= k < values.len() ==> values[k] <= max_or_zero(values),
        values.len() > 0 ==> values.contains(max_or_zero(values)),
    decreases values.len(),
{
    if values.len() > 0 {
        let rest = values.drop_last();
        lemma_max_or_zero_bounds(rest);
        assert forall|k: int| 0 <= k < values.len() implies values[k] <= max_or_zero(values) by {
            if k < values.len() - 1 {
                assert(values[k] == rest[k]);
            }
        }
        if values.last() <= max_or_zero(rest) && rest.len() > 0 {
            let k = choose|k: int| 0 <= k < rest.len() && rest[k] == max_or_zero(rest);
            assert(values[k] == rest[k]);
        } else {
            assert(values[values.len() - 1] == values.last());
        }
    }
}

/// Law: the per-patch values that [`sorted_patch_values`] puts in ascending
/// order are as many as the patches, end with the largest value (the one
/// `max_patch_bond` reports), and sum to the same total as the values in
/// patch order.
pub proof fn lemma_sorted_values_end_at_the_maximum(values: Seq<usize>, sorted: Seq<usize>)
    requires
        sorted.to_multiset() == values.to_multiset(),
        forall|i: int, j: int| 0 <= i <= j < sorted.len() ==> sorted[i] <= sorted[j],
    ensures
        sorted.len() == values.len(),
        sorted.len() > 0 ==> sorted.last() == max_or_zero(values),
        value_sum(sorted) == value_sum(values),
{
    broadcast use vstd::seq_lib::group_to_multiset_ensures;

    assert(sorted.len() == sorted.to_multiset().len());
    assert(values.len() == values.to_multiset().len());
    lemma_value_sum_of_rearrangement(sorted, values);
    lemma_max_or_zero_bounds(values);
    if sorted.len() > 0 {
        let top = sorted.last();
        assert(sorted.contains(top)) by {
            assert(sorted[sorted.len() - 1] == top);
        }
        assert(sorted.to_multiset().count(top) > 0);
        assert(values.contains(top));
        let m = max_or_zero(values);
        assert(values.to_multiset().count(m) > 0);
        assert(sorted.contains(m));
        let k = choose|k: int| 0 <= k < sorted.len() && sorted[k] == m;
        assert(sorted[k] <= sorted[sorted.len() - 1]);
        let t = choose|t: int| 0 <= t < values.len() && values[t] == top;
        assert(values[t] <= m);
    }
}

/// The region a projector fixes on a list of indices: the fixed value of
/// each index, `None` where the projector leaves it free.
pub open spec fn region_views(regions: Seq<Vec<Option<usize>>>) -> Seq<Seq<Option<usize>>> {
    regions.map_values(|r: Vec<Option<usize>>| r@)
}

fn same_region(a: &Vec<Option<usize>>, b: &Vec<Option<usize>>) -> (equal: bool)
    ensures
        equal == (a@ == b@),
{
    if a.len() != b.len() {
        return false;
    }
    let mut k: usize = 0;
    while k < a.len()
        invariant
            a@.len() == b@.len(),
            k <= a@.len(),
            forall|j: int| 0 <= j < k ==> a@[j] == b@[j],
        decreases a@.len() - k,
    {
        let equal_here = match (a[k], b[k]) {
            (Some(x), Some(y)) => x == y,
            (None, None) => true,
            _ => false,
        };
        if !equal_here {
            return false;
        }
        k = k + 1;
    }
    assert(a@ =~= b@);
    true
}

/// Number of distinct regions among `regions`: the distinct projector
/// regions of one axis, or the distinct output regions of the compatible
/// input pairs.
pub fn count_distinct_regions(regions: &Vec<Vec<Option<usize>>>) -> (count: usize)
    ensures
        count as nat == region_views(regions@).to_set().len(),
{
    let ghost views = region_views(regions@);
    let mut firsts: Vec<usize> = Vec::new();
    let mut k: usize = 0;
    while k < regions.len()
        invariant
            k <= regions@.len(),
            views == region_views(regions@),
            forall|i: int| 0 <= i < firsts@.len() ==> #[trigger] firsts@[i] < k,
            firsts@.map_values(|i: usize| views[i as int]).no_duplicates(),
            firsts@.map_values(|i: usize| views[i as int]).to_set() == views.take(k as int).to_set(),
            firsts@.len() <= k,
        decreases regions@.len() - k,
    {
        let ghost distinct = firsts@.map_values(|i: usize| views[i as int]);
        let mut seen = false;
        let mut j: usize = 0;
        while j < firsts.len()
            invariant
                j <= firsts@.len(),
                k < regions@.len(),
                views == region_views(regions@),
                distinct == firsts@.map_values(|i: usize| views[i as int]),
                forall|i: int| 0 <= i < firsts@.len() ==> #[trigger] firsts@[i] < k,
                !seen ==> forall|i: int| 0 <= i < j ==> distinct[i] != views[k as int],
                seen ==> distinct.contains(views[k as int]),
            decreases firsts@.len() - j,
        {
            if !seen && same_region(&regions[firsts[j]], &regions[k]) {
                seen = true;
                assert(distinct[j as int] == views[k as int]);
            }
            j = j + 1;
        }
        assert(views.take(k + 1) =~= views.take(k as int).push(views[k as int]));
        proof {
            views.take(k as int).lemma_push_to_set_commute(views[k as int]);
        }
        if !seen {
            firsts.push(k);
            assert(firsts@.map_values(|i: usize| views[i as int]) =~= distinct.push(views[k as int]));
            proof {
                distinct.lemma_push_to_set_commute(views[k as int]);
                assert(!distinct.contains(views[k as int]));
            }
        } else {
            assert(distinct.to_set().insert(views[k as int]) =~= distinct.to_set());
        }
        k = k + 1;
    }
    assert(views.take(regions@.len() as int) =~= views);
    proof {
        firsts@.map_values(|i: usize| views[i as int]).unique_seq_to_set();
    }
    firsts.len()
}

/// Work proxies of one compatible input pair: the parameter counts and the
/// largest bond dimensions of the left and right patch.
pub struct PairProxy {
    pub left_params: usize,
    pub right_params: usize,
    pub left_bond: usize,
    pub right_bond: usize,
}

/// Which running quantity of the contraction proxies overflowed.
#[derive(Clone, Copy, Debug, PartialEq, Eq, Structural)]
pub enum ProxyStage {
    ParameterProduct,
    ParameterSum,
    BondProduct,
    BondSum,
}

/// A contraction proxy overflowed at compatible pair `pair`.
#[derive(Clone, Copy, Debug, PartialEq, Eq, Structural)]
pub struct ProxyOverflow {
    pub pair: usize,
    pub stage: ProxyStage,
}

/// Sum of `left_params * right_params` over the first `k` pairs.
pub open spec fn parameter_product_sum(pairs: Seq<PairProxy>, k: nat) -> nat
    decreases k,
{
    if k == 0 {
        0
    } else {
        parameter_product_sum(pairs, (k - 1) as nat) + pairs[k - 1].left_params as nat
            * pairs[k - 1].right_params as nat
    }
}

/// Sum of `left_bond * right_bond` over the first `k` pairs.
pub open spec fn bond_product_sum(pairs: Seq<PairProxy>, k: nat) -> nat
    decreases k,
{
    if k == 0 {
        0
    } else {
        bond_product_sum(pairs, (k - 1) as nat) + pairs[k - 1].left_bond as nat * pairs[k
            - 1].right_bond as nat
    }
}

/// Whether every per-pair product of the proxies fits in `usize` and both
/// sums fit in `u64`.
pub open spec fn proxies_fit(pairs: Seq<PairProxy>) -> bool {
    &&& forall|k: int|
        0 <= k < pairs.len() ==> (#[trigger] pairs[k]).left_params as nat * pairs[k].right_params as nat
            <= usize::MAX && pairs[k].left_bond as nat * pairs[k].right_bond as nat <= usize::MAX
    &&& parameter_product_sum(pairs, pairs.len()) <= u64::MAX
    &&& bond_product_sum(pairs, pairs.len()) <= u64::MAX
}

proof fn lemma_proxy_sums_monotone(pairs: Seq<PairProxy>, a: nat, b: nat)
    requires
        a <= b,
    ensures
        parameter_product_sum(pairs, a) <= parameter_product_sum(pairs, b),
        bond_product_sum(pairs, a) <= bond_product_sum(pairs, b),
    decreases b,
{
    if a < b {
        lemma_proxy_sums_monotone(pairs, a, (b - 1) as nat);
    }
}

/// Coarse integer work proxies summed over the compatible input pairs: the
/// sum of the products of their parameter counts and the sum of the
/// products of their largest bond dimensions.
pub fn contraction_proxy_sums(pairs: &Vec<PairProxy>) -> (sums: Result<(u64, u64), ProxyOverflow>)
    ensures
        sums is Ok <==> proxies_fit(pairs@),
        sums matches Ok((parameters, bonds)) ==> parameters as nat == parameter_product_sum(
            pairs@,
            pairs@.len(),
        ) && bonds as nat == bond_product_sum(pairs@, pairs@.len()),
        sums matches Err(overflow) ==> overflow.pair < pairs@.len() && match overflow.stage {
            ProxyStage::ParameterProduct => pairs@[overflow.pair as int].left_params as nat
                * pairs@[overflow.pair as int].right_params as nat > usize::MAX,
            ProxyStage::ParameterSum => parameter_product_sum(pairs@, overflow.pair as nat + 1)
                > u64::MAX,
            ProxyStage::BondProduct => pairs@[overflow.pair as int].left_bond as nat
                * pairs@[overflow.pair as int].right_bond as nat > usize::MAX,
            ProxyStage::BondSum => bond_product_sum(pairs@, overflow.pair as nat + 1) > u64::MAX,
        },
{
    let mut parameters: u64 = 0;
    let mut bonds: u64 = 0;
    let mut k: usize = 0;
    while k < pairs.len()
        invariant
            k <= pairs@.len(),
            parameters as nat == parameter_product_sum(pairs@, k as nat),
            bonds as nat == bond_product_sum(pairs@, k as nat),
            forall|j: int|
                0 <= j < k ==> (#[trigger] pairs@[j]).left_params as nat * pairs@[j].right_params as nat
                    <= usize::MAX && pairs@[j].left_bond as nat * pairs@[j].right_bond as nat
                    <= usize::MAX,
        decreases pairs@.len() - k,
    {
        let pair = &pairs[k];
        let parameter_product = match pair.left_params.checked_mul(pair.right_params) {
            Some(p) => p,
            None => {
                return Err(ProxyOverflow { pair: k, stage: ProxyStage::ParameterProduct });
            },
        };
        parameters = match parameters.checked_add(parameter_product as u64) {
            Some(s) => s,
            None => {
                proof {
                    lemma_proxy_sums_monotone(pairs@, (k + 1) as nat, pairs@.len());
                }
                return Err(ProxyOverflow { pair: k, stage: ProxyStage::ParameterSum });
            },
        };
        let bond_product = match pair.left_bond.checked_mul(pair.right_bond) {
            Some(b) => b,
            None => {
                return Err(ProxyOverflow { pair: k, stage: ProxyStage::BondProduct });
            },
        };
        bonds = match bonds.checked_add(bond_product as u64) {
            Some(s) => s,
            None => {
                proof {
                    lemma_proxy_sums_monotone(pairs@, (k + 1) as nat, pairs@.len());
                }
                return Err(ProxyOverflow { pair: k, stage: ProxyStage::BondSum });
            },
        };
        k = k + 1;
    }
    Ok((parameters, bonds))
}

/// Why a pair of global trains cannot be patched for a contraction.
#[derive(Clone, Copy, Debug, PartialEq, Eq, Structural)]
pub enum PairInputError {
    /// The left train has no site.
    Empty,
    /// The two trains have different numbers of sites.
    LengthMismatch,
    /// The per-patch bond cap is zero.
    ZeroPatchCap,
}

/// Check a pair of global trains of `left_len` and `right_len` sites before
/// patching them with the bond cap `patch_max_bond`: an empty left train is
/// refused first, then different lengths, then a zero cap.
pub fn check_pair_inputs(left_len: usize, right_len: usize, patch_max_bond: usize) -> (checked:
    Result<(), PairInputError>)
    ensures
        checked is Ok <==> left_len > 0 && left_len == right_len && patch_max_bond > 0,
        checked == Err::<(), PairInputError>(PairInputError::Empty) <==> left_len == 0,
        checked == Err::<(), PairInputError>(PairInputError::LengthMismatch) <==> left_len > 0
            && left_len != right_len,
        checked == Err::<(), PairInputError>(PairInputError::ZeroPatchCap) <==> left_len > 0
            && left_len == right_len && patch_max_bond == 0,
{
    if left_len == 0 {
        Err(PairInputError::Empty)
    } else if left_len != right_len {
        Err(PairInputError::LengthMismatch)
    } else if patch_max_bond == 0 {
        Err(PairInputError::ZeroPatchCap)
    } else {
        Ok(())
    }
}

/// The fixed values of every adaptive source, axis by axis and index by
/// index (`None` where the source leaves the index free).
pub open spec fn source_views(sources: Seq<Vec<Vec<Option<usize>>>>) -> Seq<Seq<Seq<Option<usize>>>> {
    sources.map_values(|source: Vec<Vec<Option<usize>>>| source@.map_values(|axis: Vec<Option<usize>>| axis@))
}

/// Which indices of one axis a source fixes.
pub open spec fn fixed_flags(axis: Seq<Option<usize>>) -> Seq<bool> {
    axis.map_values(|value: Option<usize>| value is Some)
}

/// Refinement depth of every one of `axes` axes: the deepest prefix of the
/// axis that some source fixes.
pub open spec fn refinement_depths(views: Seq<Seq<Seq<Option<usize>>>>, axes: nat) -> Seq<usize> {
    Seq::new(
        axes,
        |a: int| max_leading_run(Seq::new(views.len(), |s: int| fixed_flags(views[s][a]))) as usize,
    )
}

/// The values that regular projector number `assignment` gives the `bits`
/// fixed indices.
pub open spec fn assignment_seq(assignment: usize, bits: nat) -> Seq<usize> {
    Seq::new(bits, |b: int| assignment_bit(assignment, b as nat))
}

/// Whether a source is compatible with the regular projector that fixes the
/// indices `indices` (as `(axis, position)` pairs) to `values`: the source
/// fixes none of them to another value.
pub open spec fn source_compatible(
    source: Seq<Seq<Option<usize>>>,
    indices: Seq<(usize, usize)>,
    values: Seq<usize>,
) -> bool {
    forall|k: int|
        0 <= k < indices.len() ==> match source[(#[trigger] indices[k]).0 as int][indices[k].1 as int] {
            Some(v) => v == values[k],
            None => true,
        }
}

/// Whether some patch of `patches` is cut from source `s`.
pub open spec fn source_cut(patches: Seq<RegularPatch>, s: int) -> bool {
    exists|e: int| 0 <= e < patches.len() && (#[trigger] patches[e]).source == s
}

/// One regular patch: the regular projector number `assignment`, which fixes
/// the layout's indices to `values`, cut from adaptive source `source`.
pub struct RegularPatch {
    pub assignment: usize,
    pub values: Vec<usize>,
    pub source: usize,
}

proof fn lemma_max_leading_run_bound(runs: Seq<Seq<bool>>, len: nat)
    requires
        forall|s: int| 0 <= s < runs.len() ==> (#[trigger] runs[s]).len() == len,
    ensures
        max_leading_run(runs) <= len,
    decreases runs.len(),
{
    if runs.len() > 0 {
        lemma_max_leading_run_bound(runs.drop_last(), len);
        lemma_leading_run_bound(runs.last());
    }
}

proof fn lemma_leading_run_bound(flags: Seq<bool>)
    ensures
        leading_run(flags) <= flags.len(),
    decreases flags.len(),
{
    if flags.len() > 0 && flags[0] {
        lemma_leading_run_bound(flags.drop_first());
    }
}

fn axis_flags(axis: &Vec<Option<usize>>) -> (flags: Vec<bool>)
    ensures
        flags@ == fixed_flags(axis@),
{
    let mut flags: Vec<bool> = Vec::with_capacity(axis.len());
    let mut p: usize = 0;
    while p < axis.len()
        invariant
            p <= axis@.len(),
            flags@ == fixed_flags(axis@.take(p as int)),
        decreases axis@.len() - p,
    {
        flags.push(axis[p].is_some());
        p = p + 1;
        assert(flags@ =~= fixed_flags(axis@.take(p as int)));
    }
    assert(axis@.take(axis@.len() as int) =~= axis@);
    flags
}

fn is_source_compatible(
    source: &Vec<Vec<Option<usize>>>,
    indices: &Vec<(usize, usize)>,
    values: &Vec<usize>,
) -> (compatible: bool)
    requires
        values@.len() == indices@.len(),
        forall|k: int|
            0 <= k < indices@.len() ==> (#[trigger] indices@[k]).0 < source@.len() && indices@[k].1
                < source@[indices@[k].0 as int]@.len(),
    ensures
        compatible == source_compatible(source@.map_values(|axis: Vec<Option<usize>>| axis@), indices@, values@),
{
    let ghost view = source@.map_values(|axis: Vec<Option<usize>>| axis@);
    let mut k: usize = 0;
    while k < indices.len()
        invariant
            k <= indices@.len(),
            values@.len() == indices@.len(),
            view == source@.map_values(|axis: Vec<Option<usize>>| axis@),
            forall|j: int|
                0 <= j < indices@.len() ==> (#[trigger] indices@[j]).0 < source@.len() && indices@[j].1
                    < source@[indices@[j].0 as int]@.len(),
            forall|j: int|
                0 <= j < k ==> match view[(#[trigger] indices@[j]).0 as int][indices@[j].1 as int] {
                    Some(v) => v == values@[j],
                    None => true,
                },
        decreases indices@.len() - k,
    {
        let (a, p) = indices[k];
        assert(view[a as int][p as int] == source@[a as int]@[p as int]);
        match source[a][p] {
            Some(v) => {
                if v != values[k] {
                    return false;
                }
            },
            None => {},
        }
        k = k + 1;
    }
    true
}

/// Plan the regular binary refinement of an adaptive partition whose sources
/// fix the values `sources[s][a][p]` at position `p` of axis `a`
/// (`axis_dims[a][p]` being the dimension there): every axis is refined to
/// the deepest prefix any source fixes, and every regular projector over the
/// refined indices that some source is compatible with becomes one patch.
///
/// The plan fixes the same binary indices in every patch, cuts each patch
/// from exactly one source, holds every regular projector that any source is
/// compatible with exactly once, and covers every source. A regular
/// projector compatible with two sources, or a source compatible with none,
/// is refused.
#[verifier::rlimit(60)]
pub fn regular_refinement_plan(
    sources: &Vec<Vec<Vec<Option<usize>>>>,
    axis_dims: &Vec<Vec<usize>>,
) -> (plan: Result<(RegularLayout, Vec<RegularPatch>), RefineError>)
    requires
        forall|s: int|
            0 <= s < sources@.len() ==> (#[trigger] sources@[s])@.len() == axis_dims@.len(),
        forall|s: int, a: int|
            0 <= s < sources@.len() && 0 <= a < axis_dims@.len() ==> (#[trigger] sources@[s]@[a])@.len()
                == axis_dims@[a]@.len(),
    ensures
        ({
            let views = source_views(sources@);
            let indices = selected_indices(refinement_depths(views, axis_dims@.len()));
            let bits = indices.len();
            match plan {
                Ok((layout, patches)) => {
                    &&& layout.indices@ == indices
                    &&& layout.count as nat == pow2(bits)
                    &&& forall|k: int|
                        0 <= k < bits ==> axis_dims@[(#[trigger] indices[k]).0 as int]@[indices[k].1 as int] == 2
                    &&& forall|e: int|
                        0 <= e < patches@.len() ==> {
                            &&& (#[trigger] patches@[e]).assignment < layout.count
                            &&& patches@[e].values@ == assignment_seq(patches@[e].assignment, bits)
                            &&& patches@[e].source < views.len()
                            &&& source_compatible(views[patches@[e].source as int], indices, patches@[e].values@)
                            &&& forall|t: int|
                                0 <= t < views.len() && t != patches@[e].source ==> !source_compatible(
                                    #[trigger] views[t],
                                    indices,
                                    patches@[e].values@,
                                )
                        }
                    &&& forall|e1: int, e2: int|
                        0 <= e1 < e2 < patches@.len() ==> (#[trigger] patches@[e1]).assignment
                            < (#[trigger] patches@[e2]).assignment
                    &&& forall|a: usize, s: int|
                        (a as nat) < pow2(bits) && 0 <= s < views.len() && source_compatible(
                            #[trigger] views[s],
                            indices,
                            #[trigger] assignment_seq(a, bits),
                        ) ==> exists|e: int| 0 <= e < patches@.len() && (#[trigger] patches@[e]).assignment == a
                    &&& forall|s: int| 0 <= s < views.len() ==> #[trigger] source_cut(patches@, s)
                },
                Err(RefineError::NotBinary { axis, position }) => {
                    &&& axis < axis_dims@.len()
                    &&& position < refinement_depths(views, axis_dims@.len())[axis as int]
                    &&& axis_dims@[axis as int]@[position as int] != 2
                },
                Err(RefineError::CountOverflow { bits: b }) => b as nat == bits && pow2(bits) > usize::MAX,
                Err(RefineError::MultipleSources { assignment }) => {
                    &&& (assignment as nat) < pow2(bits)
                    &&& exists|s: int, t: int|
                        0 <= s < t < views.len() && source_compatible(
                            #[trigger] views[s],
                            indices,
                            assignment_seq(assignment, bits),
                        ) && source_compatible(#[trigger] views[t], indices, assignment_seq(assignment, bits))
                },
                Err(RefineError::Uncovered { source }) => {
                    &&& source < views.len()
                    &&& forall|a: usize|
                        (a as nat) < pow2(bits) ==> !source_compatible(
                            views[source as int],
                            indices,
                            #[trigger] assignment_seq(a, bits),
                        )
                },
            }
        }),
{
    let ghost views = source_views(sources@);
    let n_axes = axis_dims.len();
    let mut depths: Vec<usize> = Vec::with_capacity(n_axes);
    let mut a: usize = 0;
    while a < n_axes
        invariant
            n_axes == axis_dims@.len(),
            a <= n_axes,
            views == source_views(sources@),
            forall|s: int|
                0 <= s < sources@.len() ==> (#[trigger] sources@[s])@.len() == axis_dims@.len(),
            forall|s: int, b: int|
                0 <= s < sources@.len() && 0 <= b < axis_dims@.len() ==> (#[trigger] sources@[s]@[b])@.len()
                    == axis_dims@[b]@.len(),
            depths@.len() == a,
            forall|b: int| 0 <= b < a ==> #[trigger] depths@[b] == refinement_depths(views, n_axes as nat)[b],
            forall|b: int| 0 <= b < a ==> #[trigger] depths@[b] <= axis_dims@[b]@.len(),
        decreases n_axes - a,
    {
        let mut per_source: Vec<Vec<bool>> = Vec::with_capacity(sources.len());
        let mut s: usize = 0;
        while s < sources.len()
            invariant
                a < n_axes,
                n_axes == axis_dims@.len(),
                views == source_views(sources@),
                s <= sources@.len(),
                forall|t: int|
                    0 <= t < sources@.len() ==> (#[trigger] sources@[t])@.len() == axis_dims@.len(),
                per_source@.len() == s,
                forall|t: int| 0 <= t < s ==> (#[trigger] per_source@[t])@ == fixed_flags(views[t][a as int]),
            decreases sources@.len() - s,
        {
            assert(views[s as int][a as int] == sources@[s as int]@[a as int]@);
            per_source.push(axis_flags(&sources[s][a]));
            s = s + 1;
        }
        let depth = axis_depth(&per_source);
        proof {
            let runs = Seq::new(views.len(), |t: int| fixed_flags(views[t][a as int]));
            assert(per_source@.map_values(|f: Vec<bool>| f@) =~= runs);
            assert forall|t: int| 0 <= t < runs.len() implies (#[trigger] runs[t]).len()
                == axis_dims@[a as int]@.len() by {
                assert(views[t][a as int] == sources@[t]@[a as int]@);
            }
            lemma_max_leading_run_bound(runs, axis_dims@[a as int]@.len());
        }
        depths.push(depth);
        a = a + 1;
    }
    assert(depths@ =~= refinement_depths(views, n_axes as nat));
    let layout = match regular_layout(&depths, axis_dims) {
        Ok(layout) => layout,
        Err(e) => {
            return Err(e);
        },
    };
    let ghost indices = layout.indices@;
    let bits = layout.indices.len();
    proof {
        lemma_usize_max_pow2();
        if bits > usize::BITS {
            vstd::arithmetic::power2::lemma_pow2_strictly_increases(usize::BITS as nat, bits as nat);
        }
        lemma_selected_indices_in_range(depths@);
        assert forall|k: int| 0 <= k < bits implies (#[trigger] indices[k]).0 < axis_dims@.len()
            && indices[k].1 < axis_dims@[indices[k].0 as int]@.len() by {
            assert(indices[k] == selected_indices(depths@)[k]);
            assert(depths@[indices[k].0 as int] <= axis_dims@[indices[k].0 as int]@.len());
        }
    }
    let mut refinement = RegularRefinement::new(sources.len());
    let mut patches: Vec<RegularPatch> = Vec::new();
    let mut assignment: usize = 0;
    while assignment < layout.count
        invariant
            layout.indices@ == indices,
            indices == selected_indices(refinement_depths(views, axis_dims@.len())),
            bits == indices.len(),
            bits <= usize::BITS,
            layout.count as nat == pow2(bits as nat),
            views == source_views(sources@),
            forall|s: int|
                0 <= s < sources@.len() ==> (#[trigger] sources@[s])@.len() == axis_dims@.len(),
            forall|s: int, b: int|
                0 <= s < sources@.len() && 0 <= b < axis_dims@.len() ==> (#[trigger] sources@[s]@[b])@.len()
                    == axis_dims@[b]@.len(),
            forall|k: int|
                0 <= k < bits ==> (#[trigger] indices[k]).0 < axis_dims@.len() && indices[k].1
                    < axis_dims@[indices[k].0 as int]@.len(),
            assignment <= layout.count,
            refinement@.len() == views.len(),
            forall|e: int|
                0 <= e < patches@.len() ==> {
                    &&& (#[trigger] patches@[e]).assignment < assignment
                    &&& patches@[e].values@ == assignment_seq(patches@[e].assignment, bits as nat)
                    &&& patches@[e].source < views.len()
                    &&& source_compatible(views[patches@[e].source as int], indices, patches@[e].values@)
                    &&& forall|t: int|
                        0 <= t < views.len() && t != patches@[e].source ==> !source_compatible(
                            #[trigger] views[t],
                            indices,
                            patches@[e].values@,
                        )
                },
            forall|e1: int, e2: int|
                0 <= e1 < e2 < patches@.len() ==> (#[trigger] patches@[e1]).assignment
                    < (#[trigger] patches@[e2]).assignment,
            forall|x: usize, s: int|
                x < assignment && 0 <= s < views.len() && source_compatible(
                    #[trigger] views[s],
                    indices,
                    #[trigger] assignment_seq(x, bits as nat),
                ) ==> refinement@[s] && exists|e: int|
                    0 <= e < patches@.len() && (#[trigger] patches@[e]).assignment == x,
            forall|s: int|
                0 <= s < views.len() && #[trigger] refinement@[s] ==> exists|e: int|
                    0 <= e < patches@.len() && (#[trigger] patches@[e]).source == s,
        decreases layout.count - assignment,
    {
        let values = assignment_values(assignment, bits);
        assert(values@ =~= assignment_seq(assignment, bits as nat));
        let mut compatible: Vec<bool> = Vec::with_capacity(sources.len());
        let mut s: usize = 0;
        while s < sources.len()
            invariant
                views == source_views(sources@),
                values@ == assignment_seq(assignment, bits as nat),
                bits == indices.len(),
                layout.indices@ == indices,
                forall|t: int|
                    0 <= t < sources@.len() ==> (#[trigger] sources@[t])@.len() == axis_dims@.len(),
                forall|t: int, b: int|
                    0 <= t < sources@.len() && 0 <= b < axis_dims@.len() ==> (#[trigger] sources@[t]@[b])@.len()
                        == axis_dims@[b]@.len(),
                forall|k: int|
                    0 <= k < bits ==> (#[trigger] indices[k]).0 < axis_dims@.len() && indices[k].1
                        < axis_dims@[indices[k].0 as int]@.len(),
                s <= sources@.len(),
                compatible@.len() == s,
                forall|t: int|
                    0 <= t < s ==> #[trigger] compatible@[t] == source_compatible(
                        views[t],
                        indices,
                        values@,
                    ),
            decreases sources@.len() - s,
        {
            proof {
                assert forall|k: int| 0 <= k < indices.len() implies (#[trigger] indices[k]).0
                    < sources@[s as int]@.len() && indices[k].1 < sources@[s as int]@[indices[k].0 as int]@.len() by {
                    assert(sources@[s as int]@[indices[k].0 as int]@.len() == axis_dims@[indices[k].0 as int]@.len());
                }
                assert(views[s as int] == sources@[s as int]@.map_values(|axis: Vec<Option<usize>>| axis@));
            }
            compatible.push(is_source_compatible(&sources[s], &layout.indices, &values));
            s = s + 1;
        }
        let ghost before = patches@;
        let ghost covered_before = refinement@;
        match refinement.assign(assignment, &compatible) {
            Ok(Some(source)) => {
                patches.push(RegularPatch { assignment, values, source });
                proof {
                    assert forall|t: int|
                        0 <= t < views.len() && #[trigger] refinement@[t] implies exists|e: int|
                        0 <= e < patches@.len() && (#[trigger] patches@[e]).source == t by {
                        if t == source {
                            assert(patches@[before.len() as int].source == t);
                        } else {
                            assert(covered_before[t]);
                            let e = choose|e: int| 0 <= e < before.len() && (#[trigger] before[e]).source == t;
                            assert(patches@[e] == before[e]);
                        }
                    }
                    assert forall|x: usize, t: int|
                        x < assignment + 1 && 0 <= t < views.len() && source_compatible(
                            #[trigger] views[t],
                            indices,
                            #[trigger] assignment_seq(x, bits as nat),
                        ) implies refinement@[t] && exists|e: int|
                        0 <= e < patches@.len() && (#[trigger] patches@[e]).assignment == x by {
                        if x == assignment {
                            assert(compatible@[t]);
                            assert(t == source);
                            assert(patches@[before.len() as int].assignment == x);
                        } else {
                            let e = choose|e: int| 0 <= e < before.len() && (#[trigger] before[e]).assignment == x;
                            assert(patches@[e] == before[e]);
                        }
                    }
                    assert forall|e: int| 0 <= e < patches@.len() implies {
                        &&& (#[trigger] patches@[e]).assignment < assignment + 1
                        &&& patches@[e].values@ == assignment_seq(patches@[e].assignment, bits as nat)
                        &&& patches@[e].source < views.len()
                        &&& source_compatible(views[patches@[e].source as int], indices, patches@[e].values@)
                        &&& forall|t: int|
                            0 <= t < views.len() && t != patches@[e].source ==> !source_compatible(
                                #[trigger] views[t],
                                indices,
                                patches@[e].values@,
                            )
                    } by {
                        if e < before.len() {
                            assert(patches@[e] == before[e]);
                        } else {
                            assert forall|t: int|
                                0 <= t < views.len() && t != source implies !source_compatible(
                                    #[trigger] views[t],
                                    indices,
                                    patches@[e].values@,
                                ) by {
                                assert(!compatible@[t]);
                            }
                            assert(compatible@[source as int]);
                        }
                    }
                }
            },
            Ok(None) => {
                proof {
                    assert forall|x: usize, t: int|
                        x < assignment + 1 && 0 <= t < views.len() && source_compatible(
                            #[trigger] views[t],
                            indices,
                            #[trigger] assignment_seq(x, bits as nat),
                        ) implies refinement@[t] && exists|e: int|
                        0 <= e < patches@.len() && (#[trigger] patches@[e]).assignment == x by {
                        if x == assignment {
                            assert(!compatible@[t]);
                        }
                    }
                }
            },
            Err(e) => {
                proof {
                    assert(views.len() == sources@.len());
                    let (s1, t1) = choose|s1: int, t1: int|
                        0 <= s1 < t1 < compatible@.len() && compatible@[s1] && compatible@[t1];
                    assert(source_compatible(views[s1], indices, assignment_seq(assignment, bits as nat)));
                    assert(source_compatible(views[t1], indices, assignment_seq(assignment, bits as nat)));
                    assert(e == RefineError::MultipleSources { assignment });
                    assert(exists|s: int, t: int|
                        0 <= s < t < views.len() && source_compatible(
                            #[trigger] views[s],
                            indices,
                            assignment_seq(assignment, bits as nat),
                        ) && source_compatible(#[trigger] views[t], indices, assignment_seq(assignment, bits as nat)));
                }
                return Err(e);
            },
        }
        assignment = assignment + 1;
    }
    match refinement.finish() {
        Ok(()) => {
            proof {
                assert(views.len() == sources@.len());
                assert forall|s: int| 0 <= s < views.len() implies #[trigger] source_cut(patches@, s) by {
                    assert(refinement@[s]);
                }
            }
            Ok((layout, patches))
        },
        Err(e) => {
            proof {
                assert(views.len() == sources@.len());
                if let RefineError::Uncovered { source } = e {
                    assert forall|x: usize| (x as nat) < pow2(bits as nat) implies !source_compatible(
                        views[source as int],
                        indices,
                        #[trigger] assignment_seq(x, bits as nat),
                    ) by {
                        if source_compatible(views[source as int], indices, assignment_seq(x, bits as nat)) {
                            assert(refinement@[source as int]);
                        }
                    }
                }
            }
            Err(e)
        },
    }
}

/// The entries of `s` that also occur in `t`, in order.
pub open spec fn entries_in(s: Seq<usize>, t: Seq<usize>) -> Seq<usize>
    decreases s.len(),
{
    if s.len() == 0 {
        Seq::empty()
    } else {
        let rest = entries_in(s.drop_last(), t);
        if t.contains(s.last()) {
            rest.push(s.last())
        } else {
            rest
        }
    }
}

/// The entries of `s` other than `y`, in order.
pub open spec fn entries_other_than(s: Seq<usize>, y: usize) -> Seq<usize>
    decreases s.len(),
{
    if s.len() == 0 {
        Seq::empty()
    } else {
        let rest = entries_other_than(s.drop_last(), y);
        if s.last() != y {
            rest.push(s.last())
        } else {
            rest
        }
    }
}

/// Why the site indices of one site of an MPO pair do not split into the
/// left operator's own index, one shared index and the right operator's own
/// index.
#[derive(Clone, Copy, Debug, PartialEq, Eq, Structural)]
pub enum SiteRoleError {
    /// The site does not have exactly one index that both trains carry.
    SharedCount { site: usize },
    /// Besides the shared index, a train carries other than exactly one index.
    NotMpoLike { site: usize },
}

/// The roles `(x, y, z)` of the site indices of one site whose left train
/// carries the indices `left` and right train the indices `right` (given by
/// identity): `y` is the one shared index, `x` and `z` the one index of its
/// own in each train. `None` when the indices do not split so.
pub open spec fn site_roles(left: Seq<usize>, right: Seq<usize>) -> Option<(usize, usize, usize)> {
    let shared = entries_in(left, right);
    if shared.len() != 1 {
        None
    } else {
        let y = shared[0];
        let own_left = entries_other_than(left, y);
        let own_right = entries_other_than(right, y);
        if own_left.len() == 1 && own_right.len() == 1 {
            Some((own_left[0], y, own_right[0]))
        } else {
            None
        }
    }
}

fn contains_id(t: &Vec<usize>, x: usize) -> (found: bool)
    ensures
        found == t@.contains(x),
{
    let mut k: usize = 0;
    while k < t.len()
        invariant
            k <= t@.len(),
            forall|j: int| 0 <= j < k ==> t@[j] != x,
        decreases t@.len() - k,
    {
        if t[k] == x {
            assert(t@[k as int] == x);
            return true;
        }
        k = k + 1;
    }
    false
}

fn collect_entries_in(s: &Vec<usize>, t: &Vec<usize>) -> (entries: Vec<usize>)
    ensures
        entries@ == entries_in(s@, t@),
{
    let mut entries: Vec<usize> = Vec::new();
    let mut k: usize = 0;
    while k < s.len()
        invariant
            k <= s@.len(),
            entries@ == entries_in(s@.take(k as int), t@),
        decreases s@.len() - k,
    {
        assert(s@.take(k + 1).drop_last() =~= s@.take(k as int));
        if contains_id(t, s[k]) {
            entries.push(s[k]);
        }
        k = k + 1;
    }
    assert(s@.take(s@.len() as int) =~= s@);
    entries
}

fn collect_entries_other_than(s: &Vec<usize>, y: usize) -> (entries: Vec<usize>)
    ensures
        entries@ == entries_other_than(s@, y),
{
    let mut entries: Vec<usize> = Vec::new();
    let mut k: usize = 0;
    while k < s.len()
        invariant
            k <= s@.len(),
            entries@ == entries_other_than(s@.take(k as int), y),
        decreases s@.len() - k,
    {
        assert(s@.take(k + 1).drop_last() =~= s@.take(k as int));
        if s[k] != y {
            entries.push(s[k]);
        }
        k = k + 1;
    }
    assert(s@.take(s@.len() as int) =~= s@);
    entries
}

/// Split the site indices of every site of an MPO pair, given by identity
/// (`left[site]` carried by the left train, `right[site]` by the right one),
/// into the left train's own index, the shared index and the right train's
/// own index. The first site that does not split so decides the error: a
/// shared-index count other than one before an own-index count other than one.
pub fn split_site_roles(left: &Vec<Vec<usize>>, right: &Vec<Vec<usize>>) -> (roles: Result<
    Vec<(usize, usize, usize)>,
    SiteRoleError,
>)
    requires
        left@.len() == right@.len(),
    ensures
        roles is Ok <==> forall|site: int|
            0 <= site < left@.len() ==> #[trigger] site_roles(left@[site]@, right@[site]@) is Some,
        roles matches Ok(v) ==> v@.len() == left@.len() && forall|site: int|
            0 <= site < left@.len() ==> site_roles(left@[site]@, right@[site]@) == Some(
                #[trigger] v@[site],
            ),
        roles matches Err(e) ==> match e {
            SiteRoleError::SharedCount { site } => site < left@.len() && entries_in(
                left@[site as int]@,
                right@[site as int]@,
            ).len() != 1 && forall|s: int|
                0 <= s < site ==> #[trigger] site_roles(left@[s]@, right@[s]@) is Some,
            SiteRoleError::NotMpoLike { site } => site < left@.len() && entries_in(
                left@[site as int]@,
                right@[site as int]@,
            ).len() == 1 && site_roles(left@[site as int]@, right@[site as int]@) is None
                && forall|s: int| 0 <= s < site ==> #[trigger] site_roles(left@[s]@, right@[s]@) is Some,
        },
{
    let mut roles: Vec<(usize, usize, usize)> = Vec::with_capacity(left.len());
    let mut site: usize = 0;
    while site < left.len()
        invariant
            left@.len() == right@.len(),
            site <= left@.len(),
            roles@.len() == site,
            forall|s: int|
                0 <= s < site ==> site_roles(left@[s]@, right@[s]@) == Some(#[trigger] roles@[s]),
        decreases left@.len() - site,
    {
        let shared = collect_entries_in(&left[site], &right[site]);
        if shared.len() != 1 {
            assert forall|s: int| 0 <= s < site implies #[trigger] site_roles(left@[s]@, right@[s]@) is Some by {
                assert(site_roles(left@[s]@, right@[s]@) == Some(roles@[s]));
            }
            assert(site_roles(left@[site as int]@, right@[site as int]@) is None);
            return Err(SiteRoleError::SharedCount { site });
        }
        let y = shared[0];
        let own_left = collect_entries_other_than(&left[site], y);
        let own_right = collect_entries_other_than(&right[site], y);
        if own_left.len() != 1 || own_right.len() != 1 {
            assert forall|s: int| 0 <= s < site implies #[trigger] site_roles(left@[s]@, right@[s]@) is Some by {
                assert(site_roles(left@[s]@, right@[s]@) == Some(roles@[s]));
            }
            return Err(SiteRoleError::NotMpoLike { site });
        }
        roles.push((own_left[0], y, own_right[0]));
        site = site + 1;
    }
    assert forall|s: int| 0 <= s < left@.len() implies #[trigger] site_roles(left@[s]@, right@[s]@) is Some by {
        assert(site_roles(left@[s]@, right@[s]@) == Some(roles@[s]));
    }
    Ok(roles)
}

} // verus!
