//! Grid indices of the quantics benchmarks: bit decompositions, the fused
//! and interleaved local indices built from them, and seeded grid sampling.

use vstd::prelude::*;
use vstd::arithmetic::power2::{pow2, lemma_pow2_pos, lemma_pow2_unfold};
use vstd::arithmetic::div_mod::{lemma_div_denominator, lemma_mod_breakdown};
use vstd::bits::{lemma_u64_shr_is_div, lemma_u64_shl_is_mul, lemma_u64_pow2_no_overflow};

verus! {

/// The bit of `i` at position `pos`, counting from the least significant bit.
pub open spec fn bit_at(i: u64, pos: nat) -> nat {
    ((i as nat) / pow2(pos)) % 2
}

/// The `r` bits of `i` below position `r`, most significant first.
pub open spec fn index_bits(i: u64, r: nat) -> Seq<usize> {
    Seq::new(r, |n: int| bit_at(i, (r - 1 - n) as nat) as usize)
}

/// The number whose binary digits, most significant first, are `digits`.
pub open spec fn msb_value(digits: Seq<usize>) -> nat
    decreases digits.len(),
{
    if digits.len() == 0 {
        0
    } else {
        2 * msb_value(digits.drop_last()) + digits.last() as nat
    }
}

/// Fused two-variable local index of one site: `x_bit + 2 * y_bit`.
pub open spec fn fused_digit(ix: u64, iy: u64, r: nat, n: int) -> usize {
    (bit_at(ix, (r - 1 - n) as nat) + 2 * bit_at(iy, (r - 1 - n) as nat)) as usize
}

/// Fused three-variable local index of one site: `b0 + 2 * b1 + 4 * b2`.
pub open spec fn fused_digit_3d(ix: u64, iy: u64, iz: u64, r: nat, n: int) -> usize {
    (bit_at(ix, (r - 1 - n) as nat) + 2 * bit_at(iy, (r - 1 - n) as nat) + 4 * bit_at(
        iz,
        (r - 1 - n) as nat,
    )) as usize
}

proof fn lemma_shift_bit(i: u64, pos: u64)
    requires
        pos < 64,
    ensures
        ((i >> pos) & 1) as nat == bit_at(i, pos as nat),
{
    lemma_u64_shr_is_div(i, pos);
    let s = i >> pos;
    assert(s & 1 == s % 2) by (bit_vector);
}

/// The value of the leading `n` bits of `index_bits(i, r)`.
proof fn lemma_prefix_value(i: u64, r: nat, n: nat)
    requires
        n <= r,
    ensures
        msb_value(index_bits(i, r).take(n as int)) == ((i as nat) / pow2((r - n) as nat)) % pow2(n),
    decreases n,
{
    let bits = index_bits(i, r);
    lemma_pow2_pos((r - n) as nat);
    lemma_pow2_pos(n);
    if n == 0 {
        assert(bits.take(0) =~= Seq::<usize>::empty());
        assert(pow2(0) == 1) by {
            vstd::arithmetic::power2::lemma2_to64();
        }
    } else {
        let m = (n - 1) as nat;
        lemma_prefix_value(i, r, m);
        assert(bits.take(n as int).drop_last() =~= bits.take(m as int));
        let k = (r - n) as nat;
        let q = (i as nat) / pow2(k);
        lemma_pow2_pos(k);
        lemma_pow2_pos(m);
        lemma_pow2_unfold(k + 1);
        assert((k + 1) as nat == (r - m) as nat);
        lemma_div_denominator(i as int, pow2(k) as int, 2);
        assert((i as nat) / pow2((r - m) as nat) == q / 2);
        lemma_mod_breakdown(q as int, 2, pow2(m) as int);
        lemma_pow2_unfold(n);
        assert(bits.take(n as int).last() == bits[(n - 1) as int]);
        assert(bits[(n - 1) as int] as nat == q % 2);
    }
}

/// Law: the bits of `index_to_bits` are the binary digits of the index on a
/// grid of `2^r` points, so reading them back gives the index modulo `2^r`.
pub proof fn lemma_index_bits_value(i: u64, r: nat)
    ensures
        msb_value(index_bits(i, r)) == (i as nat) % pow2(r),
{
    lemma_prefix_value(i, r, r);
    assert(index_bits(i, r).take(r as int) =~= index_bits(i, r));
    assert(pow2(0) == 1) by {
        vstd::arithmetic::power2::lemma2_to64();
    }
    assert((r - r) as nat == 0);
    assert((i as nat) / 1 == i as nat);
    assert((i as nat) / pow2(0) == i as nat);
}

/// Law: two grid indices with the same bits agree modulo `2^r`.
pub proof fn lemma_index_bits_injective(i: u64, j: u64, r: nat)
    requires
        index_bits(i, r) == index_bits(j, r),
    ensures
        (i as nat) % pow2(r) == (j as nat) % pow2(r),
{
    lemma_index_bits_value(i, r);
    lemma_index_bits_value(j, r);
}

/// Whether `a` and `b` agree before position `n` and `a` has a 0 where `b`
/// has a 1 at position `n`: `a` is lexicographically smaller there.
pub open spec fn first_difference_orders(a: Seq<usize>, b: Seq<usize>, n: int) -> bool {
    &&& 0 <= n < a.len()
    &&& a[n] == 0
    &&& b[n] == 1
    &&& forall|k: int| 0 <= k < n ==> a[k] == b[k]
}

/// The first position at or after `k` where `a` and `b` differ.
proof fn lemma_first_difference(a: Seq<usize>, b: Seq<usize>, k: int) -> (n: int)
    requires
        a.len() == b.len(),
        0 <= k <= a.len(),
        forall|j: int| 0 <= j < k ==> a[j] == b[j],
        exists|j: int| k <= j < a.len() && a[j] != b[j],
    ensures
        k <= n < a.len(),
        a[n] != b[n],
        forall|j: int| 0 <= j < n ==> a[j] == b[j],
    decreases a.len() - k,
{
    if a[k] != b[k] {
        k
    } else {
        lemma_first_difference(a, b, k + 1)
    }
}

/// `i / 2^(r - n)` for an index below `2^r` is below `2^n`, so it is the
/// value of the leading `n` bits.
proof fn lemma_prefix_is_quotient(i: u64, r: nat, n: nat)
    requires
        n <= r,
        (i as nat) < pow2(r),
    ensures
        msb_value(index_bits(i, r).take(n as int)) == (i as nat) / pow2((r - n) as nat),
{
    lemma_prefix_value(i, r, n);
    let d = pow2((r - n) as nat);
    lemma_pow2_pos((r - n) as nat);
    lemma_pow2_pos(n);
    vstd::arithmetic::power2::lemma_pow2_adds((r - n) as nat, n);
    assert(((r - n) as nat + n) as nat == r);
    vstd::arithmetic::div_mod::lemma_multiply_divide_lt(i as int, d as int, pow2(n) as int);
    vstd::arithmetic::div_mod::lemma_small_mod((i as nat) / d, pow2(n));
}

/// Law: the most-significant-bit-first decomposition orders grid indices
/// lexicographically. For `i < j` on a grid of `2^r` points, the bits agree up
/// to the first position where they differ, and there `i` has 0 and `j` has 1.
pub proof fn lemma_index_bits_lexicographic(i: u64, j: u64, r: nat)
    requires
        i < j,
        (j as nat) < pow2(r),
    ensures
        exists|n: int| #[trigger] first_difference_orders(index_bits(i, r), index_bits(j, r), n),
{
    let a = index_bits(i, r);
    let b = index_bits(j, r);
    lemma_pow2_pos(r);
    if a == b {
        lemma_index_bits_injective(i, j, r);
        vstd::arithmetic::div_mod::lemma_small_mod(i as nat, pow2(r));
        vstd::arithmetic::div_mod::lemma_small_mod(j as nat, pow2(r));
    }
    assert(a != b);
    assert(exists|k: int| 0 <= k < a.len() && a[k] != b[k]) by {
        if forall|k: int| 0 <= k < a.len() ==> a[k] == b[k] {
            assert(a =~= b);
        }
    }
    let n = lemma_first_difference(a, b, 0);
    let m = (n + 1) as nat;
    lemma_prefix_is_quotient(i, r, n as nat);
    lemma_prefix_is_quotient(j, r, n as nat);
    lemma_prefix_is_quotient(i, r, m);
    lemma_prefix_is_quotient(j, r, m);
    assert(a.take(n) =~= b.take(n));
    assert(a.take(m as int).drop_last() =~= a.take(n));
    assert(b.take(m as int).drop_last() =~= b.take(n));
    assert(msb_value(a.take(m as int)) == 2 * msb_value(a.take(n)) + a[n] as nat);
    assert(msb_value(b.take(m as int)) == 2 * msb_value(b.take(n)) + b[n] as nat);
    lemma_pow2_pos((r - m) as nat);
    vstd::arithmetic::div_mod::lemma_div_is_ordered(i as int, j as int, pow2((r - m) as nat) as int);
    assert(a[n] < 2 && b[n] < 2);
    assert(first_difference_orders(a, b, n));
}

/// MSB-first bit decomposition of a grid index into R local indices.
pub fn index_to_bits(i: u64, r: usize) -> (bits: Vec<usize>)
    requires
        r <= 64,
    ensures
        bits@ == index_bits(i, r as nat),
{
    let mut bits: Vec<usize> = Vec::with_capacity(r);
    let mut n: usize = 0;
    while n < r
        invariant
            r <= 64,
            n <= r,
            bits@.len() == n,
            forall|k: int| 0 <= k < n ==> #[trigger] bits@[k] == index_bits(i, r as nat)[k],
        decreases r - n,
    {
        let shift: u64 = (r - 1 - n) as u64;
        proof {
            lemma_shift_bit(i, shift);
        }
        bits.push(((i >> shift) & 1) as usize);
        n = n + 1;
    }
    assert(bits@ =~= index_bits(i, r as nat));
    bits
}

/// The first `n` values that `rand::Rng::random_range(0..bound)` draws, one
/// after the other, from a `rand_chacha::ChaCha8Rng` seeded by
/// `rand::SeedableRng::seed_from_u64(seed)`.
pub uninterp spec fn seeded_uniform_draws(seed: u64, bound: u64, n: nat) -> Seq<u64>;

/// Seeds a ChaCha8 generator with `rand::SeedableRng::seed_from_u64(seed)` and
/// draws `n` values from it with `rand::Rng::random_range(0..bound)`, which
/// panics on an empty range.
///
/// The contract claims that the values are the named draws of `seed`, `bound`
/// and `n` (the seeded stream is value-stable, so they depend on nothing
/// else), that fewer draws are a prefix of more draws from the same seed, and
/// that every value lies in `0..bound`. Which values the stream holds is left
/// unsaid.
#[verifier::external_body]
fn seeded_draws(seed: u64, bound: u64, n: usize) -> (values: Vec<u64>)
    requires
        bound > 0,
    ensures
        values@ == seeded_uniform_draws(seed, bound, n as nat),
        values@.len() == n,
        forall|m: nat| m <= n ==> #[trigger] seeded_uniform_draws(seed, bound, m) == values@.take(m as int),
        forall|k: int| 0 <= k < n ==> #[trigger] values@[k] < bound,
{
    let mut rng = <rand_chacha::ChaCha8Rng as rand::SeedableRng>::seed_from_u64(seed);
    let mut values = Vec::with_capacity(n);
    for _ in 0..n {
        values.push(rand::Rng::random_range(&mut rng, 0..bound));
    }
    values
}

/// `n` grid indices in [0, 2^r): the first `n` draws of the ChaCha8 stream
/// seeded with `seed`, so the same seed always gives the same indices and a
/// shorter sampling is a prefix of a longer one.
pub fn sample_grid_indices(r: usize, n: usize, seed: u64) -> (indices: Vec<u64>)
    requires
        r < 64,
    ensures
        indices@ == seeded_uniform_draws(seed, pow2(r as nat) as u64, n as nat),
        indices@.len() == n,
        forall|m: nat|
            m <= n ==> #[trigger] seeded_uniform_draws(seed, pow2(r as nat) as u64, m)
                == indices@.take(m as int),
        forall|k: int| 0 <= k < n ==> (#[trigger] indices@[k] as nat) < pow2(r as nat),
{
    proof {
        lemma_u64_pow2_no_overflow(r as nat);
        lemma_u64_shl_is_mul(1, r as u64);
    }
    let bound: u64 = 1u64 << (r as u64);
    seeded_draws(seed, bound, n)
}

/// Fused quantics point of the grid point `(ix, iy)`: one local index
/// `x_bit + 2 * y_bit` per bit, most significant bit first.
pub fn fused_point(ix: u64, iy: u64, r: usize) -> (point: Vec<usize>)
    requires
        r <= 64,
    ensures
        point@.len() == r,
        forall|n: int| 0 <= n < r ==> #[trigger] point@[n] == fused_digit(ix, iy, r as nat, n),
{
    let xb = index_to_bits(ix, r);
    let yb = index_to_bits(iy, r);
    let mut point: Vec<usize> = Vec::with_capacity(r);
    let mut n: usize = 0;
    while n < r
        invariant
            n <= r,
            xb@ == index_bits(ix, r as nat),
            yb@ == index_bits(iy, r as nat),
            point@.len() == n,
            forall|k: int| 0 <= k < n ==> #[trigger] point@[k] == fused_digit(ix, iy, r as nat, k),
        decreases r - n,
    {
        point.push(xb[n] + 2 * yb[n]);
        n = n + 1;
    }
    point
}

/// Fused quantics point of a three-variable grid point: one local index
/// `b0 + 2 * b1 + 4 * b2` per bit, most significant bit first.
pub fn fused_point_3d(ix: u64, iy: u64, iz: u64, r: usize) -> (point: Vec<usize>)
    requires
        r <= 64,
    ensures
        point@.len() == r,
        forall|n: int| 0 <= n < r ==> #[trigger] point@[n] == fused_digit_3d(ix, iy, iz, r as nat, n),
{
    let xb = index_to_bits(ix, r);
    let yb = index_to_bits(iy, r);
    let zb = index_to_bits(iz, r);
    let mut point: Vec<usize> = Vec::with_capacity(r);
    let mut n: usize = 0;
    while n < r
        invariant
            n <= r,
            xb@ == index_bits(ix, r as nat),
            yb@ == index_bits(iy, r as nat),
            zb@ == index_bits(iz, r as nat),
            point@.len() == n,
            forall|k: int|
                0 <= k < n ==> #[trigger] point@[k] == fused_digit_3d(ix, iy, iz, r as nat, k),
        decreases r - n,
    {
        point.push(xb[n] + 2 * yb[n] + 4 * zb[n]);
        n = n + 1;
    }
    point
}

/// Interleaved MPO point of `(ix, iz)`: the bits `x_0, z_0, x_1, z_1, ...`,
/// most significant first, one per MPO leg.
pub fn interleaved_point(ix: u64, iz: u64, r: usize) -> (point: Vec<usize>)
    requires
        r <= 64,
    ensures
        point@.len() == 2 * r,
        forall|n: int|
            0 <= n < r ==> #[trigger] point@[2 * n] == index_bits(ix, r as nat)[n] && point@[2 * n
                + 1] == index_bits(iz, r as nat)[n],
{
    let xb = index_to_bits(ix, r);
    let zb = index_to_bits(iz, r);
    let mut point: Vec<usize> = Vec::with_capacity(2 * r);
    let mut n: usize = 0;
    while n < r
        invariant
            n <= r,
            xb@ == index_bits(ix, r as nat),
            zb@ == index_bits(iz, r as nat),
            point@.len() == 2 * n,
            forall|k: int|
                0 <= k < n ==> #[trigger] point@[2 * k] == xb@[k] && point@[2 * k + 1] == zb@[k],
        decreases r - n,
    {
        let ghost before = point@;
        point.push(xb[n]);
        point.push(zb[n]);
        assert(point@ =~= before.push(xb@[n as int]).push(zb@[n as int]));
        assert forall|k: int| 0 <= k < n + 1 implies #[trigger] point@[2 * k] == xb@[k] && point@[2
            * k + 1] == zb@[k] by {
            if k < n {
                assert(point@[2 * k] == before[2 * k]);
                assert(point@[2 * k + 1] == before[2 * k + 1]);
            }
        }
        n = n + 1;
    }
    point
}

/// Splits a joint index of `2r` bits into its high and low `r`-bit halves,
/// the first and second grid coordinates of a sampled 2D point.
pub fn split_joint_index(index: u64, r: usize) -> (halves: (u64, u64))
    requires
        r < 64,
    ensures
        halves.0 as nat == (index as nat) / pow2(r as nat),
        halves.1 as nat == (index as nat) % pow2(r as nat),
{
    proof {
        lemma_u64_pow2_no_overflow(r as nat);
        lemma_u64_shl_is_mul(1, r as u64);
        lemma_u64_shr_is_div(index, r as u64);
        vstd::bits::lemma_u64_low_bits_mask_is_mod(index, r as nat);
        vstd::bits::lemma_low_bits_mask_values();
    }
    let one_shifted: u64 = 1u64 << (r as u64);
    let mask: u64 = one_shifted - 1;
    assert(mask == vstd::bits::low_bits_mask(r as nat) as u64);
    (index >> (r as u64), index & mask)
}

/// Law: the fused digits of two grid points coincide at every site exactly
/// when both coordinates agree modulo `2^r`, so the fused encoding loses no
/// information on the grid.
pub proof fn lemma_fused_point_injective(ix: u64, iy: u64, jx: u64, jy: u64, r: nat)
    requires
        forall|n: int| 0 <= n < r ==> fused_digit(ix, iy, r, n) == fused_digit(jx, jy, r, n),
    ensures
        (ix as nat) % pow2(r) == (jx as nat) % pow2(r),
        (iy as nat) % pow2(r) == (jy as nat) % pow2(r),
{
    assert forall|n: int| 0 <= n < r implies index_bits(ix, r)[n] == index_bits(jx, r)[n]
        && index_bits(iy, r)[n] == index_bits(jy, r)[n] by {
        assert(fused_digit(ix, iy, r, n) == fused_digit(jx, jy, r, n));
    }
    assert(index_bits(ix, r) =~= index_bits(jx, r));
    assert(index_bits(iy, r) =~= index_bits(jy, r));
    lemma_index_bits_injective(ix, jx, r);
    lemma_index_bits_injective(iy, jy, r);
}

/// Law: the fused two-variable digit at site `n` carries bit `n` (most
/// significant first) of each coordinate: `x` in its lowest bit and `y` in
/// the next.
pub proof fn lemma_fused_digit_decodes(ix: u64, iy: u64, r: nat, n: int)
    requires
        0 <= n < r,
    ensures
        fused_digit(ix, iy, r, n) % 2 == index_bits(ix, r)[n],
        fused_digit(ix, iy, r, n) / 2 == index_bits(iy, r)[n],
{
    let bx = index_bits(ix, r)[n];
    let by = index_bits(iy, r)[n];
    assert(bx < 2 && by < 2);
    assert(fused_digit(ix, iy, r, n) == bx + 2 * by);
}

/// Law: the fused three-variable digit at site `n` carries bit `n` (most
/// significant first) of each coordinate: `x` in its lowest bit, `y` in the
/// next and `z` in the highest.
pub proof fn lemma_fused_digit_3d_decodes(ix: u64, iy: u64, iz: u64, r: nat, n: int)
    requires
        0 <= n < r,
    ensures
        fused_digit_3d(ix, iy, iz, r, n) % 2 == index_bits(ix, r)[n],
        (fused_digit_3d(ix, iy, iz, r, n) / 2) % 2 == index_bits(iy, r)[n],
        fused_digit_3d(ix, iy, iz, r, n) / 4 == index_bits(iz, r)[n],
{
    let bx = index_bits(ix, r)[n];
    let by = index_bits(iy, r)[n];
    let bz = index_bits(iz, r)[n];
    assert(bx < 2 && by < 2 && bz < 2);
    assert(fused_digit_3d(ix, iy, iz, r, n) == bx + 2 * by + 4 * bz);
}

/// Law: the fused digits of two three-variable grid points coincide at every
/// site exactly when all three coordinates agree modulo `2^r`, so the fused
/// 3D encoding loses no information on the grid.
pub proof fn lemma_fused_point_3d_injective(
    ix: u64,
    iy: u64,
    iz: u64,
    jx: u64,
    jy: u64,
    jz: u64,
    r: nat,
)
    requires
        forall|n: int|
            0 <= n < r ==> fused_digit_3d(ix, iy, iz, r, n) == fused_digit_3d(jx, jy, jz, r, n),
    ensures
        (ix as nat) % pow2(r) == (jx as nat) % pow2(r),
        (iy as nat) % pow2(r) == (jy as nat) % pow2(r),
        (iz as nat) % pow2(r) == (jz as nat) % pow2(r),
{
    assert forall|n: int| 0 <= n < r implies index_bits(ix, r)[n] == index_bits(jx, r)[n]
        && index_bits(iy, r)[n] == index_bits(jy, r)[n] && index_bits(iz, r)[n] == index_bits(
        jz,
        r,
    )[n] by {
        lemma_fused_digit_3d_decodes(ix, iy, iz, r, n);
        lemma_fused_digit_3d_decodes(jx, jy, jz, r, n);
        assert(fused_digit_3d(ix, iy, iz, r, n) == fused_digit_3d(jx, jy, jz, r, n));
    }
    assert(index_bits(ix, r) =~= index_bits(jx, r));
    assert(index_bits(iy, r) =~= index_bits(jy, r));
    assert(index_bits(iz, r) =~= index_bits(jz, r));
    lemma_index_bits_injective(ix, jx, r);
    lemma_index_bits_injective(iy, jy, r);
    lemma_index_bits_injective(iz, jz, r);
}

} // verus!
