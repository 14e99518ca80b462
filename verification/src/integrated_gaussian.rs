//! Byte format of the cache that holds an integrated Gaussian mixture.
//!
//! The cache is a sequence of little-endian 64-bit words: the magic word
//! `T4AIG02\0`, the component count, the total, candidate and retained pair
//! counts, the bit patterns of the omission bound and of the y-cell width, and
//! then six bit patterns per component (weight, the quadratic form `a, b, c`,
//! and the center `x, z`). Floating-point values travel as their IEEE-754 bit
//! patterns; whether they are finite and positive is decided by the caller.

use vstd::prelude::*;
use vstd::bytes::{
    spec_u64_to_le_bytes, spec_u64_from_le_bytes, lemma_auto_spec_u64_to_from_le_bytes,
    u64_from_le_bytes, u64_to_le_bytes,
};
use vstd::slice::slice_subrange;

verus! {

/// The magic word, the bytes `T4AIG02\0` read as a little-endian `u64`.
pub const CACHE_MAGIC_WORD: u64 = 0x0032_3047_4941_3454;

/// Size of the fixed header in bytes: the magic and six header words.
pub const CACHE_HEADER_BYTES: u64 = 56;

/// Size of one component record in bytes: six words.
pub const CACHE_COMPONENT_BYTES: u64 = 48;

/// Pair-enumeration statistics stored in the cache header.
#[derive(Clone, Copy, Debug, PartialEq, Eq, Structural)]
pub struct CacheStats {
    /// Cartesian pair count avoided by the neighbor list.
    pub total_pair_count: u64,
    /// Pairs examined after the one-dimensional y cell lookup.
    pub candidate_pair_count: u64,
    /// Output Gaussian components retained by the peak bound.
    pub retained_pair_count: u64,
    /// Bit pattern of the proven pointwise bound on all omitted pair peaks.
    pub omitted_bound_bits: u64,
    /// Bit pattern of the width of the y cells used for candidate enumeration.
    pub cell_width_bits: u64,
}

/// Bit patterns of one integrated Gaussian component.
#[derive(Clone, Copy, Debug, PartialEq, Eq, Structural)]
pub struct ComponentBits {
    pub weight: u64,
    pub a: u64,
    pub b: u64,
    pub c: u64,
    pub x: u64,
    pub z: u64,
}

/// Why a byte buffer is not a cache of an integrated mixture.
#[derive(Clone, Copy, Debug, PartialEq, Eq, Structural)]
pub enum CacheError {
    /// The buffer ends inside the fixed header.
    Truncated,
    /// The first word is not the magic word: another schema.
    SchemaMismatch,
    /// The component count differs from the retained pair count.
    CountMismatch { count: u64, retained: u64 },
    /// The byte length implied by the component count overflows.
    LengthOverflow,
    /// The buffer length is not the one the component count implies.
    LengthMismatch { expected: u64, found: u64 },
}

/// The little-endian bytes of a sequence of words.
pub open spec fn words_to_bytes(words: Seq<u64>) -> Seq<u8>
    decreases words.len(),
{
    if words.len() == 0 {
        Seq::empty()
    } else {
        words_to_bytes(words.drop_last()) + spec_u64_to_le_bytes(words.last())
    }
}

/// The six words of one component.
pub open spec fn component_words(c: ComponentBits) -> Seq<u64> {
    seq![c.weight, c.a, c.b, c.c, c.x, c.z]
}

/// The words of all components, in order.
pub open spec fn components_words(components: Seq<ComponentBits>) -> Seq<u64>
    decreases components.len(),
{
    if components.len() == 0 {
        Seq::empty()
    } else {
        components_words(components.drop_last()) + component_words(components.last())
    }
}

/// The seven header words of a cache of `count` components.
pub open spec fn header_words(count: u64, stats: CacheStats) -> Seq<u64> {
    seq![
        CACHE_MAGIC_WORD,
        count,
        stats.total_pair_count,
        stats.candidate_pair_count,
        stats.retained_pair_count,
        stats.omitted_bound_bits,
        stats.cell_width_bits,
    ]
}

/// The bytes of the cache of `components` with header `stats`.
pub open spec fn cache_bytes(stats: CacheStats, components: Seq<ComponentBits>) -> Seq<u8> {
    words_to_bytes(header_words(components.len() as u64, stats) + components_words(components))
}

/// Whether `bytes` is the cache of some mixture: the encoding of components
/// whose number is the retained pair count of the header.
pub open spec fn is_cache_of(bytes: Seq<u8>, stats: CacheStats, components: Seq<ComponentBits>) -> bool {
    &&& components.len() <= u64::MAX
    &&& stats.retained_pair_count == components.len()
    &&& bytes == cache_bytes(stats, components)
}

/// The magic word spells `T4AIG02\0` in the file.
pub proof fn lemma_magic_bytes()
    ensures
        spec_u64_to_le_bytes(CACHE_MAGIC_WORD) == seq![0x54u8, 0x34u8, 0x41u8, 0x49u8, 0x47u8, 0x30u8, 0x32u8, 0x00u8],
{
    vstd::bytes::spec_u64_to_le_bytes_to_open(CACHE_MAGIC_WORD);
    let x = CACHE_MAGIC_WORD;
    assert((x & 0xff) as u8 == 0x54u8) by (bit_vector) requires x == 0x0032_3047_4941_3454u64;
    assert(((x >> 8) & 0xff) as u8 == 0x34u8) by (bit_vector) requires x == 0x0032_3047_4941_3454u64;
    assert(((x >> 16) & 0xff) as u8 == 0x41u8) by (bit_vector) requires x == 0x0032_3047_4941_3454u64;
    assert(((x >> 24) & 0xff) as u8 == 0x49u8) by (bit_vector) requires x == 0x0032_3047_4941_3454u64;
    assert(((x >> 32) & 0xff) as u8 == 0x47u8) by (bit_vector) requires x == 0x0032_3047_4941_3454u64;
    assert(((x >> 40) & 0xff) as u8 == 0x30u8) by (bit_vector) requires x == 0x0032_3047_4941_3454u64;
    assert(((x >> 48) & 0xff) as u8 == 0x32u8) by (bit_vector) requires x == 0x0032_3047_4941_3454u64;
    assert(((x >> 56) & 0xff) as u8 == 0x00u8) by (bit_vector) requires x == 0x0032_3047_4941_3454u64;
    assert(spec_u64_to_le_bytes(CACHE_MAGIC_WORD) =~= seq![0x54u8, 0x34u8, 0x41u8, 0x49u8, 0x47u8, 0x30u8, 0x32u8, 0x00u8]);
}

proof fn lemma_words_to_bytes_chunks(words: Seq<u64>)
    ensures
        words_to_bytes(words).len() == 8 * words.len(),
        forall|i: int|
            0 <= i < words.len() ==> #[trigger] words_to_bytes(words).subrange(8 * i, 8 * i + 8)
                == spec_u64_to_le_bytes(words[i]),
    decreases words.len(),
{
    lemma_auto_spec_u64_to_from_le_bytes();
    if words.len() > 0 {
        let rest = words.drop_last();
        lemma_words_to_bytes_chunks(rest);
        let s = words_to_bytes(words);
        let r = words_to_bytes(rest);
        assert forall|i: int| 0 <= i < words.len() implies #[trigger] s.subrange(8 * i, 8 * i + 8)
            == spec_u64_to_le_bytes(words[i]) by {
            if i < rest.len() {
                assert(s.subrange(8 * i, 8 * i + 8) =~= r.subrange(8 * i, 8 * i + 8));
            } else {
                assert(s.subrange(8 * i, 8 * i + 8) =~= spec_u64_to_le_bytes(words.last()));
            }
        }
    }
}

/// A byte sequence whose 8-byte chunks decode to `words` is their encoding.
proof fn lemma_bytes_from_chunks(bytes: Seq<u8>, words: Seq<u64>)
    requires
        bytes.len() == 8 * words.len(),
        forall|i: int|
            0 <= i < words.len() ==> spec_u64_from_le_bytes(#[trigger] bytes.subrange(8 * i, 8 * i + 8))
                == words[i],
    ensures
        bytes == words_to_bytes(words),
{
    lemma_auto_spec_u64_to_from_le_bytes();
    lemma_words_to_bytes_chunks(words);
    let enc = words_to_bytes(words);
    assert forall|t: int| 0 <= t < bytes.len() implies bytes[t] == enc[t] by {
        let i = t / 8;
        let r = t % 8;
        assert(0 <= i < words.len());
        assert(t == 8 * i + r);
        let chunk = bytes.subrange(8 * i, 8 * i + 8);
        assert(spec_u64_to_le_bytes(spec_u64_from_le_bytes(chunk)) == chunk);
        assert(chunk == spec_u64_to_le_bytes(words[i]));
        assert(enc.subrange(8 * i, 8 * i + 8) == spec_u64_to_le_bytes(words[i]));
        assert(bytes[t] == chunk[r]);
        assert(enc[t] == enc.subrange(8 * i, 8 * i + 8)[r]);
    }
    assert(bytes =~= enc);
}

proof fn lemma_components_words(components: Seq<ComponentBits>)
    ensures
        components_words(components).len() == 6 * components.len(),
        forall|k: int|
            0 <= k < components.len() ==> components_words(components).subrange(6 * k, 6 * k + 6)
                == component_words(#[trigger] components[k]),
    decreases components.len(),
{
    if components.len() > 0 {
        let rest = components.drop_last();
        lemma_components_words(rest);
        let w = components_words(components);
        let wr = components_words(rest);
        assert forall|k: int| 0 <= k < components.len() implies w.subrange(6 * k, 6 * k + 6)
            == component_words(#[trigger] components[k]) by {
            if k < rest.len() {
                assert(w.subrange(6 * k, 6 * k + 6) =~= wr.subrange(6 * k, 6 * k + 6));
                assert(components[k] == rest[k]);
            } else {
                assert(w.subrange(6 * k, 6 * k + 6) =~= component_words(components.last()));
            }
        }
    }
}

/// Reads the little-endian word at byte offset `at`.
fn read_word(bytes: &[u8], at: usize) -> (word: u64)
    requires
        at + 8 <= bytes@.len(),
    ensures
        word == spec_u64_from_le_bytes(bytes@.subrange(at as int, at + 8)),
{
    let n = bytes.len();
    let end: usize = at + 8;
    let chunk = slice_subrange(bytes, at, end);
    u64_from_le_bytes(chunk)
}

/// Appends the little-endian bytes of `word` to the encoding of `words`.
fn push_word(out: &mut Vec<u8>, word: u64, Ghost(words): Ghost<Seq<u64>>)
    requires
        old(out)@ == words_to_bytes(words),
    ensures
        final(out)@ == words_to_bytes(words.push(word)),
{
    let mut le = u64_to_le_bytes(word);
    out.append(&mut le);
    assert(words.push(word).drop_last() =~= words);
}

/// Encodes an integrated mixture, header first, one record per component.
pub fn encode_cache(stats: &CacheStats, components: &Vec<ComponentBits>) -> (bytes: Vec<u8>)
    ensures
        bytes@ == cache_bytes(*stats, components@),
{
    let count: u64 = components.len() as u64;
    let ghost header = header_words(count, *stats);
    let mut bytes: Vec<u8> = Vec::new();
    assert(bytes@ =~= words_to_bytes(Seq::<u64>::empty()));
    let ghost w0: Seq<u64> = Seq::empty();
    let ghost w1 = w0.push(CACHE_MAGIC_WORD);
    let ghost w2 = w1.push(count);
    let ghost w3 = w2.push(stats.total_pair_count);
    let ghost w4 = w3.push(stats.candidate_pair_count);
    let ghost w5 = w4.push(stats.retained_pair_count);
    let ghost w6 = w5.push(stats.omitted_bound_bits);
    push_word(&mut bytes, CACHE_MAGIC_WORD, Ghost(w0));
    push_word(&mut bytes, count, Ghost(w1));
    push_word(&mut bytes, stats.total_pair_count, Ghost(w2));
    push_word(&mut bytes, stats.candidate_pair_count, Ghost(w3));
    push_word(&mut bytes, stats.retained_pair_count, Ghost(w4));
    push_word(&mut bytes, stats.omitted_bound_bits, Ghost(w5));
    push_word(&mut bytes, stats.cell_width_bits, Ghost(w6));
    proof {
        assert(w6.push(stats.cell_width_bits) =~= header);
        assert(header =~= header + components_words(components@.take(0)));
    }
    let mut k: usize = 0;
    while k < components.len()
        invariant
            k <= components@.len(),
            count == components@.len() as u64,
            header == header_words(count, *stats),
            bytes@ == words_to_bytes(header + components_words(components@.take(k as int))),
        decreases components@.len() - k,
    {
        let c = components[k];
        let ghost w0 = header + components_words(components@.take(k as int));
        push_word(&mut bytes, c.weight, Ghost(w0));
        push_word(&mut bytes, c.a, Ghost(w0.push(c.weight)));
        push_word(&mut bytes, c.b, Ghost(w0.push(c.weight).push(c.a)));
        push_word(&mut bytes, c.c, Ghost(w0.push(c.weight).push(c.a).push(c.b)));
        push_word(&mut bytes, c.x, Ghost(w0.push(c.weight).push(c.a).push(c.b).push(c.c)));
        push_word(&mut bytes, c.z, Ghost(w0.push(c.weight).push(c.a).push(c.b).push(c.c).push(c.x)));
        proof {
            assert(components@.take(k + 1).drop_last() =~= components@.take(k as int));
            assert(components@.take(k + 1).last() == c);
            assert(header + components_words(components@.take(k + 1)) =~= w0.push(c.weight).push(
                c.a,
            ).push(c.b).push(c.c).push(c.x).push(c.z));
        }
        k = k + 1;
    }
    assert(components@.take(components@.len() as int) =~= components@);
    bytes
}

/// The little-endian word at word index `i` of `bytes`.
pub open spec fn word_at(bytes: Seq<u8>, i: int) -> u64 {
    spec_u64_from_le_bytes(bytes.subrange(8 * i, 8 * i + 8))
}

/// Length and header words of every cache.
proof fn lemma_cache_layout(stats: CacheStats, components: Seq<ComponentBits>)
    requires
        components.len() <= u64::MAX,
    ensures
        cache_bytes(stats, components).len() == 56 + 48 * components.len(),
        forall|i: int|
            0 <= i < 7 ==> #[trigger] word_at(cache_bytes(stats, components), i) == header_words(
                components.len() as u64,
                stats,
            )[i],
{
    let words = header_words(components.len() as u64, stats) + components_words(components);
    lemma_components_words(components);
    lemma_words_to_bytes_chunks(words);
    lemma_auto_spec_u64_to_from_le_bytes();
    assert forall|i: int| 0 <= i < 7 implies #[trigger] word_at(cache_bytes(stats, components), i)
        == header_words(components.len() as u64, stats)[i] by {
        assert(words[i] == header_words(components.len() as u64, stats)[i]);
        assert(cache_bytes(stats, components).subrange(8 * i, 8 * i + 8) == spec_u64_to_le_bytes(
            words[i],
        ));
    }
}

/// Decodes a cache buffer.
///
/// The buffer must start with the magic word, carry as many component
/// records as its retained pair count, and be exactly as long as that count
/// implies. The component count is checked against the retained pair count
/// before the length, and the length before any component is read.
pub fn decode_cache(bytes: &[u8]) -> (decoded: Result<(CacheStats, Vec<ComponentBits>), CacheError>)
    ensures
        match decoded {
            Ok((stats, components)) => is_cache_of(bytes@, stats, components@),
            Err(_) => forall|stats: CacheStats, components: Seq<ComponentBits>|
                !is_cache_of(bytes@, stats, components),
        },
        decoded matches Err(CacheError::Truncated) ==> bytes@.len() < 56,
        decoded matches Err(CacheError::SchemaMismatch) ==> bytes@.len() >= 8 && word_at(bytes@, 0)
            != CACHE_MAGIC_WORD,
        decoded matches Err(CacheError::CountMismatch { count, retained }) ==> {
            &&& bytes@.len() >= 40
            &&& word_at(bytes@, 0) == CACHE_MAGIC_WORD
            &&& count == word_at(bytes@, 1)
            &&& retained == word_at(bytes@, 4)
            &&& count != retained
        },
        decoded matches Err(CacheError::LengthOverflow) ==> {
            &&& bytes@.len() >= 56
            &&& word_at(bytes@, 0) == CACHE_MAGIC_WORD
            &&& 56 + 48 * word_at(bytes@, 1) > u64::MAX
        },
        decoded matches Err(CacheError::LengthMismatch { expected, found }) ==> {
            &&& bytes@.len() >= 56
            &&& word_at(bytes@, 0) == CACHE_MAGIC_WORD
            &&& word_at(bytes@, 1) == word_at(bytes@, 4)
            &&& expected == 56 + 48 * word_at(bytes@, 1)
            &&& found == bytes@.len()
            &&& expected != found
        },
{
    let n = bytes.len();
    proof {
        lemma_auto_spec_u64_to_from_le_bytes();
    }
    if n < 8 {
        proof {
            assert forall|stats: CacheStats, components: Seq<ComponentBits>| !is_cache_of(
                bytes@,
                stats,
                components,
            ) by {
                if is_cache_of(bytes@, stats, components) {
                    lemma_cache_layout(stats, components);
                }
            }
        }
        return Err(CacheError::Truncated);
    }
    let magic = read_word(bytes, 0);
    if magic != CACHE_MAGIC_WORD {
        proof {
            assert forall|stats: CacheStats, components: Seq<ComponentBits>| !is_cache_of(
                bytes@,
                stats,
                components,
            ) by {
                if is_cache_of(bytes@, stats, components) {
                    lemma_cache_layout(stats, components);
                    assert(word_at(bytes@, 0) == CACHE_MAGIC_WORD);
                }
            }
        }
        return Err(CacheError::SchemaMismatch);
    }
    if n < 40 {
        proof {
            assert forall|stats: CacheStats, components: Seq<ComponentBits>| !is_cache_of(
                bytes@,
                stats,
                components,
            ) by {
                if is_cache_of(bytes@, stats, components) {
                    lemma_cache_layout(stats, components);
                }
            }
        }
        return Err(CacheError::Truncated);
    }
    let count = read_word(bytes, 8);
    let total = read_word(bytes, 16);
    let candidate = read_word(bytes, 24);
    let retained = read_word(bytes, 32);
    if count != retained {
        proof {
            assert forall|stats: CacheStats, components: Seq<ComponentBits>| !is_cache_of(
                bytes@,
                stats,
                components,
            ) by {
                if is_cache_of(bytes@, stats, components) {
                    lemma_cache_layout(stats, components);
                    assert(word_at(bytes@, 1) == components.len());
                    assert(word_at(bytes@, 4) == stats.retained_pair_count);
                }
            }
        }
        return Err(CacheError::CountMismatch { count, retained });
    }
    if n < 56 {
        proof {
            assert forall|stats: CacheStats, components: Seq<ComponentBits>| !is_cache_of(
                bytes@,
                stats,
                components,
            ) by {
                if is_cache_of(bytes@, stats, components) {
                    lemma_cache_layout(stats, components);
                }
            }
        }
        return Err(CacheError::Truncated);
    }
    let bound = read_word(bytes, 40);
    let width = read_word(bytes, 48);
    if count > (u64::MAX - 56) / 48 {
        proof {
            assert forall|stats: CacheStats, components: Seq<ComponentBits>| !is_cache_of(
                bytes@,
                stats,
                components,
            ) by {
                if is_cache_of(bytes@, stats, components) {
                    lemma_cache_layout(stats, components);
                    assert(word_at(bytes@, 1) == components.len());
                }
            }
        }
        return Err(CacheError::LengthOverflow);
    }
    let expected: u64 = 56 + 48 * count;
    if expected != n as u64 {
        proof {
            assert forall|stats: CacheStats, components: Seq<ComponentBits>| !is_cache_of(
                bytes@,
                stats,
                components,
            ) by {
                if is_cache_of(bytes@, stats, components) {
                    lemma_cache_layout(stats, components);
                    assert(word_at(bytes@, 1) == components.len());
                }
            }
        }
        return Err(CacheError::LengthMismatch { expected, found: n as u64 });
    }
    let stats = CacheStats {
        total_pair_count: total,
        candidate_pair_count: candidate,
        retained_pair_count: retained,
        omitted_bound_bits: bound,
        cell_width_bits: width,
    };
    let count_usize: usize = count as usize;
    let mut components: Vec<ComponentBits> = Vec::with_capacity(count_usize);
    let mut k: usize = 0;
    while k < count_usize
        invariant
            n == bytes@.len(),
            n as nat == 56 + 48 * count_usize,
            count_usize as u64 == count,
            k <= count_usize,
            components@.len() == k,
            forall|j: int|
                0 <= j < k ==> component_words(#[trigger] components@[j]) == seq![
                    word_at(bytes@, 7 + 6 * j),
                    word_at(bytes@, 8 + 6 * j),
                    word_at(bytes@, 9 + 6 * j),
                    word_at(bytes@, 10 + 6 * j),
                    word_at(bytes@, 11 + 6 * j),
                    word_at(bytes@, 12 + 6 * j),
                ],
        decreases count_usize - k,
    {
        let base: usize = 56 + 48 * k;
        let c = ComponentBits {
            weight: read_word(bytes, base),
            a: read_word(bytes, base + 8),
            b: read_word(bytes, base + 16),
            c: read_word(bytes, base + 24),
            x: read_word(bytes, base + 32),
            z: read_word(bytes, base + 40),
        };
        components.push(c);
        proof {
            assert(component_words(components@[k as int]) =~= seq![
                word_at(bytes@, 7 + 6 * k),
                word_at(bytes@, 8 + 6 * k),
                word_at(bytes@, 9 + 6 * k),
                word_at(bytes@, 10 + 6 * k),
                word_at(bytes@, 11 + 6 * k),
                word_at(bytes@, 12 + 6 * k),
            ]);
        }
        k = k + 1;
    }
    proof {
        let words = header_words(count, stats) + components_words(components@);
        lemma_components_words(components@);
        assert forall|i: int| 0 <= i < words.len() implies spec_u64_from_le_bytes(
            #[trigger] bytes@.subrange(8 * i, 8 * i + 8),
        ) == words[i] by {
            assert(word_at(bytes@, i) == spec_u64_from_le_bytes(bytes@.subrange(8 * i, 8 * i + 8)));
            if i >= 7 {
                let j = (i - 7) / 6;
                let f = (i - 7) % 6;
                assert(i == 7 + 6 * j + f);
                assert(components_words(components@).subrange(6 * j, 6 * j + 6) == component_words(
                    components@[j],
                ));
                assert(words[i] == components_words(components@)[6 * j + f]);
                assert(components_words(components@)[6 * j + f] == component_words(components@[j])[f]);
            }
        }
        lemma_bytes_from_chunks(bytes@, words);
    }
    Ok((stats, components))
}

/// Law: the cache is a sequence of little-endian words: the magic word, the
/// component count, the five header statistics in the order total,
/// candidate and retained pair count, omission bound, cell width; then one
/// record of six words per component, in component order, holding its
/// weight, `a`, `b`, `c`, `x` and `z` in that order.
pub proof fn lemma_cache_field_layout(stats: CacheStats, components: Seq<ComponentBits>)
    requires
        components.len() <= u64::MAX,
    ensures
        cache_bytes(stats, components).len() == 56 + 48 * components.len(),
        word_at(cache_bytes(stats, components), 0) == CACHE_MAGIC_WORD,
        word_at(cache_bytes(stats, components), 1) == components.len(),
        word_at(cache_bytes(stats, components), 2) == stats.total_pair_count,
        word_at(cache_bytes(stats, components), 3) == stats.candidate_pair_count,
        word_at(cache_bytes(stats, components), 4) == stats.retained_pair_count,
        word_at(cache_bytes(stats, components), 5) == stats.omitted_bound_bits,
        word_at(cache_bytes(stats, components), 6) == stats.cell_width_bits,
        forall|k: int|
            0 <= k < components.len() ==> {
                &&& word_at(cache_bytes(stats, components), 7 + 6 * k) == (#[trigger] components[k]).weight
                &&& word_at(cache_bytes(stats, components), 7 + 6 * k + 1) == components[k].a
                &&& word_at(cache_bytes(stats, components), 7 + 6 * k + 2) == components[k].b
                &&& word_at(cache_bytes(stats, components), 7 + 6 * k + 3) == components[k].c
                &&& word_at(cache_bytes(stats, components), 7 + 6 * k + 4) == components[k].x
                &&& word_at(cache_bytes(stats, components), 7 + 6 * k + 5) == components[k].z
            },
{
    lemma_cache_layout(stats, components);
    let words = header_words(components.len() as u64, stats) + components_words(components);
    let bytes = cache_bytes(stats, components);
    lemma_components_words(components);
    lemma_words_to_bytes_chunks(words);
    lemma_auto_spec_u64_to_from_le_bytes();
    assert(word_at(bytes, 0) == header_words(components.len() as u64, stats)[0]);
    assert(word_at(bytes, 1) == header_words(components.len() as u64, stats)[1]);
    assert(word_at(bytes, 2) == header_words(components.len() as u64, stats)[2]);
    assert(word_at(bytes, 3) == header_words(components.len() as u64, stats)[3]);
    assert(word_at(bytes, 4) == header_words(components.len() as u64, stats)[4]);
    assert(word_at(bytes, 5) == header_words(components.len() as u64, stats)[5]);
    assert(word_at(bytes, 6) == header_words(components.len() as u64, stats)[6]);
    assert forall|k: int| 0 <= k < components.len() implies {
        &&& word_at(bytes, 7 + 6 * k) == (#[trigger] components[k]).weight
        &&& word_at(bytes, 7 + 6 * k + 1) == components[k].a
        &&& word_at(bytes, 7 + 6 * k + 2) == components[k].b
        &&& word_at(bytes, 7 + 6 * k + 3) == components[k].c
        &&& word_at(bytes, 7 + 6 * k + 4) == components[k].x
        &&& word_at(bytes, 7 + 6 * k + 5) == components[k].z
    } by {
        let c = components[k];
        assert(components_words(components).subrange(6 * k, 6 * k + 6) == component_words(c));
        assert forall|f: int| 0 <= f < 6 implies word_at(bytes, 7 + 6 * k + f) == component_words(
            c,
        )[f] by {
            let i = 7 + 6 * k + f;
            assert(words[i] == components_words(components)[6 * k + f]);
            assert(components_words(components)[6 * k + f] == components_words(components).subrange(
                6 * k,
                6 * k + 6,
            )[f]);
            assert(bytes.subrange(8 * i, 8 * i + 8) == spec_u64_to_le_bytes(words[i]));
        }
        assert(word_at(bytes, 7 + 6 * k + 0) == component_words(c)[0]);
        assert(word_at(bytes, 7 + 6 * k + 1) == component_words(c)[1]);
        assert(word_at(bytes, 7 + 6 * k + 2) == component_words(c)[2]);
        assert(word_at(bytes, 7 + 6 * k + 3) == component_words(c)[3]);
        assert(word_at(bytes, 7 + 6 * k + 4) == component_words(c)[4]);
        assert(word_at(bytes, 7 + 6 * k + 5) == component_words(c)[5]);
    }
}

/// Law: a buffer is the cache of at most one mixture, so decoding what
/// `encode_cache` wrote gives back the same statistics and components.
pub proof fn lemma_cache_encoding_injective(
    bytes: Seq<u8>,
    stats1: CacheStats,
    components1: Seq<ComponentBits>,
    stats2: CacheStats,
    components2: Seq<ComponentBits>,
)
    requires
        is_cache_of(bytes, stats1, components1),
        is_cache_of(bytes, stats2, components2),
    ensures
        stats1 == stats2,
        components1 == components2,
{
    lemma_auto_spec_u64_to_from_le_bytes();
    let w1 = header_words(components1.len() as u64, stats1) + components_words(components1);
    let w2 = header_words(components2.len() as u64, stats2) + components_words(components2);
    lemma_components_words(components1);
    lemma_components_words(components2);
    lemma_words_to_bytes_chunks(w1);
    lemma_words_to_bytes_chunks(w2);
    assert(w1.len() == w2.len());
    assert forall|i: int| 0 <= i < w1.len() implies w1[i] == w2[i] by {
        assert(bytes.subrange(8 * i, 8 * i + 8) == spec_u64_to_le_bytes(w1[i]));
        assert(bytes.subrange(8 * i, 8 * i + 8) == spec_u64_to_le_bytes(w2[i]));
        assert(spec_u64_from_le_bytes(spec_u64_to_le_bytes(w1[i])) == w1[i]);
        assert(spec_u64_from_le_bytes(spec_u64_to_le_bytes(w2[i])) == w2[i]);
    }
    assert(components1.len() == components2.len());
    assert(w1[2] == w2[2] && w1[3] == w2[3] && w1[4] == w2[4] && w1[5] == w2[5] && w1[6] == w2[6]);
    assert forall|k: int| 0 <= k < components1.len() implies components1[k] == components2[k] by {
        assert(components_words(components1).subrange(6 * k, 6 * k + 6) == component_words(components1[k]));
        assert(components_words(components2).subrange(6 * k, 6 * k + 6) == component_words(components2[k]));
        assert forall|f: int| 0 <= f < 6 implies component_words(components1[k])[f] == component_words(
            components2[k],
        )[f] by {
            assert(w1[7 + 6 * k + f] == components_words(components1)[6 * k + f]);
            assert(w2[7 + 6 * k + f] == components_words(components2)[6 * k + f]);
        }
        assert(component_words(components1[k])[0] == component_words(components2[k])[0]);
        assert(component_words(components1[k])[1] == component_words(components2[k])[1]);
        assert(component_words(components1[k])[2] == component_words(components2[k])[2]);
        assert(component_words(components1[k])[3] == component_words(components2[k])[3]);
        assert(component_words(components1[k])[4] == component_words(components2[k])[4]);
        assert(component_words(components1[k])[5] == component_words(components2[k])[5]);
    }
    assert(components1 =~= components2);
}

} // verus!
