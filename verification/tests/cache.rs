use t4a_bench::integrated_gaussian::{
    decode_cache, encode_cache, CacheError, CacheStats, ComponentBits, CACHE_MAGIC_WORD,
};

fn sample() -> (CacheStats, Vec<ComponentBits>) {
    let components = vec![
        ComponentBits {
            weight: 1.5f64.to_bits(),
            a: 2.0f64.to_bits(),
            b: (-0.25f64).to_bits(),
            c: 3.0f64.to_bits(),
            x: 0.1f64.to_bits(),
            z: (-0.7f64).to_bits(),
        },
        ComponentBits {
            weight: 0.5f64.to_bits(),
            a: 1.0f64.to_bits(),
            b: 0.0f64.to_bits(),
            c: 1.0f64.to_bits(),
            x: 1.2f64.to_bits(),
            z: 0.9f64.to_bits(),
        },
    ];
    let stats = CacheStats {
        total_pair_count: 30,
        candidate_pair_count: 12,
        retained_pair_count: 2,
        omitted_bound_bits: 1e-14f64.to_bits(),
        cell_width_bits: 0.25f64.to_bits(),
    };
    (stats, components)
}

#[test]
fn cache_bytes_follow_the_documented_layout() {
    let (stats, components) = sample();
    let bytes = encode_cache(&stats, &components);
    assert_eq!(bytes.len(), 56 + 48 * 2);
    assert_eq!(&bytes[0..8], b"T4AIG02\0");
    assert_eq!(u64::from_le_bytes(bytes[0..8].try_into().unwrap()), CACHE_MAGIC_WORD);
    assert_eq!(u64::from_le_bytes(bytes[8..16].try_into().unwrap()), 2);
    assert_eq!(u64::from_le_bytes(bytes[16..24].try_into().unwrap()), 30);
    assert_eq!(u64::from_le_bytes(bytes[24..32].try_into().unwrap()), 12);
    assert_eq!(u64::from_le_bytes(bytes[32..40].try_into().unwrap()), 2);
    assert_eq!(f64::from_le_bytes(bytes[40..48].try_into().unwrap()), 1e-14);
    assert_eq!(f64::from_le_bytes(bytes[48..56].try_into().unwrap()), 0.25);
    assert_eq!(f64::from_le_bytes(bytes[56..64].try_into().unwrap()), 1.5);
    assert_eq!(f64::from_le_bytes(bytes[96..104].try_into().unwrap()), -0.7);
    assert_eq!(f64::from_le_bytes(bytes[144..152].try_into().unwrap()), 0.9);
}

#[test]
fn cache_round_trip_restores_stats_and_components() {
    let (stats, components) = sample();
    let bytes = encode_cache(&stats, &components);
    let (decoded_stats, decoded) = decode_cache(&bytes).unwrap();
    assert_eq!(decoded_stats, stats);
    assert_eq!(decoded, components);
}

#[test]
fn empty_mixture_round_trips() {
    let stats = CacheStats {
        total_pair_count: 4,
        candidate_pair_count: 0,
        retained_pair_count: 0,
        omitted_bound_bits: 1,
        cell_width_bits: 2,
    };
    let bytes = encode_cache(&stats, &Vec::new());
    assert_eq!(bytes.len(), 56);
    assert_eq!(decode_cache(&bytes), Ok((stats, Vec::new())));
}

#[test]
fn corrupt_cache_is_refused() {
    assert_eq!(decode_cache(b"corrupt"), Err(CacheError::Truncated));
    assert_eq!(decode_cache(&[0u8; 56]), Err(CacheError::SchemaMismatch));
    let (stats, components) = sample();
    let bytes = encode_cache(&stats, &components);
    assert_eq!(decode_cache(&bytes[..48]), Err(CacheError::Truncated));
    assert_eq!(decode_cache(&bytes[..30]), Err(CacheError::Truncated));
    let mut short = bytes.clone();
    short.pop();
    assert_eq!(
        decode_cache(&short),
        Err(CacheError::LengthMismatch {
            expected: 152,
            found: 151
        })
    );
    let mut long = bytes.clone();
    long.push(0);
    assert_eq!(
        decode_cache(&long),
        Err(CacheError::LengthMismatch {
            expected: 152,
            found: 153
        })
    );
}

#[test]
fn component_count_must_match_retained_pairs() {
    let (mut stats, components) = sample();
    stats.retained_pair_count = 3;
    let bytes = encode_cache(&stats, &components);
    assert_eq!(
        decode_cache(&bytes),
        Err(CacheError::CountMismatch {
            count: 2,
            retained: 3
        })
    );
}

#[test]
fn absurd_component_count_overflows_the_length() {
    let stats = CacheStats {
        total_pair_count: 0,
        candidate_pair_count: 0,
        retained_pair_count: u64::MAX,
        omitted_bound_bits: 0,
        cell_width_bits: 0,
    };
    let mut bytes = encode_cache(&stats, &Vec::new());
    bytes[8..16].copy_from_slice(&u64::MAX.to_le_bytes());
    assert_eq!(decode_cache(&bytes), Err(CacheError::LengthOverflow));
}
