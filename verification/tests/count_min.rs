use fgdb::count_min::{
    CountMinCodecError, CountMinDecodeLimits, CountMinError, CountMinHashAlgorithm,
    CountMinProfile, CountMinSketch,
};

fn profile() -> CountMinProfile {
    CountMinProfile {
        width: 256,
        depth: 5,
        hash_algorithm: CountMinHashAlgorithm::SeededFnvMix64V1,
        seed: 0x434d_534b_4554_4348,
        max_total_weight: 1_000_000,
        max_cells: 2_000,
    }
}

fn sketch() -> CountMinSketch {
    CountMinSketch::try_new(profile()).expect("bounded profile")
}

fn read_fixture(bytes: &[u8]) -> Result<CountMinSketch, CountMinCodecError> {
    CountMinSketch::try_from_canonical_bytes(bytes, profile(), CountMinDecodeLimits::conservative())
}

#[test]
fn construction_enforces_shape_and_cell_ceiling() {
    assert_eq!(
        CountMinSketch::try_new(CountMinProfile::new(0, 3, 1, 10)),
        Err(CountMinError::EmptyDimension { width: 0, depth: 3 })
    );
    assert_eq!(
        CountMinSketch::try_new(CountMinProfile {
            width: usize::MAX,
            depth: 2,
            hash_algorithm: CountMinHashAlgorithm::SeededFnvMix64V1,
            seed: 1,
            max_total_weight: 10,
            max_cells: usize::MAX,
        }),
        Err(CountMinError::CellCountOverflow)
    );
    assert_eq!(
        CountMinSketch::try_new(CountMinProfile {
            width: 8,
            depth: 3,
            hash_algorithm: CountMinHashAlgorithm::SeededFnvMix64V1,
            seed: 1,
            max_total_weight: 10,
            max_cells: 23,
        }),
        Err(CountMinError::CellLimitExceeded {
            requested: 24,
            limit: 23,
        })
    );
}

#[test]
fn estimates_never_understate_observed_weight() {
    let mut sketch = sketch();
    let observations = [
        (&b"person"[..], 11),
        (&b"knows"[..], 7),
        (&b"person"[..], 13),
        (&b"city"[..], 5),
    ];
    for (key, weight) in observations {
        sketch.try_observe(key, weight).expect("bounded update");
    }
    assert!(sketch.estimate(b"person") >= 24);
    assert!(sketch.estimate(b"knows") >= 7);
    assert!(sketch.estimate(b"city") >= 5);
    assert_eq!(sketch.total_weight(), 36);
}

#[test]
fn observation_order_has_identical_canonical_state() {
    let observations = [
        (&b"alpha"[..], 3),
        (&b"beta"[..], 5),
        (&b"gamma"[..], 7),
        (&b"alpha"[..], 11),
    ];
    let mut forward = sketch();
    let mut reverse = sketch();
    for &(key, weight) in &observations {
        forward.try_observe(key, weight).expect("bounded update");
    }
    for &(key, weight) in observations.iter().rev() {
        reverse.try_observe(key, weight).expect("bounded update");
    }
    assert_eq!(forward.canonical_state(), reverse.canonical_state());
}

#[test]
fn count_min_canonical_codec_round_trips_and_collapses_observation_order() {
    let observations = [
        (&b"alpha"[..], 3),
        (&b"beta"[..], 5),
        (&b"gamma"[..], 7),
        (&b"alpha"[..], 11),
    ];
    let mut forward = sketch();
    let mut reverse = sketch();
    for &(key, weight) in &observations {
        forward.try_observe(key, weight).expect("bounded update");
    }
    for &(key, weight) in observations.iter().rev() {
        reverse.try_observe(key, weight).expect("bounded update");
    }

    let forward_bytes = forward.try_to_canonical_bytes().expect("valid state encodes");
    let reverse_bytes = reverse.try_to_canonical_bytes().expect("valid state encodes");
    assert_eq!(forward_bytes, reverse_bytes);
    assert_eq!(&forward_bytes[..8], b"FGDBCMS1");
    assert_eq!(&forward_bytes[8..10], &1_u16.to_be_bytes());

    let decoded = read_fixture(&forward_bytes).expect("canonical value");
    assert_eq!(decoded, forward);
    assert_eq!(
        decoded.try_to_canonical_bytes().expect("decoded state re-encodes"),
        forward_bytes
    );
}

#[test]
fn hash_profile_and_complete_canonical_value_have_frozen_vectors() {
    let profile = CountMinProfile {
        width: 2,
        depth: 2,
        hash_algorithm: CountMinHashAlgorithm::SeededFnvMix64V1,
        seed: 7,
        max_total_weight: 100,
        max_cells: 4,
    };
    let mut value = CountMinSketch::try_new(profile).expect("bounded profile");
    assert_eq!(value.counter_index(0, b"edge"), 0);
    assert_eq!(value.counter_index(1, b"edge"), 2);
    value.try_observe(b"edge", 3).expect("bounded update");

    let encoded = value.try_to_canonical_bytes().expect("canonical state");
    let mut actual_hex = String::with_capacity(encoded.len() * 2);
    for byte in encoded {
        actual_hex.push_str(&format!("{byte:02x}"));
    }
    assert_eq!(
        actual_hex,
        "46474442434d53310001000000000000000200000000000000020001000000000000000700000000000000640000000000000004000000000000000300000000000000040000000000000003000000000000000000000000000000030000000000000000"
    );
}

#[test]
fn canonical_decoder_rejects_malformed_state_without_allocation_ambiguity() {
    let mut value = sketch();
    value.try_observe(b"edge", 9).expect("bounded update");
    let encoded = value.try_to_canonical_bytes().expect("valid state encodes");

    let mut wrong_magic = encoded.clone();
    wrong_magic[0] ^= 1;
    assert!(matches!(
        read_fixture(&wrong_magic),
        Err(CountMinCodecError::MagicMismatch { .. })
    ));

    let mut wrong_version = encoded.clone();
    wrong_version[8..10].copy_from_slice(&2_u16.to_be_bytes());
    assert_eq!(
        read_fixture(&wrong_version),
        Err(CountMinCodecError::UnsupportedVersion { actual: 2 })
    );

    let mut wrong_hash_algorithm = encoded.clone();
    wrong_hash_algorithm[26..28].copy_from_slice(&2_u16.to_be_bytes());
    assert_eq!(
        read_fixture(&wrong_hash_algorithm),
        Err(CountMinCodecError::UnsupportedHashAlgorithm { actual: 2 })
    );

    let mut wrong_count = encoded.clone();
    wrong_count[60..68].copy_from_slice(&1_u64.to_be_bytes());
    assert!(matches!(
        read_fixture(&wrong_count),
        Err(CountMinCodecError::CounterCountMismatch { .. })
    ));

    let mut wrong_row_sum = encoded.clone();
    wrong_row_sum[73] ^= 1;
    assert!(matches!(
        read_fixture(&wrong_row_sum),
        Err(CountMinCodecError::RowWeightMismatch { .. })
            | Err(CountMinCodecError::CounterExceedsTotal { .. })
    ));

    assert!(matches!(
        read_fixture(&encoded[..encoded.len() - 1]),
        Err(CountMinCodecError::Truncated { .. })
    ));

    let mut trailing = encoded;
    trailing.push(0);
    assert!(matches!(
        read_fixture(&trailing),
        Err(CountMinCodecError::TrailingBytes { remaining: 1, .. })
    ));
}

#[test]
fn count_min_canonical_decoder_enforces_trusted_profile_and_resource_bounds() {
    let encoded = sketch().try_to_canonical_bytes().expect("valid state encodes");

    let mut different_profile = profile();
    different_profile.seed ^= 1;
    assert!(matches!(
        CountMinSketch::try_from_canonical_bytes(
            &encoded,
            different_profile,
            CountMinDecodeLimits::conservative(),
        ),
        Err(CountMinCodecError::ProfileMismatch { .. })
    ));

    let mut limits = CountMinDecodeLimits::conservative();
    limits.max_depth = profile().depth - 1;
    assert_eq!(
        CountMinSketch::try_from_canonical_bytes(&encoded, profile(), limits),
        Err(CountMinCodecError::DepthLimitExceeded {
            actual: profile().depth,
            maximum: profile().depth - 1,
        })
    );

    let mut limits = CountMinDecodeLimits::conservative();
    limits.max_encoded_bytes = encoded.len() - 1;
    assert_eq!(
        CountMinSketch::try_from_canonical_bytes(&encoded, profile(), limits),
        Err(CountMinCodecError::EncodedByteLimitExceeded {
            actual: encoded.len(),
            maximum: encoded.len() - 1,
        })
    );
}

fn part(entries: &[(&[u8], u64)]) -> CountMinSketch {
    let mut value = sketch();
    for &(key, weight) in entries {
        value.try_observe(key, weight).expect("bounded update");
    }
    value
}

#[test]
fn merge_is_commutative_and_associative_for_identical_profiles() {
    let a = part(&[(b"a", 2), (b"d", 3)]);
    let b = part(&[(b"b", 5), (b"a", 7)]);
    let c = part(&[(b"c", 11), (b"d", 13)]);

    let mut left = a.clone();
    left.try_merge(&b).expect("matching profile");
    let mut right = b.clone();
    right.try_merge(&a).expect("matching profile");
    assert_eq!(left, right);

    let mut ab_c = a.clone();
    ab_c.try_merge(&b).expect("matching profile");
    ab_c.try_merge(&c).expect("matching profile");
    let mut bc = b;
    bc.try_merge(&c).expect("matching profile");
    let mut a_bc = a;
    a_bc.try_merge(&bc).expect("matching profile");
    assert_eq!(ab_c, a_bc);
}

#[test]
fn deletion_and_profile_mismatch_leave_state_unchanged() {
    let mut value = sketch();
    value.try_observe(b"edge", 9).expect("bounded update");
    let before = value.clone();
    assert_eq!(
        value.try_remove(b"edge", 4),
        Err(CountMinError::RebuildRequired {
            requested_weight: 4,
        })
    );
    assert_eq!(value, before);

    let mut other_profile = profile();
    other_profile.seed ^= 1;
    let other = CountMinSketch::try_new(other_profile).expect("bounded profile");
    assert_eq!(value.try_merge(&other), Err(CountMinError::ProfileMismatch));
    assert_eq!(value, before);
}

#[test]
fn overflow_is_atomic() {
    let mut bounded = CountMinSketch::try_new(CountMinProfile {
        max_total_weight: 10,
        ..profile()
    })
    .expect("bounded profile");
    bounded.try_observe(b"x", 9).expect("within total bound");
    let before = bounded.clone();
    assert_eq!(bounded.try_observe(b"x", 2), Err(CountMinError::WeightOverflow));
    assert_eq!(bounded, before);
}

#[test]
fn empty_sketch_estimates_zero_and_merge_adds_totals() {
    let empty = sketch();
    assert_eq!(empty.estimate(b"anything"), 0);
    assert_eq!(empty.total_weight(), 0);
    let mut a = part(&[(b"k", 4)]);
    let b = part(&[(b"k", 6)]);
    a.try_merge(&b).expect("matching profile");
    assert_eq!(a.total_weight(), 10);
    assert!(a.estimate(b"k") >= 10);
    let mut limits = CountMinDecodeLimits::conservative();
    limits.max_width = 255;
    let encoded = empty.try_to_canonical_bytes().unwrap();
    assert_eq!(
        CountMinSketch::try_from_canonical_bytes(&encoded, profile(), limits),
        Err(CountMinCodecError::WidthLimitExceeded { actual: 256, maximum: 255 })
    );
}

#[test]
fn canonical_decoder_names_each_fault_exactly() {
    let mut value = sketch();
    value.try_observe(b"alpha", 4).expect("bounded update");
    value.try_observe(b"beta", 6).expect("bounded update");
    let encoded = value.try_to_canonical_bytes().expect("valid state encodes");

    let mut other = profile();
    other.max_total_weight += 1;
    assert_eq!(
        CountMinSketch::try_from_canonical_bytes(
            &encoded,
            other,
            CountMinDecodeLimits::conservative(),
        ),
        Err(CountMinCodecError::ProfileMismatch { expected: other, actual: profile() })
    );

    for cut in 0..encoded.len() {
        assert!(
            matches!(read_fixture(&encoded[..cut]), Err(CountMinCodecError::Truncated { .. })),
            "prefix of {cut} bytes"
        );
    }

    let mut trailing = encoded.clone();
    trailing.push(0);
    assert_eq!(
        read_fixture(&trailing),
        Err(CountMinCodecError::TrailingBytes { offset: encoded.len(), remaining: 1 })
    );

    let decoded = read_fixture(&encoded).expect("canonical value");
    assert_eq!(decoded, value);
}
