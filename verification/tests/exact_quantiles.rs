use fgdb::exact_quantiles::{
    ExactQuantileCodecError, ExactQuantileDecodeLimits, ExactQuantileError, ExactQuantileSketch,
};

fn summary(values: &[u64]) -> ExactQuantileSketch {
    let mut sketch = ExactQuantileSketch::new(100);
    for &value in values {
        sketch.try_observe(value).expect("within ceiling");
    }
    sketch
}

fn read_fixture(bytes: &[u8]) -> Result<ExactQuantileSketch, ExactQuantileCodecError> {
    ExactQuantileSketch::try_from_canonical_bytes(bytes, 100, ExactQuantileDecodeLimits::conservative())
}

#[test]
fn insertion_order_canonicalizes_the_multiset() {
    let forward = summary(&[9, 1, 5, 5, 2, u64::MAX, 0]);
    let reverse = summary(&[0, u64::MAX, 2, 5, 5, 1, 9]);
    assert_eq!(forward, reverse);
    assert_eq!(forward.canonical_values(), &[0, 1, 2, 5, 5, 9, u64::MAX]);
}

#[test]
fn canonical_codec_round_trips_and_is_insertion_order_independent() {
    let forward = summary(&[9, 1, 5, 5, 2, u64::MAX, 0]);
    let reverse = summary(&[0, u64::MAX, 2, 5, 5, 1, 9]);
    let forward_bytes = forward.try_to_canonical_bytes().expect("valid sorted multiset");
    let reverse_bytes = reverse.try_to_canonical_bytes().expect("valid sorted multiset");
    assert_eq!(forward_bytes, reverse_bytes);
    assert_eq!(&forward_bytes[..8], b"FGDBEQS1");
    assert_eq!(&forward_bytes[8..10], &1_u16.to_be_bytes());

    let decoded = read_fixture(&forward_bytes).expect("canonical summary");
    assert_eq!(decoded, forward);
    assert_eq!(decoded.try_to_canonical_bytes().expect("decoded summary"), forward_bytes);
}

#[test]
fn exact_quantiles_canonical_decoder_rejects_noncanonical_or_incomplete_values() {
    let encoded = summary(&[1, 2, 3]).try_to_canonical_bytes().expect("valid summary");

    let mut wrong_magic = encoded.clone();
    wrong_magic[0] ^= 1;
    assert!(matches!(
        read_fixture(&wrong_magic),
        Err(ExactQuantileCodecError::MagicMismatch { .. })
    ));

    let mut wrong_version = encoded.clone();
    wrong_version[8..10].copy_from_slice(&2_u16.to_be_bytes());
    assert_eq!(
        read_fixture(&wrong_version),
        Err(ExactQuantileCodecError::UnsupportedVersion { actual: 2 })
    );

    let mut above_limit = encoded.clone();
    above_limit[18..26].copy_from_slice(&101_u64.to_be_bytes());
    assert_eq!(
        read_fixture(&above_limit),
        Err(ExactQuantileCodecError::ObservationLimitExceeded {
            actual: 101,
            maximum: 100,
        })
    );

    let mut out_of_order = encoded.clone();
    out_of_order[26..34].copy_from_slice(&3_u64.to_be_bytes());
    out_of_order[34..42].copy_from_slice(&2_u64.to_be_bytes());
    assert_eq!(
        read_fixture(&out_of_order),
        Err(ExactQuantileCodecError::ValuesOutOfOrder {
            index: 1,
            previous: 3,
            current: 2,
        })
    );

    assert!(matches!(
        read_fixture(&encoded[..encoded.len() - 1]),
        Err(ExactQuantileCodecError::Truncated { .. })
    ));

    let mut trailing = encoded;
    trailing.push(0);
    assert!(matches!(
        read_fixture(&trailing),
        Err(ExactQuantileCodecError::TrailingBytes { remaining: 1, .. })
    ));
}

#[test]
fn exact_quantiles_canonical_decoder_enforces_trusted_profile_and_resource_bounds() {
    let encoded = summary(&[1, 2, 3]).try_to_canonical_bytes().expect("valid summary");

    assert_eq!(
        ExactQuantileSketch::try_from_canonical_bytes(
            &encoded,
            99,
            ExactQuantileDecodeLimits::conservative(),
        ),
        Err(ExactQuantileCodecError::ProfileMismatch {
            expected_max_observations: 99,
            actual_max_observations: 100,
        })
    );

    let limits = ExactQuantileDecodeLimits {
        max_observations: 99,
        max_encoded_bytes: encoded.len(),
    };
    assert_eq!(
        ExactQuantileSketch::try_from_canonical_bytes(&encoded, 100, limits),
        Err(ExactQuantileCodecError::DecodeObservationLimitExceeded {
            actual: 100,
            maximum: 99,
        })
    );

    let limits = ExactQuantileDecodeLimits {
        max_observations: 100,
        max_encoded_bytes: encoded.len() - 1,
    };
    assert_eq!(
        ExactQuantileSketch::try_from_canonical_bytes(&encoded, 100, limits),
        Err(ExactQuantileCodecError::EncodedByteLimitExceeded {
            actual: encoded.len(),
            maximum: encoded.len() - 1,
        })
    );
}

#[test]
fn rational_quantiles_have_fixed_endpoint_and_rounding_semantics() {
    let sketch = summary(&[10, 20, 30, 40, 50]);
    assert_eq!(sketch.quantile(0, 1), Ok(Some(10)));
    assert_eq!(sketch.quantile(1, 4), Ok(Some(20)));
    assert_eq!(sketch.quantile(1, 2), Ok(Some(30)));
    assert_eq!(sketch.quantile(3, 4), Ok(Some(40)));
    assert_eq!(sketch.quantile(1, 1), Ok(Some(50)));
    assert_eq!(
        sketch.quantile(2, 1),
        Err(ExactQuantileError::InvalidQuantile {
            numerator: 2,
            denominator: 1,
        })
    );
    assert_eq!(
        sketch.quantile(0, 0),
        Err(ExactQuantileError::InvalidQuantile {
            numerator: 0,
            denominator: 0,
        })
    );
    assert_eq!(ExactQuantileSketch::new(0).quantile(0, 1), Ok(None));
}

#[test]
fn deletion_is_exact_for_duplicates_and_missing_values_are_typed() {
    let mut sketch = summary(&[1, 2, 2, 2, 3]);
    sketch.try_remove(2).expect("duplicate exists");
    assert_eq!(sketch.canonical_values(), &[1, 2, 2, 3]);
    sketch.try_remove(2).expect("duplicate exists");
    sketch.try_remove(2).expect("duplicate exists");
    assert_eq!(
        sketch.try_remove(2),
        Err(ExactQuantileError::MissingObservation { value: 2 })
    );
    assert_eq!(sketch.canonical_values(), &[1, 3]);
}

#[test]
fn merge_is_commutative_and_associative() {
    let a = summary(&[9, 1, 5]);
    let b = summary(&[4, 4, 8]);
    let c = summary(&[0, 10]);

    let mut left = a.clone();
    left.try_merge(&b).expect("same profile");
    let mut right = b.clone();
    right.try_merge(&a).expect("same profile");
    assert_eq!(left, right);

    let mut ab_c = left;
    ab_c.try_merge(&c).expect("same profile");
    let mut bc = b;
    bc.try_merge(&c).expect("same profile");
    let mut a_bc = a;
    a_bc.try_merge(&bc).expect("same profile");
    assert_eq!(ab_c, a_bc);
}

#[test]
fn limit_and_profile_failures_are_atomic() {
    let mut bounded = ExactQuantileSketch::new(2);
    bounded.try_observe(1).expect("within ceiling");
    bounded.try_observe(2).expect("within ceiling");
    let before = bounded.clone();
    assert_eq!(
        bounded.try_observe(3),
        Err(ExactQuantileError::ObservationLimitExceeded {
            attempted: 3,
            maximum: 2,
        })
    );
    assert_eq!(bounded, before);

    let other = ExactQuantileSketch::new(3);
    assert_eq!(
        bounded.try_merge(&other),
        Err(ExactQuantileError::ProfileMismatch {
            left_maximum: 2,
            right_maximum: 3,
        })
    );
    assert_eq!(bounded, before);
}

#[test]
fn selection_and_capacity_follow_the_sorted_multiset() {
    let sketch = summary(&[7, 3, 3, 11]);
    assert_eq!(sketch.select(0), Some(3));
    assert_eq!(sketch.select(1), Some(3));
    assert_eq!(sketch.select(3), Some(11));
    assert_eq!(sketch.select(4), None);
    assert_eq!(sketch.len(), 4);
    assert!(!sketch.is_empty());
    assert_eq!(sketch.max_observations(), 100);
    let mut with_room = ExactQuantileSketch::try_with_capacity(8, 4).expect("small reservation");
    assert!(with_room.is_empty());
    with_room.try_observe(5).unwrap();
    with_room.try_remove(5).unwrap();
    assert!(with_room.is_empty());
    assert_eq!(
        ExactQuantileSketch::try_with_capacity(2, 3),
        Err(ExactQuantileError::ObservationLimitExceeded { attempted: 3, maximum: 2 })
    );
}
