use fgdb::degree_histogram::{
    bucket_bounds, bucket_index, DegreeBucket, DegreeHistogram, DegreeHistogramCodecError,
    DegreeHistogramError, DEGREE_BUCKETS, DEGREE_HISTOGRAM_CANONICAL_BYTES,
};

#[test]
fn every_power_boundary_maps_to_its_canonical_interval() {
    let fixtures = [
        (0, 0, 0, 0),
        (1, 1, 1, 1),
        (2, 2, 2, 3),
        (3, 2, 2, 3),
        (4, 3, 4, 7),
        (7, 3, 4, 7),
        (8, 4, 8, 15),
        (u64::MAX, 64, 1_u64 << 63, u64::MAX),
    ];
    for (degree, index, lower, upper) in fixtures {
        assert_eq!(bucket_index(degree), index);
        assert_eq!(bucket_bounds(index), (lower, upper));
    }
}

#[test]
fn observe_remove_and_selection_preserve_bucket_semantics() {
    let mut histogram = DegreeHistogram::new(20);
    for degree in [0, 1, 2, 3, 3, 8, u64::MAX] {
        histogram.try_observe(degree).expect("within ceiling");
    }
    assert_eq!(histogram.len(), 7);
    assert_eq!(
        histogram.select_bucket(0),
        Some(DegreeBucket {
            index: 0,
            lower: 0,
            upper: 0,
            count: 1,
        })
    );
    assert_eq!(histogram.select_bucket(3).map(|bucket| bucket.index), Some(2));
    assert_eq!(histogram.select_bucket(6).map(|bucket| bucket.index), Some(64));
    assert_eq!(histogram.select_bucket(7), None);

    histogram.try_remove(2).expect("bucket has observations");
    assert_eq!(histogram.bucket(2).map(|bucket| bucket.count), Some(2));
    histogram.try_remove(3).expect("bucket has observations");
    histogram.try_remove(3).expect("bucket has observations");
    assert_eq!(
        histogram.try_remove(2),
        Err(DegreeHistogramError::MissingObservation {
            degree: 2,
            bucket: 2,
        })
    );
}

#[test]
fn canonical_codec_round_trips_and_is_observation_order_independent() {
    let observations = [0, 1, 2, 3, 3, 8, u64::MAX];
    let mut forward = DegreeHistogram::new(20);
    let mut reverse = DegreeHistogram::new(20);
    for degree in observations {
        forward.try_observe(degree).expect("within ceiling");
    }
    for degree in observations.into_iter().rev() {
        reverse.try_observe(degree).expect("within ceiling");
    }

    let forward_bytes = forward.to_canonical_bytes().expect("valid histogram");
    let reverse_bytes = reverse.to_canonical_bytes().expect("valid histogram");
    assert_eq!(forward_bytes, reverse_bytes);
    assert_eq!(&forward_bytes[..8], b"FGDBDGH1");
    assert_eq!(&forward_bytes[8..10], &1_u16.to_be_bytes());

    let decoded =
        DegreeHistogram::try_from_canonical_bytes(&forward_bytes, 20).expect("canonical histogram");
    assert_eq!(decoded, forward);
    assert_eq!(
        DegreeHistogram::try_from_canonical_bytes(&forward_bytes, 19),
        Err(DegreeHistogramCodecError::ProfileMismatch {
            expected_maximum: 19,
            actual_maximum: 20,
        })
    );
    assert_eq!(decoded.to_canonical_bytes().expect("decoded histogram"), forward_bytes);
}

#[test]
fn degree_histogram_canonical_decoder_rejects_noncanonical_or_incomplete_values() {
    let mut histogram = DegreeHistogram::new(20);
    for degree in [0, 1, 2, 3] {
        histogram.try_observe(degree).expect("within ceiling");
    }
    let encoded = histogram.to_canonical_bytes().expect("valid histogram");

    let mut wrong_magic = encoded;
    wrong_magic[0] ^= 1;
    assert!(matches!(
        DegreeHistogram::try_from_canonical_bytes(&wrong_magic, 20),
        Err(DegreeHistogramCodecError::MagicMismatch { .. })
    ));

    let mut wrong_version = encoded;
    wrong_version[8..10].copy_from_slice(&2_u16.to_be_bytes());
    assert_eq!(
        DegreeHistogram::try_from_canonical_bytes(&wrong_version, 20),
        Err(DegreeHistogramCodecError::UnsupportedVersion { actual: 2 })
    );

    let mut wrong_bucket_count = encoded;
    wrong_bucket_count[10..12].copy_from_slice(&64_u16.to_be_bytes());
    assert_eq!(
        DegreeHistogram::try_from_canonical_bytes(&wrong_bucket_count, 20),
        Err(DegreeHistogramCodecError::BucketCountMismatch { actual: 64 })
    );

    let mut wrong_total = encoded;
    wrong_total[27] ^= 1;
    assert!(matches!(
        DegreeHistogram::try_from_canonical_bytes(&wrong_total, 20),
        Err(DegreeHistogramCodecError::TotalMismatch { .. })
            | Err(DegreeHistogramCodecError::ObservationLimitExceeded { .. })
    ));

    assert_eq!(
        DegreeHistogram::try_from_canonical_bytes(&encoded[..encoded.len() - 1], 20),
        Err(DegreeHistogramCodecError::EncodedLengthMismatch {
            expected: DEGREE_HISTOGRAM_CANONICAL_BYTES,
            actual: DEGREE_HISTOGRAM_CANONICAL_BYTES - 1,
        })
    );

    let mut trailing = encoded.to_vec();
    trailing.push(0);
    assert_eq!(
        DegreeHistogram::try_from_canonical_bytes(&trailing, 20),
        Err(DegreeHistogramCodecError::EncodedLengthMismatch {
            expected: DEGREE_HISTOGRAM_CANONICAL_BYTES,
            actual: DEGREE_HISTOGRAM_CANONICAL_BYTES + 1,
        })
    );
}

fn part(values: &[u64]) -> DegreeHistogram {
    let mut histogram = DegreeHistogram::new(100);
    for &value in values {
        histogram.try_observe(value).expect("within ceiling");
    }
    histogram
}

#[test]
fn merge_is_checked_commutative_and_associative() {
    let a = part(&[0, 1, 3]);
    let b = part(&[2, 8, 9]);
    let c = part(&[u64::MAX, 16]);

    let mut left = a.clone();
    left.try_merge(&b).expect("matching profile");
    let mut right = b.clone();
    right.try_merge(&a).expect("matching profile");
    assert_eq!(left, right);

    let mut ab_c = left;
    ab_c.try_merge(&c).expect("matching profile");
    let mut bc = b;
    bc.try_merge(&c).expect("matching profile");
    let mut a_bc = a;
    a_bc.try_merge(&bc).expect("matching profile");
    assert_eq!(ab_c, a_bc);
}

#[test]
fn profile_and_count_failures_are_atomic() {
    let mut histogram = DegreeHistogram::new(1);
    histogram.try_observe(7).expect("first observation");
    let before = histogram.clone();
    assert_eq!(
        histogram.try_observe(9),
        Err(DegreeHistogramError::ObservationLimitExceeded { maximum: 1 })
    );
    assert_eq!(histogram, before);

    let other = DegreeHistogram::new(2);
    assert_eq!(
        histogram.try_merge(&other),
        Err(DegreeHistogramError::ProfileMismatch {
            left_maximum: 1,
            right_maximum: 2,
        })
    );
    assert_eq!(histogram, before);
}

#[test]
fn removing_an_observed_degree_restores_the_histogram() {
    let mut histogram = part(&[5, 6, 40]);
    let before = histogram.clone();
    histogram.try_observe(1000).unwrap();
    assert_eq!(histogram.len(), 4);
    histogram.try_remove(1000).unwrap();
    assert_eq!(histogram, before);
    assert_eq!(histogram.canonical_counts().len(), DEGREE_BUCKETS);
    assert_eq!(histogram.canonical_counts()[3], 2);
    assert_eq!(histogram.canonical_counts()[6], 1);
    assert_eq!(histogram.bucket(65), None);
    assert_eq!(
        histogram.bucket(3),
        Some(DegreeBucket { index: 3, lower: 4, upper: 7, count: 2 })
    );
    assert!(DegreeHistogram::new(3).is_empty());
    assert_eq!(histogram.max_observations(), 100);
}
