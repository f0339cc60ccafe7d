use fgdb::bottom_k::{
    canonical_tag, stable_hash, validate_canonical_state, BottomKCodecError, BottomKDecodeLimits,
    BottomKDecodeResource, BottomKError, BottomKHashAlgorithm, BottomKProfile, BottomKSample,
    BottomKSketch,
};

const CANONICAL_MAGIC: [u8; 8] = *b"FGDBBTK1";
const VERSION_OFFSET: usize = 8;
const HASH_ALGORITHM_OFFSET: usize = VERSION_OFFSET + 2;
const K_OFFSET: usize = HASH_ALGORITHM_OFFSET + 1;
const SEED_OFFSET: usize = K_OFFSET + 8;
const MAX_OBSERVATION_BYTES_OFFSET: usize = SEED_OFFSET + 8;
const MAX_SAMPLE_BYTES_OFFSET: usize = MAX_OBSERVATION_BYTES_OFFSET + 8;
const SAMPLE_BYTES_OFFSET: usize = MAX_SAMPLE_BYTES_OFFSET + 8;
const SAMPLE_COUNT_OFFSET: usize = SAMPLE_BYTES_OFFSET + 8;
const CANONICAL_HEADER_BYTES: usize = SAMPLE_COUNT_OFFSET + 8;

fn profile(k: usize) -> BottomKProfile {
    BottomKProfile::new(k, 0x424f_5454_4f4d_4b31, 64, 256)
}

fn sketch(k: usize) -> BottomKSketch {
    BottomKSketch::try_new(profile(k)).expect("bounded profile")
}

fn decode_limits(profile: BottomKProfile) -> BottomKDecodeLimits {
    BottomKDecodeLimits::new(
        usize::MAX,
        profile.k,
        profile.max_observation_bytes,
        profile.max_sample_bytes,
    )
}

fn read_fixture(
    bytes: &[u8],
    expected_profile: BottomKProfile,
) -> Result<BottomKSketch, BottomKCodecError> {
    BottomKSketch::try_from_canonical_bytes(bytes, expected_profile, decode_limits(expected_profile))
}

fn observe_all(sketch: &mut BottomKSketch, observations: &[&[u8]]) {
    for &observation in observations {
        sketch.try_observe(observation).expect("bounded observation");
    }
}

fn push_u16(bytes: &mut Vec<u8>, value: u16) {
    bytes.extend_from_slice(&value.to_be_bytes());
}

fn push_u64(bytes: &mut Vec<u8>, value: u64) {
    bytes.extend_from_slice(&value.to_be_bytes());
}

fn raw_canonical_bytes(
    profile: BottomKProfile,
    declared_sample_bytes: usize,
    samples: &[(u64, &[u8])],
) -> Vec<u8> {
    let mut bytes = Vec::new();
    bytes.extend_from_slice(&CANONICAL_MAGIC);
    push_u16(&mut bytes, 1);
    bytes.push(canonical_tag(profile.hash_algorithm));
    push_u64(&mut bytes, u64::try_from(profile.k).expect("test profile fits u64"));
    push_u64(&mut bytes, profile.seed);
    push_u64(
        &mut bytes,
        u64::try_from(profile.max_observation_bytes).expect("test profile fits u64"),
    );
    push_u64(
        &mut bytes,
        u64::try_from(profile.max_sample_bytes).expect("test profile fits u64"),
    );
    push_u64(
        &mut bytes,
        u64::try_from(declared_sample_bytes).expect("test payload fits u64"),
    );
    push_u64(
        &mut bytes,
        u64::try_from(samples.len()).expect("test sample count fits u64"),
    );
    for &(hash, observation) in samples {
        push_u64(&mut bytes, hash);
        push_u64(
            &mut bytes,
            u64::try_from(observation.len()).expect("test observation fits u64"),
        );
        bytes.extend_from_slice(observation);
    }
    bytes
}

fn state_samples(value: &BottomKSketch) -> Vec<BottomKSample> {
    value
        .canonical_state()
        .samples
        .iter()
        .map(|sample| BottomKSample::new(sample.hash(), sample.observation().to_vec()))
        .collect()
}

#[test]
fn stable_hash_and_order_are_deterministic() {
    let observations = [&b"alpha"[..], &b"beta"[..], &b"gamma"[..], &b"delta"[..], &b"epsilon"[..]];
    let mut forward = sketch(3);
    let mut reverse = sketch(3);
    observe_all(&mut forward, &observations);
    for &observation in observations.iter().rev() {
        reverse.try_observe(observation).expect("bounded observation");
    }

    assert_eq!(forward, reverse);
    assert!(forward
        .canonical_state()
        .samples
        .windows(2)
        .all(|pair| pair[0] < pair[1]));
    assert_eq!(
        stable_hash(profile(3).hash_algorithm, profile(3).seed, b"alpha").expect("bounded hash input"),
        0x36f6_5c36_d3c8_d99c
    );
    assert_ne!(
        stable_hash(profile(3).hash_algorithm, profile(3).seed, b"alpha").expect("bounded hash input"),
        stable_hash(profile(3).hash_algorithm, profile(3).seed ^ 1, b"alpha")
            .expect("bounded hash input")
    );
}

#[test]
fn bottom_k_canonical_codec_round_trips_and_collapses_observation_order() {
    let observations = [&b"alpha"[..], &b"beta"[..], &b"gamma"[..], &b"delta"[..], &b"epsilon"[..]];
    let mut forward = sketch(4);
    let mut reverse = sketch(4);
    observe_all(&mut forward, &observations);
    for &observation in observations.iter().rev() {
        reverse.try_observe(observation).expect("bounded observation");
    }

    let forward_bytes = forward.try_to_canonical_bytes().expect("valid state encodes");
    let reverse_bytes = reverse.try_to_canonical_bytes().expect("valid state encodes");
    assert_eq!(forward_bytes, reverse_bytes);
    assert_eq!(&forward_bytes[..8], b"FGDBBTK1");
    assert_eq!(&forward_bytes[VERSION_OFFSET..HASH_ALGORITHM_OFFSET], &1_u16.to_be_bytes());
    assert_eq!(
        forward_bytes[HASH_ALGORITHM_OFFSET],
        canonical_tag(BottomKHashAlgorithm::SeededHasherV1)
    );

    let decoded = read_fixture(&forward_bytes, forward.profile()).expect("canonical value");
    assert_eq!(decoded, forward);
    assert_eq!(
        decoded.try_to_canonical_bytes().expect("decoded state re-encodes"),
        forward_bytes
    );
}

#[test]
fn canonical_decoder_requires_exact_profile_and_caller_owned_limits() {
    let mut value = sketch(4);
    observe_all(&mut value, &[b"alpha", b"beta"]);
    let encoded = value.try_to_canonical_bytes().expect("valid state encodes");
    let expected_profile = value.profile();
    let exact_limits = BottomKDecodeLimits::new(
        encoded.len(),
        expected_profile.k,
        expected_profile.max_observation_bytes,
        expected_profile.max_sample_bytes,
    );
    assert_eq!(
        BottomKSketch::try_from_canonical_bytes(&encoded, expected_profile, exact_limits)
            .expect("exact admission bounds accept the value"),
        value
    );

    let wrong_profile = BottomKProfile {
        seed: expected_profile.seed ^ 1,
        ..expected_profile
    };
    assert_eq!(
        BottomKSketch::try_from_canonical_bytes(&encoded, wrong_profile, exact_limits),
        Err(BottomKCodecError::ProfileMismatch {
            expected: wrong_profile,
            actual: expected_profile,
        })
    );
    assert_eq!(
        BottomKSketch::try_from_canonical_bytes(
            &encoded,
            expected_profile,
            BottomKDecodeLimits {
                max_encoded_bytes: encoded.len() - 1,
                ..exact_limits
            },
        ),
        Err(BottomKCodecError::DecodeLimitExceeded {
            resource: BottomKDecodeResource::EncodedBytes,
            actual: encoded.len(),
            maximum: encoded.len() - 1,
        })
    );
    assert_eq!(
        BottomKSketch::try_from_canonical_bytes(
            &encoded,
            expected_profile,
            BottomKDecodeLimits {
                max_samples: expected_profile.k - 1,
                ..exact_limits
            },
        ),
        Err(BottomKCodecError::DecodeLimitExceeded {
            resource: BottomKDecodeResource::Samples,
            actual: expected_profile.k,
            maximum: expected_profile.k - 1,
        })
    );
}

#[test]
fn empty_huge_k_profile_does_not_allocate_and_decode_admission_caps_k() {
    let huge_profile = BottomKProfile::new(usize::MAX, 7, 0, 0);
    let mut left = BottomKSketch::try_new(huge_profile).expect("nonzero profile");
    let right = BottomKSketch::try_new(huge_profile).expect("nonzero profile");
    left.try_merge(&right).expect("empty merge needs no reserve");
    assert!(left.is_empty());

    let encoded = left.try_to_canonical_bytes().expect("empty state encodes");
    assert_eq!(
        BottomKSketch::try_from_canonical_bytes(
            &encoded,
            huge_profile,
            BottomKDecodeLimits::new(encoded.len(), 1_024, 0, 0),
        ),
        Err(BottomKCodecError::DecodeLimitExceeded {
            resource: BottomKDecodeResource::Samples,
            actual: usize::MAX,
            maximum: 1_024,
        })
    );
}

#[test]
fn canonical_codec_preserves_partitioned_merge_results() {
    let left_values = [&b"a"[..], &b"d"[..], &b"g"[..], &b"shared"[..]];
    let middle_values = [&b"b"[..], &b"e"[..], &b"h"[..], &b"shared"[..]];
    let right_values = [&b"c"[..], &b"f"[..], &b"i"[..], &b"shared"[..]];

    let mut left = sketch(5);
    let mut middle = sketch(5);
    let mut right = sketch(5);
    observe_all(&mut left, &left_values);
    observe_all(&mut middle, &middle_values);
    observe_all(&mut right, &right_values);

    let mut left_associated = left.clone();
    left_associated.try_merge(&middle).expect("matching profile");
    left_associated.try_merge(&right).expect("matching profile");

    middle.try_merge(&right).expect("matching profile");
    left.try_merge(&middle).expect("matching profile");

    let left_associated_bytes = left_associated.try_to_canonical_bytes().expect("valid merged state");
    let right_associated_bytes = left.try_to_canonical_bytes().expect("valid merged state");
    assert_eq!(left_associated_bytes, right_associated_bytes);
    assert_eq!(
        read_fixture(&left_associated_bytes, left_associated.profile()).expect("canonical merged state"),
        left_associated
    );
}

#[test]
fn canonical_encoder_rejects_forged_noncanonical_state() {
    let mut valid = sketch(4);
    observe_all(&mut valid, &[b"alpha", b"beta", b"gamma"]);
    let profile = valid.profile();
    let samples = state_samples(&valid);
    assert_eq!(
        validate_canonical_state(profile, valid.sample_bytes(), &samples),
        Ok(valid.try_to_canonical_bytes().unwrap().len())
    );

    let mut wrong_hash = samples.clone();
    wrong_hash[0] = BottomKSample::new(samples[0].hash() ^ 1, samples[0].observation().to_vec());
    assert!(matches!(
        validate_canonical_state(profile, valid.sample_bytes(), &wrong_hash),
        Err(BottomKCodecError::HashMismatch { index: 0, .. })
    ));

    let mut out_of_order = samples.clone();
    out_of_order.swap(0, 1);
    assert_eq!(
        validate_canonical_state(profile, valid.sample_bytes(), &out_of_order),
        Err(BottomKCodecError::SamplesOutOfOrder { index: 1 })
    );

    let mut duplicate = samples.clone();
    duplicate[1] = duplicate[0].clone();
    let duplicate_bytes = duplicate.iter().map(|sample| sample.observation().len()).sum();
    assert_eq!(
        validate_canonical_state(profile, duplicate_bytes, &duplicate),
        Err(BottomKCodecError::DuplicateSample { index: 1 })
    );

    assert!(matches!(
        validate_canonical_state(profile, valid.sample_bytes() + 1, &samples),
        Err(BottomKCodecError::SampleByteCountMismatch { .. })
    ));
}

#[test]
fn canonical_decoder_rejects_malformed_headers_and_lengths_before_allocation() {
    let mut value = sketch(4);
    observe_all(&mut value, &[b"alpha", b"beta", b"gamma"]);
    let encoded = value.try_to_canonical_bytes().expect("valid state encodes");

    let mut wrong_magic = encoded.clone();
    wrong_magic[0] ^= 1;
    assert!(matches!(
        read_fixture(&wrong_magic, value.profile()),
        Err(BottomKCodecError::MagicMismatch { .. })
    ));

    let mut wrong_version = encoded.clone();
    wrong_version[VERSION_OFFSET..HASH_ALGORITHM_OFFSET].copy_from_slice(&2_u16.to_be_bytes());
    assert_eq!(
        read_fixture(&wrong_version, value.profile()),
        Err(BottomKCodecError::UnsupportedVersion { actual: 2 })
    );

    let mut wrong_hash_algorithm = encoded.clone();
    wrong_hash_algorithm[HASH_ALGORITHM_OFFSET] = 2;
    assert_eq!(
        read_fixture(&wrong_hash_algorithm, value.profile()),
        Err(BottomKCodecError::UnsupportedHashAlgorithm { actual: 2 })
    );

    let mut count_exceeds_k = encoded.clone();
    count_exceeds_k[SAMPLE_COUNT_OFFSET..CANONICAL_HEADER_BYTES].copy_from_slice(&5_u64.to_be_bytes());
    assert_eq!(
        read_fixture(&count_exceeds_k, value.profile()),
        Err(BottomKCodecError::SampleCountExceedsProfile {
            actual: 5,
            maximum: 4,
        })
    );

    let mut impossible_count = raw_canonical_bytes(profile(1_000_000), 0, &[]);
    impossible_count[SAMPLE_COUNT_OFFSET..CANONICAL_HEADER_BYTES]
        .copy_from_slice(&1_000_000_u64.to_be_bytes());
    assert!(matches!(
        read_fixture(&impossible_count, profile(1_000_000)),
        Err(BottomKCodecError::Truncated {
            offset: CANONICAL_HEADER_BYTES,
            ..
        })
    ));

    for end in 0..encoded.len() {
        assert!(
            matches!(
                read_fixture(&encoded[..end], value.profile()),
                Err(BottomKCodecError::Truncated { .. })
            ),
            "prefix ending at byte {end} was not rejected as truncated"
        );
    }

    let mut trailing = encoded;
    trailing.push(0);
    assert_eq!(
        read_fixture(&trailing, value.profile()),
        Err(BottomKCodecError::TrailingBytes {
            offset: trailing.len() - 1,
            remaining: 1,
        })
    );
}

#[test]
fn canonical_decoder_rejects_invalid_hash_order_distinctness_and_byte_state() {
    let mut value = sketch(4);
    observe_all(&mut value, &[b"alpha", b"beta", b"gamma"]);
    let state = value.canonical_state();
    let first = &state.samples[0];
    let second = &state.samples[1];

    let mut wrong_hash = raw_canonical_bytes(
        state.profile,
        first.observation().len(),
        &[(first.hash() ^ 1, first.observation())],
    );
    assert!(matches!(
        read_fixture(&wrong_hash, state.profile),
        Err(BottomKCodecError::HashMismatch { index: 0, .. })
    ));

    let reversed_bytes = first
        .observation()
        .len()
        .checked_add(second.observation().len())
        .expect("test payload fits");
    let reversed = raw_canonical_bytes(
        state.profile,
        reversed_bytes,
        &[
            (second.hash(), second.observation()),
            (first.hash(), first.observation()),
        ],
    );
    assert_eq!(
        read_fixture(&reversed, state.profile),
        Err(BottomKCodecError::SamplesOutOfOrder { index: 1 })
    );

    let duplicate_bytes = first.observation().len().checked_mul(2).expect("test payload fits");
    let duplicate = raw_canonical_bytes(
        state.profile,
        duplicate_bytes,
        &[
            (first.hash(), first.observation()),
            (first.hash(), first.observation()),
        ],
    );
    assert_eq!(
        read_fixture(&duplicate, state.profile),
        Err(BottomKCodecError::DuplicateSample { index: 1 })
    );

    wrong_hash[MAX_OBSERVATION_BYTES_OFFSET..MAX_SAMPLE_BYTES_OFFSET]
        .copy_from_slice(&0_u64.to_be_bytes());
    let zero_observation_profile = BottomKProfile {
        max_observation_bytes: 0,
        ..state.profile
    };
    assert!(matches!(
        read_fixture(&wrong_hash, zero_observation_profile),
        Err(BottomKCodecError::State(BottomKError::ObservationTooLarge { maximum: 0, .. }))
    ));

    let actual_bytes = first.observation().len();
    let mut wrong_total =
        raw_canonical_bytes(state.profile, actual_bytes + 1, &[(first.hash(), first.observation())]);
    wrong_total.push(0);
    assert_eq!(
        read_fixture(&wrong_total, state.profile),
        Err(BottomKCodecError::SampleByteCountMismatch {
            declared: actual_bytes + 1,
            actual: actual_bytes,
        })
    );

    let mut over_limit =
        raw_canonical_bytes(state.profile, actual_bytes, &[(first.hash(), first.observation())]);
    over_limit[MAX_SAMPLE_BYTES_OFFSET..SAMPLE_BYTES_OFFSET].copy_from_slice(
        &u64::try_from(actual_bytes - 1).expect("test payload fits").to_be_bytes(),
    );
    let over_limit_profile = BottomKProfile {
        max_sample_bytes: actual_bytes - 1,
        ..state.profile
    };
    assert_eq!(
        read_fixture(&over_limit, over_limit_profile),
        Err(BottomKCodecError::State(BottomKError::SampleByteLimitExceeded {
            requested: actual_bytes,
            maximum: actual_bytes - 1,
        }))
    );
}

#[test]
fn duplicate_observations_are_idempotent() {
    let mut value = sketch(4);
    value.try_observe(b"same").expect("first observation");
    let before = value.clone();
    for _ in 0..20 {
        value.try_observe(b"same").expect("duplicate observation");
    }
    assert_eq!(value, before);
    assert_eq!(value.len(), 1);
    assert_eq!(value.sample_bytes(), 4);
}

fn part(entries: &[&[u8]]) -> BottomKSketch {
    let mut value = sketch(5);
    observe_all(&mut value, entries);
    value
}

#[test]
fn bottom_k_merge_is_commutative_associative_and_idempotent() {
    let a = part(&[b"a", b"d", b"g", b"shared"]);
    let b = part(&[b"b", b"e", b"h", b"shared"]);
    let c = part(&[b"c", b"f", b"i", b"shared"]);

    let mut ab = a.clone();
    ab.try_merge(&b).expect("matching profile");
    let mut ba = b.clone();
    ba.try_merge(&a).expect("matching profile");
    assert_eq!(ab, ba);

    let mut ab_c = ab;
    ab_c.try_merge(&c).expect("matching profile");
    let mut bc = b;
    bc.try_merge(&c).expect("matching profile");
    let mut a_bc = a.clone();
    a_bc.try_merge(&bc).expect("matching profile");
    assert_eq!(ab_c, a_bc);

    let before = a.clone();
    let mut idempotent = a;
    idempotent.try_merge(&before).expect("identical profile and state");
    assert_eq!(idempotent, before);
}

#[test]
fn merged_sample_equals_naive_sorted_distinct_union() {
    let left_values = [&b"one"[..], &b"two"[..], &b"three"[..], &b"shared"[..]];
    let right_values = [&b"four"[..], &b"five"[..], &b"six"[..], &b"shared"[..]];
    let mut left = sketch(4);
    let mut right = sketch(4);
    observe_all(&mut left, &left_values);
    observe_all(&mut right, &right_values);
    left.try_merge(&right).expect("matching profile");

    let mut expected = left_values
        .into_iter()
        .chain(right_values)
        .map(|bytes| {
            (
                stable_hash(profile(4).hash_algorithm, profile(4).seed, bytes).expect("bounded hash input"),
                bytes,
            )
        })
        .collect::<Vec<_>>();
    expected.sort();
    expected.dedup();
    expected.truncate(4);
    let actual = left
        .canonical_state()
        .samples
        .iter()
        .map(|sample| (sample.hash(), sample.observation()))
        .collect::<Vec<_>>();
    assert_eq!(actual, expected);
}

#[test]
fn construction_observation_and_merge_limits_are_atomic() {
    assert_eq!(BottomKSketch::try_new(profile(0)), Err(BottomKError::EmptySampleSize));

    let constrained_profile = BottomKProfile::new(2, 7, 3, 5);
    let mut constrained = BottomKSketch::try_new(constrained_profile).expect("bounded profile");
    assert_eq!(
        constrained.try_observe(b"four"),
        Err(BottomKError::ObservationTooLarge {
            bytes: 4,
            maximum: 3,
        })
    );
    constrained.try_observe(b"aaa").expect("first sample fits");
    let before = constrained.clone();
    assert_eq!(
        constrained.try_observe(b"bbb"),
        Err(BottomKError::SampleByteLimitExceeded {
            requested: 6,
            maximum: 5,
        })
    );
    assert_eq!(constrained, before);

    let mut left = BottomKSketch::try_new(constrained_profile).expect("bounded profile");
    let mut right = BottomKSketch::try_new(constrained_profile).expect("bounded profile");
    left.try_observe(b"aaa").expect("individual sample fits");
    right.try_observe(b"bbb").expect("individual sample fits");
    let before = left.clone();
    assert_eq!(
        left.try_merge(&right),
        Err(BottomKError::SampleByteLimitExceeded {
            requested: 6,
            maximum: 5,
        })
    );
    assert_eq!(left, before);

    let different = BottomKSketch::try_new(BottomKProfile {
        seed: constrained_profile.seed ^ 1,
        ..constrained_profile
    })
    .expect("bounded profile");
    assert_eq!(left.try_merge(&different), Err(BottomKError::ProfileMismatch));
    assert_eq!(left, before);
}

#[test]
fn deletion_is_exact_when_complete_and_rebuilds_when_saturated() {
    let mut complete = sketch(4);
    observe_all(&mut complete, &[b"a", b"b", b"c"]);
    assert_eq!(complete.try_remove(b"absent"), Ok(()));
    complete.try_remove(b"b").expect("complete set can delete");
    assert_eq!(complete.try_contains(b"b"), Ok(false));
    assert_eq!(complete.len(), 2);

    let mut saturated = sketch(2);
    let candidates = [&b"a"[..], &b"b"[..], &b"c"[..], &b"d"[..], &b"e"[..]];
    observe_all(&mut saturated, &candidates);
    let retained = saturated
        .canonical_state()
        .samples
        .iter()
        .map(|sample| sample.observation().to_vec())
        .collect::<Vec<_>>();
    let retained_observation = retained[0].clone();
    let unretained = candidates
        .iter()
        .find(|candidate| !retained.iter().any(|sample| sample == *candidate))
        .copied()
        .expect("more candidates than retained samples");

    let before = saturated.clone();
    assert_eq!(
        saturated.try_remove(&retained_observation),
        Err(BottomKError::RebuildRequired {
            observation_hash: stable_hash(profile(2).hash_algorithm, profile(2).seed, &retained_observation)
                .expect("bounded hash input"),
        })
    );
    assert_eq!(saturated, before);
    assert_eq!(saturated.try_remove(unretained), Ok(()));
    assert_eq!(saturated, before);
}

#[test]
fn threshold_and_membership_follow_the_retained_sample() {
    let mut value = sketch(2);
    assert_eq!(value.threshold(), None);
    assert!(!value.is_saturated());
    observe_all(&mut value, &[b"x", b"y", b"z"]);
    assert!(value.is_saturated());
    let state_last = value.canonical_state().samples[1].clone();
    assert_eq!(value.threshold(), Some(&state_last));
    let hash = value.try_hash(b"x").unwrap();
    assert_eq!(hash, stable_hash(profile(2).hash_algorithm, profile(2).seed, b"x").unwrap());
    let retained = value.canonical_state().samples.iter().any(|s| s.observation() == b"x");
    assert_eq!(value.try_contains(b"x"), Ok(retained));
    let big = [0_u8; 65];
    assert_eq!(
        value.try_hash(&big),
        Err(BottomKError::ObservationTooLarge { bytes: 65, maximum: 64 })
    );
}
