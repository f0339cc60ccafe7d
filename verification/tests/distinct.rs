use fgdb::distinct::{
    index_and_rank, maximum_rank, DistinctError, DistinctEstimateMethod, DistinctProfile,
    DistinctSketch, DEFAULT_MAX_REGISTERS, MAX_PRECISION, MIN_PRECISION,
};

fn profile() -> DistinctProfile {
    DistinctProfile {
        precision: 12,
        seed: 0x484c_4c44_4953_5431,
        max_registers: 1 << 12,
    }
}

fn sketch() -> Result<DistinctSketch, DistinctError> {
    DistinctSketch::try_new(profile())
}

fn populated(keys: &[u64]) -> Result<DistinctSketch, DistinctError> {
    let mut value = sketch()?;
    for key in keys {
        value.observe(&key.to_le_bytes());
    }
    Ok(value)
}

struct Case {
    name: &'static str,
    cardinality: u64,
    tolerance_parts_per_million: u64,
}

#[test]
fn construction_enforces_precision_and_resource_ceiling() {
    assert_eq!(
        DistinctSketch::try_new(DistinctProfile::new(MIN_PRECISION - 1, 1)),
        Err(DistinctError::PrecisionOutOfRange {
            requested: MIN_PRECISION - 1,
            minimum: MIN_PRECISION,
            maximum: MAX_PRECISION,
        })
    );
    assert_eq!(
        DistinctSketch::try_new(DistinctProfile::new(MAX_PRECISION + 1, 1)),
        Err(DistinctError::PrecisionOutOfRange {
            requested: MAX_PRECISION + 1,
            minimum: MIN_PRECISION,
            maximum: MAX_PRECISION,
        })
    );
    assert_eq!(
        DistinctSketch::try_new(DistinctProfile {
            precision: 10,
            seed: 1,
            max_registers: 1_023,
        }),
        Err(DistinctError::RegisterLimitExceeded {
            requested: 1_024,
            limit: 1_023,
        })
    );
    assert_eq!(DistinctProfile::new(MAX_PRECISION, 7).max_registers, DEFAULT_MAX_REGISTERS);
}

#[test]
fn index_and_rank_cover_first_last_and_zero_suffix_boundaries() {
    assert_eq!(index_and_rank(0, 4), (0, maximum_rank(4)));
    assert_eq!(index_and_rank(0xf000_0000_0000_0000, 4), (15, maximum_rank(4)));
    assert_eq!(index_and_rank(0x0800_0000_0000_0000, 4), (0, 1));
    assert_eq!(index_and_rank(0x0400_0000_0000_0000, 4), (0, 2));
    assert_eq!(index_and_rank(0xffff_f800_0000_0000, 20), ((1 << 20) - 1, 1));
    assert_eq!(maximum_rank(MIN_PRECISION), 61);
    assert_eq!(maximum_rank(MAX_PRECISION), 45);
}

#[test]
fn observation_is_canonical_and_order_duplicate_independent() -> Result<(), DistinctError> {
    let keys: Vec<u64> = (0_u64..2_000).collect();
    let mut forward = populated(&keys)?;
    let reverse_keys: Vec<u64> = keys.iter().rev().copied().collect();
    let mut reverse = populated(&reverse_keys)?;
    for key in &keys {
        forward.observe(&key.to_le_bytes());
        reverse.observe(&key.to_le_bytes());
    }
    assert_eq!(forward.canonical_state(), reverse.canonical_state());

    let same_seed = populated(&keys)?;
    assert_eq!(forward.canonical_state(), same_seed.canonical_state());
    let mut other_profile = profile();
    other_profile.seed ^= 1;
    let mut other = DistinctSketch::try_new(other_profile)?;
    for key in &keys {
        other.observe(&key.to_le_bytes());
    }
    assert_ne!(forward.canonical_state().registers, other.canonical_state().registers);
    Ok(())
}

#[test]
fn distinct_merge_is_commutative_associative_and_idempotent() -> Result<(), DistinctError> {
    let a = populated(&(0_u64..2_000).collect::<Vec<_>>())?;
    let b = populated(&(1_000_u64..3_000).collect::<Vec<_>>())?;
    let c = populated(&(2_500_u64..4_000).collect::<Vec<_>>())?;

    let mut ab = a.clone();
    ab.try_merge(&b)?;
    let mut ba = b.clone();
    ba.try_merge(&a)?;
    assert_eq!(ab, ba);

    let mut ab_c = a.clone();
    ab_c.try_merge(&b)?;
    ab_c.try_merge(&c)?;
    let mut bc = b;
    bc.try_merge(&c)?;
    let mut a_bc = a.clone();
    a_bc.try_merge(&bc)?;
    assert_eq!(ab_c, a_bc);

    let before = a.clone();
    let mut idempotent = a.clone();
    idempotent.try_merge(&a)?;
    assert_eq!(idempotent, before);
    Ok(())
}

#[test]
fn deletion_and_profile_mismatch_are_typed_and_atomic() -> Result<(), DistinctError> {
    let mut value = populated(&(0_u64..100).collect::<Vec<_>>())?;
    let before = value.clone();
    assert_eq!(value.try_remove(&42_u64.to_le_bytes()), Err(DistinctError::RebuildRequired));
    assert_eq!(value, before);

    for mutate in [
        DistinctProfile {
            seed: profile().seed ^ 1,
            ..profile()
        },
        DistinctProfile {
            max_registers: profile().max_registers + 1,
            ..profile()
        },
        DistinctProfile {
            precision: profile().precision + 1,
            max_registers: 1 << (profile().precision + 1),
            ..profile()
        },
    ] {
        let other = DistinctSketch::try_new(mutate)?;
        assert_eq!(value.try_merge(&other), Err(DistinctError::ProfileMismatch));
        assert_eq!(value, before);
    }
    Ok(())
}

#[test]
fn integer_estimates_track_named_synthetic_cardinalities() -> Result<(), DistinctError> {
    let cases = [
        Case { name: "empty", cardinality: 0, tolerance_parts_per_million: 0 },
        Case { name: "singleton", cardinality: 1, tolerance_parts_per_million: 0 },
        Case { name: "tiny-10", cardinality: 10, tolerance_parts_per_million: 100_000 },
        Case { name: "small-1k", cardinality: 1_000, tolerance_parts_per_million: 60_000 },
        Case { name: "medium-10k", cardinality: 10_000, tolerance_parts_per_million: 60_000 },
        Case { name: "large-100k", cardinality: 100_000, tolerance_parts_per_million: 60_000 },
    ];

    for case in cases {
        let mut value = DistinctSketch::try_new(DistinctProfile {
            precision: 14,
            seed: 0x5359_4e54_4845_5449,
            max_registers: 1 << 14,
        })?;
        for key in 0..case.cardinality {
            value.observe(&key.to_le_bytes());
        }
        let estimate = value.estimate();
        let error = estimate.abs_diff(case.cardinality);
        let permitted = case.cardinality.saturating_mul(case.tolerance_parts_per_million) / 1_000_000;
        assert!(
            error <= permitted,
            "{}: estimate {estimate}, truth {}, error {error}, permitted {permitted}",
            case.name,
            case.cardinality
        );
        let fixed = value.estimate_fixed();
        assert_eq!(fixed.rounded(), estimate);
        if case.cardinality == 0 {
            assert_eq!(fixed.method, DistinctEstimateMethod::LinearCounting);
            assert_eq!(fixed.scaled, 0);
        }
    }
    Ok(())
}

#[test]
fn registers_only_grow_and_accessors_reflect_the_profile() -> Result<(), DistinctError> {
    let mut value = sketch()?;
    assert_eq!(value.register_count(), 1 << 12);
    assert_eq!(value.maximum_rank(), maximum_rank(12));
    assert_eq!(value.profile(), profile());
    assert!(value.canonical_state().registers.iter().all(|&r| r == 0));
    let first = value.observe(b"k");
    assert!(first);
    assert!(!value.observe(b"k"));
    let fixed = value.estimate_fixed();
    assert_eq!(fixed.floor(), fixed.rounded());
    assert_eq!(value.estimate(), 1);
    Ok(())
}
