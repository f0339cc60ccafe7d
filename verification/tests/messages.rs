use fgdb::bottom_k::{BottomKAllocationTarget, BottomKError};
use fgdb::count_min::{CountMinCodecError, CountMinError};
use fgdb::distinct::DistinctError;
use fgdb::evidence::{ClassOrderViolation, ReplayClass, ReplayCompletenessError};
use fgdb::hash_table::HashTableError;
use fgdb::identity::DatabaseId;
use fgdb::ledger::{
    BucketStateError, ChargeId, DurableChargeAxis, DurableVectorError, LedgerError, OwnerHold,
    QuotaPath, QuotaPathError, QuotaSegment, ReservationId,
};
use fgdb::levenshtein::{LevenshteinAllocation, LevenshteinError};
use fgdb::maintenance_log::{SketchMaintenanceCodecError, SketchMaintenanceLogError};
use fgdb::succinct::{AllocationTarget, BitVectorError};
use fgdb::zone_map::{ZoneMapError, ZoneMapProfile};

#[test]
fn collection_failures_print_their_fields() {
    assert_eq!(
        HashTableError::AllocationFailed.message(),
        "deterministic hash-table allocation failed"
    );
    assert_eq!(
        LevenshteinError::AllocationFailed { target: LevenshteinAllocation::State, requested: 12 }
            .message(),
        "could not reserve 12 entries for Levenshtein State"
    );
    assert_eq!(
        BitVectorError::NonZeroPadding { bit_len: 3, word_index: 0, word: 0xf0, non_zero_padding: 0xf0 }
            .message(),
        "word 0 has non-zero padding 0x00000000000000f0 outside bit length 3"
    );
    assert_eq!(
        BitVectorError::SizeOverflow { target: AllocationTarget::RankSubblocks }.message(),
        "RankSubblocks representation size overflowed"
    );
}

#[test]
fn sketch_failures_print_their_fields() {
    assert_eq!(
        DistinctError::PrecisionOutOfRange { requested: 3, minimum: 4, maximum: 16 }.message(),
        "distinct-sketch precision 3 is outside 4..=16"
    );
    assert_eq!(
        CountMinError::EmptyDimension { width: 0, depth: 7 }.message(),
        "Count-Min dimensions must be nonzero, got 0x7"
    );
    assert_eq!(
        CountMinCodecError::MagicMismatch { actual: [1, 2, 3, 4, 5, 6, 7, 8] }.message(),
        "MagicMismatch { actual: [1, 2, 3, 4, 5, 6, 7, 8] }"
    );
    assert_eq!(
        CountMinCodecError::State(CountMinError::RebuildRequired { requested_weight: 9 }).message(),
        "State(RebuildRequired { requested_weight: 9 })"
    );
    assert_eq!(
        BottomKError::RebuildRequired { observation_hash: 0xabc }.message(),
        "removing retained bottom-k observation 0x0000000000000abc requires rebuild"
    );
    assert_eq!(
        BottomKError::AllocationFailed { target: BottomKAllocationTarget::MergeDirectory, requested: 4 }
            .message(),
        "could not reserve 4 units for bottom-k MergeDirectory"
    );
    let left = ZoneMapProfile { max_value_bytes: 8, max_observations: 100 };
    let right = ZoneMapProfile { max_value_bytes: 16, max_observations: 100 };
    assert_eq!(
        ZoneMapError::ProfileMismatch { left, right }.message(),
        "cannot merge zone maps with profiles ZoneMapProfile { max_value_bytes: 8, max_observations: 100 } and ZoneMapProfile { max_value_bytes: 16, max_observations: 100 }"
    );
    assert_eq!(
        SketchMaintenanceLogError::InvalidRecord(SketchMaintenanceCodecError::RecordVersion {
            version: 2,
        })
        .message(),
        "invalid maintenance record: RecordVersion { version: 2 }"
    );
    assert_eq!(
        SketchMaintenanceLogError::InvalidProfile { max_records: 0 }.message(),
        "sketch maintenance max_records must be in 1..=1048576, got 0"
    );
}

#[test]
fn evidence_failures_print_their_fields() {
    assert_eq!(
        ReplayCompletenessError::ClassesNotStrictlySorted {
            list: "omitted",
            previous_index: 0,
            index: 1,
            previous: ReplayClass::LogicalState,
            current: ReplayClass::LogicalState,
            kind: ClassOrderViolation::Duplicate,
        }
        .message(),
        "omitted[0]=logical_state and omitted[1]=logical_state violate strict ordering (Duplicate)"
    );
}

#[test]
fn ledger_failures_print_their_debug_form() {
    assert_eq!(
        DurableVectorError::Underflow { axis: DurableChargeAxis::ViewCount, held: 5, released: 6 }
            .message(),
        "view_count underflow: held 5, released 6"
    );
    assert_eq!(
        QuotaPathError::TooDeep { depth: 6, maximum: 5 }.message(),
        "invalid quota path: TooDeep { depth: 6, maximum: 5 }"
    );
    assert_eq!(
        BucketStateError::OrdinaryCapacityExceeded {
            axis: DurableChargeAxis::CanonicalDurableBytes,
            usage: 81,
            limit: 80,
        }
        .message(),
        "invalid resource bucket: OrdinaryCapacityExceeded { axis: CanonicalDurableBytes, usage: 81, limit: 80 }"
    );
    let path = QuotaPath::try_new(vec![
        QuotaSegment::Database(DatabaseId([1; 16])),
        QuotaSegment::Tenant(7),
    ])
    .expect("tenant path is canonical");
    assert_eq!(
        LedgerError::UnknownBucket { path }.message(),
        "resource-ledger transition rejected: UnknownBucket { path: QuotaPath([Database(DatabaseId([1, 1, 1, 1, 1, 1, 1, 1, 1, 1, 1, 1, 1, 1, 1, 1])), Tenant(7)]) }"
    );
    assert_eq!(
        LedgerError::ProtectedOwnerCannotExpire {
            reservation_id: ReservationId([0; 32]),
            hold: OwnerHold::Unheld,
        }
        .message(),
        "resource-ledger transition rejected: ProtectedOwnerCannotExpire { reservation_id: ReservationId([0, 0, 0, 0, 0, 0, 0, 0, 0, 0, 0, 0, 0, 0, 0, 0, 0, 0, 0, 0, 0, 0, 0, 0, 0, 0, 0, 0, 0, 0, 0, 0]), hold: None }"
    );
    assert_eq!(
        LedgerError::NoopAdjust { charge_id: ChargeId([2; 32]) }.message().len(),
        "resource-ledger transition rejected: NoopAdjust { charge_id: ChargeId([".len() + 32 + 31 * 2 + "]) }".len()
    );
}
