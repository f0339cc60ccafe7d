use fgdb::identity::{BranchId, DatabaseId, DatabaseSecurityNamespaceId, GraphId, ObjectId};
use fgdb::ledger::{
    AppliedOperation, ApplyDisposition, BucketState, BucketStateError, ChargeId, DurableChargeAxis,
    DurableChargeVector, DurableVectorError, ExpiryEvidence, LedgerError, LedgerOperation,
    LedgerSubject, OwnerHold, QuotaPath, QuotaPathError, QuotaSegment, ReservationId,
    ResourceAccountingRole, ResourceClass, ResourceLedger, ResourceLedgerIdentity,
    ResourceLedgerTransition, ResourceOwnerKey, StableSubjectKey, TimeEvidenceClassification,
    TransitionHeader, TransitionId,
};

fn vector(bytes: u64) -> DurableChargeVector {
    DurableChargeVector {
        canonical_durable_bytes: bytes,
        retained_history_bytes: bytes / 2,
        branch_count: u64::from(bytes != 0),
        index_count: 0,
        view_count: 0,
        subscription_count: 0,
    }
}

fn capacity(value: u64) -> DurableChargeVector {
    DurableChargeVector {
        canonical_durable_bytes: value,
        retained_history_bytes: value,
        branch_count: value,
        index_count: value,
        view_count: value,
        subscription_count: value,
    }
}

fn db_path() -> QuotaPath {
    QuotaPath::try_new(vec![QuotaSegment::Database(DatabaseId([1; 16]))])
        .expect("database path is canonical")
}

fn tenant_path() -> QuotaPath {
    QuotaPath::try_new(vec![
        QuotaSegment::Database(DatabaseId([1; 16])),
        QuotaSegment::Tenant(7),
    ])
    .expect("tenant path is canonical")
}

fn graph_path() -> QuotaPath {
    QuotaPath::try_new(vec![
        QuotaSegment::Database(DatabaseId([1; 16])),
        QuotaSegment::Tenant(7),
        QuotaSegment::Graph(GraphId(11)),
    ])
    .expect("graph path is canonical")
}

fn branch_path(branch: u128) -> QuotaPath {
    QuotaPath::try_new(vec![
        QuotaSegment::Database(DatabaseId([1; 16])),
        QuotaSegment::Tenant(7),
        QuotaSegment::Graph(GraphId(11)),
        QuotaSegment::Branch(BranchId(branch)),
    ])
    .expect("branch path is canonical")
}

fn owner(seed: u8) -> ResourceOwnerKey {
    ResourceOwnerKey::DurableObject {
        object_class: 3,
        stable_logical_owner_key: [seed; 32],
    }
}

fn maintenance_owner(seed: u8) -> ResourceOwnerKey {
    ResourceOwnerKey::Maintenance {
        job_id: [seed; 32],
        registered_class: u16::from(seed),
    }
}

fn identity() -> ResourceLedgerIdentity {
    ResourceLedgerIdentity {
        database_security_namespace_id: DatabaseSecurityNamespaceId([2; 32]),
        cluster_incarnation: [3; 16],
        role: ResourceAccountingRole::Local,
        limit_policy_oid: ObjectId([4; 32]),
        limit_policy_epoch: 5,
    }
}

fn ledger_with_limit(limit: u64, reserve: u64) -> ResourceLedger {
    let state = BucketState::empty(capacity(limit), capacity(reserve))
        .expect("fixture limits are internally consistent");
    ResourceLedger::try_new(
        identity(),
        &[
            (db_path(), state),
            (tenant_path(), state),
            (graph_path(), state),
            (branch_path(13), state),
            (branch_path(17), state),
        ],
    )
    .expect("fixture contains every ancestor")
}

fn transition(
    ledger: &ResourceLedger,
    seed: u8,
    owner: ResourceOwnerKey,
    path: QuotaPath,
    class: ResourceClass,
    operation: LedgerOperation,
) -> ResourceLedgerTransition {
    ResourceLedgerTransition {
        header: TransitionHeader {
            expected_ledger_identity: ledger.identity(),
            transition_id: TransitionId([seed; 32]),
            idempotency_key_digest: [seed.wrapping_add(1); 32],
            expected_ledger_generation: ledger.generation(),
            owner,
            resource_class: class,
            quota_path: path,
        },
        operation,
        body_digest: [seed.wrapping_add(2); 32],
    }
}

#[test]
fn quota_paths_require_the_exact_root_to_leaf_shape() {
    assert_eq!(QuotaPath::try_new(Vec::new()), Err(QuotaPathError::Empty));
    assert!(matches!(
        QuotaPath::try_new(vec![QuotaSegment::Tenant(1)]),
        Err(QuotaPathError::MissingDatabaseRoot { .. })
    ));
    assert!(matches!(
        QuotaPath::try_new(vec![
            QuotaSegment::Database(DatabaseId([0; 16])),
            QuotaSegment::Graph(GraphId(1)),
        ]),
        Err(QuotaPathError::NonCanonicalLevel { .. })
    ));
}

#[test]
fn reserve_updates_each_ancestor_once_and_replay_is_idempotent() {
    let mut ledger = ledger_with_limit(100, 10);
    let reservation_id = ReservationId([10; 32]);
    let tx = transition(
        &ledger,
        20,
        owner(1),
        branch_path(13),
        ResourceClass::Ordinary,
        LedgerOperation::Reserve {
            reservation_id,
            vector: vector(25),
            hold: OwnerHold::Unheld,
        },
    );
    let applied = ledger.apply(&tx).expect("reservation fits");
    assert_eq!(applied.disposition, ApplyDisposition::Applied);
    for path in [db_path(), tenant_path(), graph_path(), branch_path(13)] {
        assert_eq!(
            ledger
                .bucket(&path)
                .expect("ancestor bucket exists")
                .ordinary_reserved(),
            vector(25)
        );
    }
    assert_eq!(
        ledger
            .bucket(&branch_path(17))
            .expect("unrelated bucket exists")
            .ordinary_reserved(),
        DurableChargeVector::zero()
    );
    let replay = ledger.apply(&tx).expect("exact retry replays");
    assert_eq!(replay.disposition, ApplyDisposition::Replayed);
    assert_eq!(replay.ledger_generation, 1);

    let mut drift = tx.clone();
    drift.body_digest[0] ^= 1;
    assert!(matches!(
        ledger.apply(&drift),
        Err(LedgerError::IdempotencyBodyDrift { .. })
    ));

    let mut semantic_drift = tx.clone();
    semantic_drift.header.idempotency_key_digest[0] ^= 1;
    assert_eq!(
        ledger.apply(&semantic_drift),
        Err(LedgerError::IdempotencySemanticDrift {
            transition_id: tx.header.transition_id,
        })
    );
    assert_eq!(ledger.generation(), 1);
}

#[test]
fn protected_reserve_is_unavailable_to_ordinary_but_available_to_maintenance() {
    let mut ordinary = ledger_with_limit(100, 20);
    let ordinary_tx = transition(
        &ordinary,
        30,
        owner(2),
        branch_path(13),
        ResourceClass::Ordinary,
        LedgerOperation::Reserve {
            reservation_id: ReservationId([31; 32]),
            vector: vector(81),
            hold: OwnerHold::Unheld,
        },
    );
    assert!(matches!(
        ordinary.apply(&ordinary_tx),
        Err(LedgerError::BucketRejected {
            cause: BucketStateError::OrdinaryCapacityExceeded { .. },
            ..
        })
    ));
    assert_eq!(ordinary.generation(), 0);

    let mut maintenance = ledger_with_limit(100, 20);
    let maintenance_tx = transition(
        &maintenance,
        32,
        maintenance_owner(3),
        branch_path(13),
        ResourceClass::RegisteredMaintenance,
        LedgerOperation::Reserve {
            reservation_id: ReservationId([33; 32]),
            vector: vector(20),
            hold: OwnerHold::Unheld,
        },
    );
    maintenance
        .apply(&maintenance_tx)
        .expect("registered maintenance may consume its reserve");
    assert_eq!(
        maintenance
            .bucket(&branch_path(13))
            .expect("bucket exists")
            .maintenance_reserved(),
        vector(20)
    );
}

#[test]
fn maintenance_reserve_requires_a_registered_owner_across_transfer() {
    let mut ledger = ledger_with_limit(100, 20);
    let before = ledger.clone();
    let invalid_reserve = transition(
        &ledger,
        34,
        owner(3),
        branch_path(13),
        ResourceClass::RegisteredMaintenance,
        LedgerOperation::Reserve {
            reservation_id: ReservationId([35; 32]),
            vector: vector(10),
            hold: OwnerHold::Unheld,
        },
    );
    assert_eq!(
        ledger.apply(&invalid_reserve),
        Err(LedgerError::MaintenanceReserveRequiresRegisteredOwner)
    );
    assert_eq!(ledger, before);

    let reservation_id = ReservationId([36; 32]);
    let valid_reserve = transition(
        &ledger,
        37,
        maintenance_owner(4),
        branch_path(13),
        ResourceClass::RegisteredMaintenance,
        LedgerOperation::Reserve {
            reservation_id,
            vector: vector(10),
            hold: OwnerHold::Unheld,
        },
    );
    ledger
        .apply(&valid_reserve)
        .expect("registered maintenance owner may use its lane");
    let before_transfer = ledger.clone();
    let invalid_transfer = transition(
        &ledger,
        38,
        maintenance_owner(4),
        branch_path(13),
        ResourceClass::RegisteredMaintenance,
        LedgerOperation::Transfer {
            subject: LedgerSubject::Reservation(reservation_id),
            expected_generation: 0,
            target_owner: owner(5),
            target_path: branch_path(17),
            exact_conserved_vector: vector(10),
        },
    );
    assert_eq!(
        ledger.apply(&invalid_transfer),
        Err(LedgerError::MaintenanceReserveRequiresRegisteredOwner)
    );
    assert_eq!(ledger, before_transfer);
}

#[test]
fn charge_consumes_the_whole_reservation_and_releases_the_remainder() {
    let mut ledger = ledger_with_limit(100, 10);
    let reservation_id = ReservationId([40; 32]);
    let charge_id = ChargeId([41; 32]);
    let reserve = transition(
        &ledger,
        42,
        owner(4),
        branch_path(13),
        ResourceClass::Ordinary,
        LedgerOperation::Reserve {
            reservation_id,
            vector: vector(50),
            hold: OwnerHold::Unheld,
        },
    );
    ledger.apply(&reserve).expect("reserve succeeds");
    let before_overcharge = ledger.clone();
    let overcharge = transition(
        &ledger,
        45,
        owner(4),
        branch_path(13),
        ResourceClass::Ordinary,
        LedgerOperation::Charge {
            reservation_id,
            expected_reservation_generation: 0,
            charge_id,
            vector: vector(60),
            stable_subject_key: StableSubjectKey([46; 32]),
        },
    );
    assert_eq!(
        ledger.apply(&overcharge),
        Err(LedgerError::ChargeExceedsReservation {
            reservation_id,
            axis: DurableChargeAxis::CanonicalDurableBytes,
            reserved: 50,
            charged: 60,
        })
    );
    assert_eq!(ledger, before_overcharge);

    let charge = transition(
        &ledger,
        43,
        owner(4),
        branch_path(13),
        ResourceClass::Ordinary,
        LedgerOperation::Charge {
            reservation_id,
            expected_reservation_generation: 0,
            charge_id,
            vector: vector(30),
            stable_subject_key: StableSubjectKey([44; 32]),
        },
    );
    ledger.apply(&charge).expect("charge succeeds");
    assert!(ledger.reservation(reservation_id).is_none());
    assert_eq!(
        ledger.charge(charge_id).expect("charge exists").vector(),
        vector(30)
    );
    let branch = ledger.bucket(&branch_path(13)).expect("bucket exists");
    assert_eq!(branch.ordinary_reserved(), DurableChargeVector::zero());
    assert_eq!(branch.committed(), vector(30));
}

#[test]
fn shared_ancestor_transfer_is_netted_and_destination_failure_is_atomic() {
    let mut ledger = ledger_with_limit(100, 10);
    let reservation_id = ReservationId([50; 32]);
    let reserve = transition(
        &ledger,
        51,
        owner(5),
        branch_path(13),
        ResourceClass::Ordinary,
        LedgerOperation::Reserve {
            reservation_id,
            vector: vector(60),
            hold: OwnerHold::Unheld,
        },
    );
    ledger.apply(&reserve).expect("reserve succeeds");
    let transfer = transition(
        &ledger,
        52,
        owner(5),
        branch_path(13),
        ResourceClass::Ordinary,
        LedgerOperation::Transfer {
            subject: LedgerSubject::Reservation(reservation_id),
            expected_generation: 0,
            target_owner: owner(6),
            target_path: branch_path(17),
            exact_conserved_vector: vector(60),
        },
    );
    ledger.apply(&transfer).expect("transfer succeeds");
    assert_eq!(
        ledger
            .bucket(&graph_path())
            .expect("shared ancestor exists")
            .ordinary_reserved(),
        vector(60)
    );
    assert_eq!(
        ledger
            .bucket(&branch_path(13))
            .expect("source exists")
            .ordinary_reserved(),
        DurableChargeVector::zero()
    );
    assert_eq!(
        ledger
            .bucket(&branch_path(17))
            .expect("target exists")
            .ordinary_reserved(),
        vector(60)
    );
    let entry = ledger
        .reservation(reservation_id)
        .expect("reservation moved");
    assert_eq!(entry.generation(), 1);
    assert_eq!(entry.owner(), &owner(6));

    let ancestor_state =
        BucketState::empty(capacity(100), capacity(10)).expect("ancestor limits are valid");
    let constrained_target =
        BucketState::empty(capacity(50), capacity(10)).expect("target limits are valid");
    let mut constrained = ResourceLedger::try_new(
        identity(),
        &[
            (db_path(), ancestor_state),
            (tenant_path(), ancestor_state),
            (graph_path(), ancestor_state),
            (branch_path(13), ancestor_state),
            (branch_path(17), constrained_target),
        ],
    )
    .expect("constrained fixture contains every ancestor");
    let fill = transition(
        &constrained,
        53,
        owner(7),
        branch_path(17),
        ResourceClass::Ordinary,
        LedgerOperation::Reserve {
            reservation_id: ReservationId([54; 32]),
            vector: vector(40),
            hold: OwnerHold::Unheld,
        },
    );
    constrained.apply(&fill).expect("target fill succeeds");
    let source = transition(
        &constrained,
        55,
        owner(8),
        branch_path(13),
        ResourceClass::Ordinary,
        LedgerOperation::Reserve {
            reservation_id: ReservationId([56; 32]),
            vector: vector(10),
            hold: OwnerHold::Unheld,
        },
    );
    constrained.apply(&source).expect("source reserve succeeds");
    let generation_before = constrained.generation();
    let failed = transition(
        &constrained,
        57,
        owner(8),
        branch_path(13),
        ResourceClass::Ordinary,
        LedgerOperation::Transfer {
            subject: LedgerSubject::Reservation(ReservationId([56; 32])),
            expected_generation: 0,
            target_owner: owner(9),
            target_path: branch_path(17),
            exact_conserved_vector: vector(10),
        },
    );
    assert!(matches!(
        constrained.apply(&failed),
        Err(LedgerError::BucketRejected { .. })
    ));
    assert_eq!(constrained.generation(), generation_before);
    assert_eq!(
        constrained
            .reservation(ReservationId([56; 32]))
            .expect("failed transfer leaves source intact")
            .path(),
        &branch_path(13)
    );
}

#[test]
fn protected_owners_cannot_expire_and_release_remains_explicit() {
    let mut ledger = ledger_with_limit(100, 10);
    let reservation_id = ReservationId([60; 32]);
    let reserve = transition(
        &ledger,
        61,
        owner(10),
        branch_path(13),
        ResourceClass::Ordinary,
        LedgerOperation::Reserve {
            reservation_id,
            vector: vector(20),
            hold: OwnerHold::PreparedOwnership,
        },
    );
    ledger.apply(&reserve).expect("reserve succeeds");
    let expire = transition(
        &ledger,
        62,
        owner(10),
        branch_path(13),
        ResourceClass::Ordinary,
        LedgerOperation::Expire {
            reservation_id,
            expected_generation: 0,
            exact_vector: vector(20),
            evidence: ExpiryEvidence {
                reservation_id,
                reservation_generation: 0,
                owner_quiescence_proof_ref: ObjectId([63; 32]),
                time_validation_evidence_ref: ObjectId([64; 32]),
                time_classification: TimeEvidenceClassification::Expired,
                confirms_quiescence: true,
            },
        },
    );
    assert_eq!(
        ledger.apply(&expire),
        Err(LedgerError::ProtectedOwnerCannotExpire {
            reservation_id,
            hold: OwnerHold::PreparedOwnership,
        })
    );
    let release = transition(
        &ledger,
        65,
        owner(10),
        branch_path(13),
        ResourceClass::Ordinary,
        LedgerOperation::Release {
            subject: LedgerSubject::Reservation(reservation_id),
            expected_generation: 0,
            exact_vector: vector(20),
        },
    );
    ledger
        .apply(&release)
        .expect("explicit authorized release succeeds");
    assert!(ledger.reservation(reservation_id).is_none());
}

#[test]
fn expiry_requires_exact_positive_evidence_and_is_atomic() {
    let mut ledger = ledger_with_limit(100, 10);
    let reservation_id = ReservationId([66; 32]);
    let reserve = transition(
        &ledger,
        67,
        owner(13),
        branch_path(13),
        ResourceClass::Ordinary,
        LedgerOperation::Reserve {
            reservation_id,
            vector: vector(12),
            hold: OwnerHold::Unheld,
        },
    );
    ledger.apply(&reserve).expect("reserve succeeds");
    let generation_before = ledger.generation();
    let rejected = transition(
        &ledger,
        68,
        owner(13),
        branch_path(13),
        ResourceClass::Ordinary,
        LedgerOperation::Expire {
            reservation_id,
            expected_generation: 0,
            exact_vector: vector(12),
            evidence: ExpiryEvidence {
                reservation_id,
                reservation_generation: 0,
                owner_quiescence_proof_ref: ObjectId([69; 32]),
                time_validation_evidence_ref: ObjectId([70; 32]),
                time_classification: TimeEvidenceClassification::Expired,
                confirms_quiescence: false,
            },
        },
    );
    assert_eq!(
        ledger.apply(&rejected),
        Err(LedgerError::ExpiryNotQuiescent { reservation_id })
    );
    assert_eq!(ledger.generation(), generation_before);
    assert!(ledger.reservation(reservation_id).is_some());

    let expire = transition(
        &ledger,
        71,
        owner(13),
        branch_path(13),
        ResourceClass::Ordinary,
        LedgerOperation::Expire {
            reservation_id,
            expected_generation: 0,
            exact_vector: vector(12),
            evidence: ExpiryEvidence {
                reservation_id,
                reservation_generation: 0,
                owner_quiescence_proof_ref: ObjectId([72; 32]),
                time_validation_evidence_ref: ObjectId([73; 32]),
                time_classification: TimeEvidenceClassification::Expired,
                confirms_quiescence: true,
            },
        },
    );
    let outcome = ledger.apply(&expire).expect("supported expiry succeeds");
    assert_eq!(outcome.operation, AppliedOperation::Expired);
    assert!(ledger.reservation(reservation_id).is_none());
    assert_eq!(
        ledger
            .bucket(&branch_path(13))
            .expect("bucket exists")
            .ordinary_reserved(),
        DurableChargeVector::zero()
    );
}

#[test]
fn expiry_evidence_is_bound_to_the_current_entry_generation_and_time_class() {
    let mut ledger = ledger_with_limit(100, 10);
    let reservation_id = ReservationId([74; 32]);
    let reserve = transition(
        &ledger,
        75,
        owner(16),
        branch_path(13),
        ResourceClass::Ordinary,
        LedgerOperation::Reserve {
            reservation_id,
            vector: vector(15),
            hold: OwnerHold::Unheld,
        },
    );
    ledger.apply(&reserve).expect("reserve succeeds");
    let transfer = transition(
        &ledger,
        76,
        owner(16),
        branch_path(13),
        ResourceClass::Ordinary,
        LedgerOperation::Transfer {
            subject: LedgerSubject::Reservation(reservation_id),
            expected_generation: 0,
            target_owner: owner(17),
            target_path: branch_path(13),
            exact_conserved_vector: vector(15),
        },
    );
    ledger.apply(&transfer).expect("owner transfer succeeds");
    let before_expiry = ledger.clone();
    let stale_evidence = transition(
        &ledger,
        77,
        owner(17),
        branch_path(13),
        ResourceClass::Ordinary,
        LedgerOperation::Expire {
            reservation_id,
            expected_generation: 1,
            exact_vector: vector(15),
            evidence: ExpiryEvidence {
                reservation_id,
                reservation_generation: 0,
                owner_quiescence_proof_ref: ObjectId([78; 32]),
                time_validation_evidence_ref: ObjectId([79; 32]),
                time_classification: TimeEvidenceClassification::Expired,
                confirms_quiescence: true,
            },
        },
    );
    assert_eq!(
        ledger.apply(&stale_evidence),
        Err(LedgerError::ExpiryEvidenceGenerationMismatch {
            expected: 1,
            actual: 0,
        })
    );
    assert_eq!(ledger, before_expiry);

    let not_expired = transition(
        &ledger,
        80,
        owner(17),
        branch_path(13),
        ResourceClass::Ordinary,
        LedgerOperation::Expire {
            reservation_id,
            expected_generation: 1,
            exact_vector: vector(15),
            evidence: ExpiryEvidence {
                reservation_id,
                reservation_generation: 1,
                owner_quiescence_proof_ref: ObjectId([81; 32]),
                time_validation_evidence_ref: ObjectId([82; 32]),
                time_classification: TimeEvidenceClassification::NotExpired,
                confirms_quiescence: true,
            },
        },
    );
    assert_eq!(
        ledger.apply(&not_expired),
        Err(LedgerError::ExpiryTimeNotExpired { reservation_id })
    );
    assert_eq!(ledger, before_expiry);
}

#[test]
fn committed_charge_transfers_whole_then_releases_once() {
    let mut ledger = ledger_with_limit(100, 10);
    let reservation_id = ReservationId([82; 32]);
    let charge_id = ChargeId([83; 32]);
    let reserve = transition(
        &ledger,
        84,
        owner(14),
        branch_path(13),
        ResourceClass::Ordinary,
        LedgerOperation::Reserve {
            reservation_id,
            vector: vector(30),
            hold: OwnerHold::Unheld,
        },
    );
    ledger.apply(&reserve).expect("reserve succeeds");
    let charge = transition(
        &ledger,
        85,
        owner(14),
        branch_path(13),
        ResourceClass::Ordinary,
        LedgerOperation::Charge {
            reservation_id,
            expected_reservation_generation: 0,
            charge_id,
            vector: vector(25),
            stable_subject_key: StableSubjectKey([86; 32]),
        },
    );
    ledger.apply(&charge).expect("charge succeeds");
    let transfer = transition(
        &ledger,
        87,
        owner(14),
        branch_path(13),
        ResourceClass::Ordinary,
        LedgerOperation::Transfer {
            subject: LedgerSubject::Charge(charge_id),
            expected_generation: 0,
            target_owner: owner(15),
            target_path: branch_path(17),
            exact_conserved_vector: vector(25),
        },
    );
    ledger.apply(&transfer).expect("charge transfer succeeds");
    assert_eq!(
        ledger
            .bucket(&graph_path())
            .expect("shared ancestor exists")
            .committed(),
        vector(25)
    );
    assert_eq!(
        ledger
            .bucket(&branch_path(13))
            .expect("source exists")
            .committed(),
        DurableChargeVector::zero()
    );
    assert_eq!(
        ledger
            .bucket(&branch_path(17))
            .expect("target exists")
            .committed(),
        vector(25)
    );
    let release = transition(
        &ledger,
        88,
        owner(15),
        branch_path(17),
        ResourceClass::Ordinary,
        LedgerOperation::Release {
            subject: LedgerSubject::Charge(charge_id),
            expected_generation: 1,
            exact_vector: vector(25),
        },
    );
    ledger.apply(&release).expect("charge release succeeds");
    assert!(ledger.charge(charge_id).is_none());
    assert_eq!(
        ledger
            .bucket(&graph_path())
            .expect("shared ancestor exists")
            .committed(),
        DurableChargeVector::zero()
    );
    let duplicate_release = transition(
        &ledger,
        89,
        owner(15),
        branch_path(17),
        ResourceClass::Ordinary,
        LedgerOperation::Release {
            subject: LedgerSubject::Charge(charge_id),
            expected_generation: 1,
            exact_vector: vector(25),
        },
    );
    assert_eq!(
        ledger.apply(&duplicate_release),
        Err(LedgerError::UnknownCharge { charge_id })
    );
}

#[test]
fn adjustment_requires_exact_subject_and_preserves_atomicity() {
    let mut ledger = ledger_with_limit(100, 10);
    let reservation_id = ReservationId([70; 32]);
    let charge_id = ChargeId([71; 32]);
    let subject_key = StableSubjectKey([72; 32]);
    let reserve = transition(
        &ledger,
        73,
        owner(11),
        branch_path(13),
        ResourceClass::Ordinary,
        LedgerOperation::Reserve {
            reservation_id,
            vector: vector(50),
            hold: OwnerHold::Unheld,
        },
    );
    ledger.apply(&reserve).expect("reserve succeeds");
    let charge = transition(
        &ledger,
        74,
        owner(11),
        branch_path(13),
        ResourceClass::Ordinary,
        LedgerOperation::Charge {
            reservation_id,
            expected_reservation_generation: 0,
            charge_id,
            vector: vector(40),
            stable_subject_key: subject_key,
        },
    );
    ledger.apply(&charge).expect("charge succeeds");
    let before_noop = ledger.clone();
    let noop = transition(
        &ledger,
        77,
        owner(11),
        branch_path(13),
        ResourceClass::Ordinary,
        LedgerOperation::Adjust {
            charge_id,
            expected_generation: 0,
            before_vector: vector(40),
            after_vector: vector(40),
            stable_subject_key: subject_key,
        },
    );
    assert_eq!(
        ledger.apply(&noop),
        Err(LedgerError::NoopAdjust { charge_id })
    );
    assert_eq!(ledger, before_noop);
    let wrong = transition(
        &ledger,
        75,
        owner(11),
        branch_path(13),
        ResourceClass::Ordinary,
        LedgerOperation::Adjust {
            charge_id,
            expected_generation: 0,
            before_vector: vector(39),
            after_vector: vector(20),
            stable_subject_key: subject_key,
        },
    );
    assert!(matches!(
        ledger.apply(&wrong),
        Err(LedgerError::ExactVectorMismatch { .. })
    ));
    assert_eq!(
        ledger.charge(charge_id).expect("charge remains").vector(),
        vector(40)
    );
    let adjust = transition(
        &ledger,
        76,
        owner(11),
        branch_path(13),
        ResourceClass::Ordinary,
        LedgerOperation::Adjust {
            charge_id,
            expected_generation: 0,
            before_vector: vector(40),
            after_vector: vector(20),
            stable_subject_key: subject_key,
        },
    );
    ledger.apply(&adjust).expect("adjustment succeeds");
    assert_eq!(
        ledger.charge(charge_id).expect("charge remains").vector(),
        vector(20)
    );
    assert_eq!(
        ledger
            .bucket(&branch_path(13))
            .expect("bucket exists")
            .committed(),
        vector(20)
    );

    let before_capacity_failure = ledger.clone();
    let over_capacity = transition(
        &ledger,
        78,
        owner(11),
        branch_path(13),
        ResourceClass::Ordinary,
        LedgerOperation::Adjust {
            charge_id,
            expected_generation: 1,
            before_vector: vector(20),
            after_vector: vector(91),
            stable_subject_key: subject_key,
        },
    );
    assert!(matches!(
        ledger.apply(&over_capacity),
        Err(LedgerError::BucketRejected {
            cause: BucketStateError::OrdinaryCapacityExceeded { .. },
            ..
        })
    ));
    assert_eq!(ledger, before_capacity_failure);
}

#[test]
fn retired_entry_ids_cannot_be_reused() {
    let mut ledger = ledger_with_limit(100, 10);
    let reservation_id = ReservationId([90; 32]);
    let reserve = transition(
        &ledger,
        91,
        owner(18),
        branch_path(13),
        ResourceClass::Ordinary,
        LedgerOperation::Reserve {
            reservation_id,
            vector: vector(10),
            hold: OwnerHold::Unheld,
        },
    );
    ledger.apply(&reserve).expect("reserve succeeds");
    let release = transition(
        &ledger,
        92,
        owner(18),
        branch_path(13),
        ResourceClass::Ordinary,
        LedgerOperation::Release {
            subject: LedgerSubject::Reservation(reservation_id),
            expected_generation: 0,
            exact_vector: vector(10),
        },
    );
    ledger.apply(&release).expect("release succeeds");
    let before_reservation_reuse = ledger.clone();
    let reservation_reuse = transition(
        &ledger,
        93,
        owner(18),
        branch_path(13),
        ResourceClass::Ordinary,
        LedgerOperation::Reserve {
            reservation_id,
            vector: vector(10),
            hold: OwnerHold::Unheld,
        },
    );
    assert_eq!(
        ledger.apply(&reservation_reuse),
        Err(LedgerError::ReservationIdAlreadyUsed { reservation_id })
    );
    assert_eq!(ledger, before_reservation_reuse);

    let second_reservation = ReservationId([94; 32]);
    let charge_id = ChargeId([95; 32]);
    let reserve_for_charge = transition(
        &ledger,
        96,
        owner(19),
        branch_path(13),
        ResourceClass::Ordinary,
        LedgerOperation::Reserve {
            reservation_id: second_reservation,
            vector: vector(10),
            hold: OwnerHold::Unheld,
        },
    );
    ledger
        .apply(&reserve_for_charge)
        .expect("second reserve succeeds");
    let charge = transition(
        &ledger,
        97,
        owner(19),
        branch_path(13),
        ResourceClass::Ordinary,
        LedgerOperation::Charge {
            reservation_id: second_reservation,
            expected_reservation_generation: 0,
            charge_id,
            vector: vector(10),
            stable_subject_key: StableSubjectKey([98; 32]),
        },
    );
    ledger.apply(&charge).expect("charge succeeds");
    let release_charge = transition(
        &ledger,
        99,
        owner(19),
        branch_path(13),
        ResourceClass::Ordinary,
        LedgerOperation::Release {
            subject: LedgerSubject::Charge(charge_id),
            expected_generation: 0,
            exact_vector: vector(10),
        },
    );
    ledger
        .apply(&release_charge)
        .expect("charge release succeeds");

    let third_reservation = ReservationId([100; 32]);
    let reserve_for_reuse = transition(
        &ledger,
        101,
        owner(20),
        branch_path(13),
        ResourceClass::Ordinary,
        LedgerOperation::Reserve {
            reservation_id: third_reservation,
            vector: vector(10),
            hold: OwnerHold::Unheld,
        },
    );
    ledger
        .apply(&reserve_for_reuse)
        .expect("third reserve succeeds");
    let before_charge_reuse = ledger.clone();
    let charge_reuse = transition(
        &ledger,
        102,
        owner(20),
        branch_path(13),
        ResourceClass::Ordinary,
        LedgerOperation::Charge {
            reservation_id: third_reservation,
            expected_reservation_generation: 0,
            charge_id,
            vector: vector(10),
            stable_subject_key: StableSubjectKey([103; 32]),
        },
    );
    assert_eq!(
        ledger.apply(&charge_reuse),
        Err(LedgerError::ChargeIdAlreadyUsed { charge_id })
    );
    assert_eq!(ledger, before_charge_reuse);
}

#[test]
fn charge_validates_its_source_before_disclosing_destination_collision() {
    let mut ledger = ledger_with_limit(100, 10);
    let first_reservation = ReservationId([104; 32]);
    let charge_id = ChargeId([105; 32]);
    let reserve_first = transition(
        &ledger,
        106,
        owner(21),
        branch_path(13),
        ResourceClass::Ordinary,
        LedgerOperation::Reserve {
            reservation_id: first_reservation,
            vector: vector(10),
            hold: OwnerHold::Unheld,
        },
    );
    ledger.apply(&reserve_first).expect("reserve succeeds");
    let first_charge = transition(
        &ledger,
        107,
        owner(21),
        branch_path(13),
        ResourceClass::Ordinary,
        LedgerOperation::Charge {
            reservation_id: first_reservation,
            expected_reservation_generation: 0,
            charge_id,
            vector: vector(10),
            stable_subject_key: StableSubjectKey([108; 32]),
        },
    );
    ledger.apply(&first_charge).expect("charge succeeds");

    let second_reservation = ReservationId([109; 32]);
    let reserve_second = transition(
        &ledger,
        110,
        owner(22),
        branch_path(17),
        ResourceClass::Ordinary,
        LedgerOperation::Reserve {
            reservation_id: second_reservation,
            vector: vector(10),
            hold: OwnerHold::Unheld,
        },
    );
    ledger.apply(&reserve_second).expect("reserve succeeds");
    let before = ledger.clone();
    let collision_with_wrong_source = transition(
        &ledger,
        111,
        owner(23),
        branch_path(17),
        ResourceClass::Ordinary,
        LedgerOperation::Charge {
            reservation_id: second_reservation,
            expected_reservation_generation: 0,
            charge_id,
            vector: vector(10),
            stable_subject_key: StableSubjectKey([112; 32]),
        },
    );
    assert_eq!(
        ledger.apply(&collision_with_wrong_source),
        Err(LedgerError::OwnerMismatch)
    );
    assert_eq!(ledger, before);
}

#[test]
fn generation_overflow_and_nonempty_genesis_fail_without_mutation() {
    let nonempty = BucketState::try_new(
        capacity(100),
        capacity(10),
        vector(1),
        DurableChargeVector::zero(),
        DurableChargeVector::zero(),
    )
    .expect("nonempty bucket is capacity-valid");
    assert_eq!(
        ResourceLedger::try_new(identity(), &[(db_path(), nonempty)]),
        Err(LedgerError::NonemptyGenesisBucket { path: db_path() })
    );

    // Ledger and entry generations only grow by one per applied transition,
    // so the public API cannot bring either to `u64::MAX`; the refusal at
    // that bound is stated in `apply`'s contract.
}

#[test]
fn role_generation_vector_and_constructor_failures_are_typed() {
    assert!(matches!(
        BucketState::empty(capacity(10), capacity(11)),
        Err(BucketStateError::ReserveExceedsHardLimit { .. })
    ));
    assert!(matches!(
        vector(u64::MAX).checked_add(vector(1)),
        Err(DurableVectorError::Overflow {
            axis: DurableChargeAxis::CanonicalDurableBytes,
            ..
        })
    ));
    let mut ledger = ledger_with_limit(100, 10);
    let mut tx = transition(
        &ledger,
        80,
        owner(12),
        branch_path(13),
        ResourceClass::Ordinary,
        LedgerOperation::Reserve {
            reservation_id: ReservationId([81; 32]),
            vector: vector(1),
            hold: OwnerHold::Unheld,
        },
    );
    tx.header.expected_ledger_identity.role = ResourceAccountingRole::Meta;
    assert!(matches!(
        ledger.apply(&tx),
        Err(LedgerError::WrongAuthorityRole { .. })
    ));
    tx.header.expected_ledger_identity = ledger.identity();
    tx.header.expected_ledger_identity.limit_policy_epoch += 1;
    assert!(matches!(
        ledger.apply(&tx),
        Err(LedgerError::WrongLedgerIdentity { .. })
    ));
    tx.header.expected_ledger_identity = ledger.identity();
    tx.header.expected_ledger_generation = 1;
    assert!(matches!(
        ledger.apply(&tx),
        Err(LedgerError::StaleLedgerGeneration { .. })
    ));
}

#[test]
fn release_right_after_reserve_restores_every_bucket() {
    let mut ledger = ledger_with_limit(100, 10);
    let genesis = ledger.clone();
    let reservation_id = ReservationId([120; 32]);
    let reserve = transition(
        &ledger,
        121,
        owner(30),
        branch_path(17),
        ResourceClass::Ordinary,
        LedgerOperation::Reserve { reservation_id, vector: vector(33), hold: OwnerHold::Unheld },
    );
    ledger.apply(&reserve).expect("reserve succeeds");
    let release = transition(
        &ledger,
        122,
        owner(30),
        branch_path(17),
        ResourceClass::Ordinary,
        LedgerOperation::Release {
            subject: LedgerSubject::Reservation(reservation_id),
            expected_generation: 0,
            exact_vector: vector(33),
        },
    );
    let outcome = ledger.apply(&release).expect("release succeeds");
    assert_eq!(outcome.operation, AppliedOperation::Released);
    assert_eq!(outcome.ledger_generation, 2);
    for path in [db_path(), tenant_path(), graph_path(), branch_path(13), branch_path(17)] {
        assert_eq!(ledger.bucket(&path), genesis.bucket(&path));
    }
}

#[test]
fn reserving_under_a_path_without_a_bucket_is_refused_atomically() {
    let mut ledger = ledger_with_limit(100, 10);
    let before = ledger.clone();
    let reserve = transition(
        &ledger,
        123,
        owner(31),
        branch_path(99),
        ResourceClass::Ordinary,
        LedgerOperation::Reserve {
            reservation_id: ReservationId([124; 32]),
            vector: vector(5),
            hold: OwnerHold::Unheld,
        },
    );
    assert_eq!(ledger.apply(&reserve), Err(LedgerError::UnknownBucket { path: branch_path(99) }));
    assert_eq!(ledger, before);
}

#[test]
fn zero_reservation_and_unknown_subjects_are_refused() {
    let mut ledger = ledger_with_limit(100, 10);
    let zero = transition(
        &ledger,
        125,
        owner(32),
        branch_path(13),
        ResourceClass::Ordinary,
        LedgerOperation::Reserve {
            reservation_id: ReservationId([126; 32]),
            vector: DurableChargeVector::zero(),
            hold: OwnerHold::Unheld,
        },
    );
    assert_eq!(ledger.apply(&zero), Err(LedgerError::ZeroVector));
    let release = transition(
        &ledger,
        127,
        owner(32),
        branch_path(13),
        ResourceClass::Ordinary,
        LedgerOperation::Release {
            subject: LedgerSubject::Reservation(ReservationId([128; 32])),
            expected_generation: 0,
            exact_vector: vector(1),
        },
    );
    assert_eq!(
        ledger.apply(&release),
        Err(LedgerError::UnknownReservation { reservation_id: ReservationId([128; 32]) })
    );
    assert_eq!(ledger.generation(), 0);
}

#[test]
fn genesis_refusals_name_the_first_faulty_bucket() {
    let state = BucketState::empty(capacity(100), capacity(10)).expect("valid limits");
    assert_eq!(ResourceLedger::try_new(identity(), &[]), Err(LedgerError::NoBuckets));
    assert_eq!(
        ResourceLedger::try_new(identity(), &[(db_path(), state), (db_path(), state)]),
        Err(LedgerError::DuplicateBucket { path: db_path() })
    );
    assert_eq!(
        ResourceLedger::try_new(identity(), &[(db_path(), state), (graph_path(), state)]),
        Err(LedgerError::MissingAncestorBucket { path: graph_path(), missing: tenant_path() })
    );
}

#[test]
fn refused_reservation_names_the_first_rejecting_bucket_in_path_order() {
    let roomy = BucketState::empty(capacity(200), capacity(0)).expect("consistent limits");
    let tight = BucketState::empty(capacity(100), capacity(0)).expect("consistent limits");
    let mut ledger = ResourceLedger::try_new(
        identity(),
        &[
            (db_path(), roomy),
            (tenant_path(), tight),
            (graph_path(), tight),
            (branch_path(13), tight),
        ],
    )
    .expect("fixture contains every ancestor");
    let before = ledger.clone();
    let tx = transition(
        &ledger,
        60,
        owner(6),
        branch_path(13),
        ResourceClass::Ordinary,
        LedgerOperation::Reserve {
            reservation_id: ReservationId([61; 32]),
            vector: vector(150),
            hold: OwnerHold::Unheld,
        },
    );
    let refused = ledger.apply(&tx);
    assert!(matches!(
        refused,
        Err(LedgerError::BucketRejected {
            path,
            cause: BucketStateError::OrdinaryCapacityExceeded { .. },
        }) if path == tenant_path()
    ));
    assert_eq!(ledger, before);
}

#[test]
fn genesis_names_the_shortest_missing_ancestor() {
    let state = BucketState::empty(capacity(100), capacity(0)).expect("consistent limits");
    assert_eq!(
        ResourceLedger::try_new(identity(), &[(branch_path(13), state), (db_path(), state)]),
        Err(LedgerError::MissingAncestorBucket { path: branch_path(13), missing: tenant_path() })
    );
}
