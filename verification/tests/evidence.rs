use fgdb::evidence::{
    CalibrationWindow, ClassOrderViolation, InvalidWindow, ReplayClass, ReplayClassSet,
    ReplayCompleteness, ReplayCompletenessError, REPLAY_CLASS_VOCABULARY_VERSION,
};

fn class_list(classes: &ReplayClassSet) -> Vec<ReplayClass> {
    let mut iter = classes.iter();
    let mut out = Vec::new();
    while let Some(class) = iter.next() {
        out.push(class);
    }
    out
}

fn class_strings(classes: &ReplayClassSet) -> Vec<&'static str> {
    class_list(classes).into_iter().map(ReplayClass::as_str).collect()
}

#[test]
fn replay_completeness_has_exactly_four_validated_arms() {
    let replayable = ReplayCompleteness::replayable();
    assert!(matches!(replayable, ReplayCompleteness::Replayable));
    assert!(replayable.reproduced_classes().is_none());
    assert!(replayable.omitted_classes().is_none());
    assert!(replayable.missing_classes().is_none());
    assert!(replayable.missing_or_redacted_classes().is_none());

    let structural = ReplayCompleteness::structural_replay(
        &[
            ReplayClass::LogicalState,
            ReplayClass::StructuralControlFlow,
            ReplayClass::StructuralDataShape,
        ],
        &[ReplayClass::ExecutionSchedule, ReplayClass::WallClock],
    )
    .unwrap();
    assert_eq!(
        class_strings(structural.reproduced_classes().unwrap()),
        ["logical_state", "structural_control_flow", "structural_data_shape"]
    );
    assert_eq!(
        class_strings(structural.omitted_classes().unwrap()),
        ["execution_schedule", "wall_clock"]
    );

    let verifiable = ReplayCompleteness::verifiable_if_artifacts_supplied(&[
        ReplayClass::ExecutableBinary,
        ReplayClass::RustToolchain,
    ])
    .unwrap();
    assert_eq!(
        class_strings(verifiable.missing_classes().unwrap()),
        ["executable_binary", "rust_toolchain"]
    );

    let audit =
        ReplayCompleteness::audit_only(&[ReplayClass::KeyMaterial, ReplayClass::UdfModuleSet])
            .unwrap();
    assert_eq!(
        class_strings(audit.missing_or_redacted_classes().unwrap()),
        ["key_material", "udf_module_set"]
    );
}

#[test]
fn replay_class_vocabulary_is_versioned_complete_and_canonically_ordered() {
    const EXPECTED_NAMES: [&str; 36] = [
        "bound_query",
        "compilation_target",
        "cpu_feature_contract",
        "crypto_entropy",
        "decision_cards",
        "derived_generation_snapshots",
        "differential_privacy_seed",
        "evidence",
        "executable_binary",
        "execution_schedule",
        "execution_seed",
        "kernel_profile_registry",
        "key_material",
        "language_profile",
        "logical_state",
        "mediated_external_inputs",
        "mediated_nondeterminism",
        "normalized_query",
        "numeric_profile",
        "platform_abi",
        "policies",
        "replay_authority_snapshot",
        "reproducible_build_closure",
        "role_bearing_binding_set",
        "runtime_allocator_configuration",
        "rust_toolchain",
        "scalar_profile",
        "semantic_profile",
        "source_tree",
        "structural_control_flow",
        "structural_data_shape",
        "structural_replay_projection",
        "typed_parameters",
        "udf_module_set",
        "vm_jit_compiler_artifacts",
        "wall_clock",
    ];

    assert_eq!(REPLAY_CLASS_VOCABULARY_VERSION, 1);
    assert_eq!(ReplayClass::ALL.len(), 36);
    assert_eq!(ReplayClass::ALL.map(ReplayClass::as_str), EXPECTED_NAMES);
    for (index, class) in ReplayClass::ALL.into_iter().enumerate() {
        assert_eq!(class as usize, index);
    }
    for pair in ReplayClass::ALL.windows(2) {
        assert!(pair[0] < pair[1]);
        assert!(pair[0].as_str() < pair[1].as_str());
    }

    let all = ReplayCompleteness::audit_only(&ReplayClass::ALL).unwrap();
    let all_set = all.missing_or_redacted_classes().unwrap();
    assert_eq!(all_set.len(), ReplayClass::ALL.len());
    assert_eq!(class_list(all_set), ReplayClass::ALL);
    assert_eq!(all_set.iter().next_back(), Some(ReplayClass::WallClock));
}

#[test]
fn class_lists_reject_duplicate_and_out_of_order_input() {
    let duplicate =
        ReplayCompleteness::audit_only(&[ReplayClass::LogicalState, ReplayClass::LogicalState])
            .unwrap_err();
    assert!(matches!(
        duplicate,
        ReplayCompletenessError::ClassesNotStrictlySorted {
            kind: ClassOrderViolation::Duplicate,
            ..
        }
    ));

    let unsorted =
        ReplayCompleteness::audit_only(&[ReplayClass::WallClock, ReplayClass::LogicalState])
            .unwrap_err();
    assert!(matches!(
        unsorted,
        ReplayCompletenessError::ClassesNotStrictlySorted {
            kind: ClassOrderViolation::OutOfOrder,
            ..
        }
    ));
}

#[test]
fn weaker_grade_payloads_cannot_alias_stronger_grades_with_empty_sets() {
    assert_eq!(
        ReplayCompleteness::structural_replay(&[], &[ReplayClass::WallClock]),
        Err(ReplayCompletenessError::EmptyClassSet { list: "reproduced_classes" })
    );
    assert_eq!(
        ReplayCompleteness::structural_replay(&[ReplayClass::StructuralControlFlow], &[]),
        Err(ReplayCompletenessError::EmptyClassSet { list: "omitted_classes" })
    );
    assert_eq!(
        ReplayCompleteness::verifiable_if_artifacts_supplied(&[]),
        Err(ReplayCompletenessError::EmptyClassSet { list: "missing_classes" })
    );
    assert_eq!(
        ReplayCompleteness::audit_only(&[]),
        Err(ReplayCompletenessError::EmptyClassSet { list: "missing_or_redacted_classes" })
    );
}

#[test]
fn structural_sets_must_be_disjoint() {
    let error = ReplayCompleteness::structural_replay(
        &[ReplayClass::LogicalState, ReplayClass::StructuralDataShape],
        &[ReplayClass::StructuralDataShape, ReplayClass::WallClock],
    )
    .unwrap_err();
    assert!(matches!(
        error,
        ReplayCompletenessError::StructuralClassOverlap {
            class: ReplayClass::StructuralDataShape
        }
    ));
}

#[test]
fn crypto_entropy_is_absence_only_but_remains_an_honest_diagnostic() {
    let error = ReplayCompleteness::structural_replay(
        &[ReplayClass::CryptoEntropy],
        &[ReplayClass::WallClock],
    )
    .unwrap_err();
    assert!(matches!(
        error,
        ReplayCompletenessError::AbsenceOnlyClassCannotBePresent {
            list: "reproduced_classes",
            index: 0,
            class: ReplayClass::CryptoEntropy,
        }
    ));

    let structural = ReplayCompleteness::structural_replay(
        &[ReplayClass::StructuralControlFlow],
        &[ReplayClass::CryptoEntropy],
    )
    .unwrap();
    assert!(structural.omitted_classes().unwrap().contains(ReplayClass::CryptoEntropy));
    assert!(matches!(
        ReplayCompleteness::verifiable_if_artifacts_supplied(&[ReplayClass::CryptoEntropy]),
        Err(ReplayCompletenessError::AbsenceOnlyClassCannotBeSupplied {
            list: "missing_classes",
            index: 0,
            class: ReplayClass::CryptoEntropy,
        })
    ));
    let audit = ReplayCompleteness::audit_only(&[ReplayClass::CryptoEntropy]).unwrap();
    assert!(audit.missing_or_redacted_classes().unwrap().contains(ReplayClass::CryptoEntropy));
}

#[test]
fn protected_secret_references_are_distinct_from_exported_secret_bytes() {
    let structural = ReplayCompleteness::structural_replay(
        &[ReplayClass::DifferentialPrivacySeed, ReplayClass::KeyMaterial],
        &[ReplayClass::WallClock],
    )
    .unwrap();
    assert_eq!(structural.reproduced_classes().unwrap().len(), 2);

    let verifiable = ReplayCompleteness::verifiable_if_artifacts_supplied(&[
        ReplayClass::DifferentialPrivacySeed,
        ReplayClass::KeyMaterial,
    ])
    .unwrap();
    assert_eq!(verifiable.missing_classes().unwrap().len(), 2);
}

#[test]
fn redaction_is_total_after_order_validation_and_uses_actual_gaps() {
    let replayable = ReplayCompleteness::replayable();
    let redacted = replayable.weaken_for_redaction(&[ReplayClass::KeyMaterial]).unwrap();
    assert!(matches!(redacted, ReplayCompleteness::AuditOnly(_)));
    assert_eq!(class_strings(redacted.missing_or_redacted_classes().unwrap()), ["key_material"]);

    let structural = ReplayCompleteness::structural_replay(
        &[ReplayClass::LogicalState],
        &[ReplayClass::WallClock],
    )
    .unwrap();
    let redacted = structural.weaken_for_redaction(&[ReplayClass::KeyMaterial]).unwrap();
    assert_eq!(
        class_strings(redacted.missing_or_redacted_classes().unwrap()),
        ["key_material", "wall_clock"]
    );

    let verifiable =
        ReplayCompleteness::verifiable_if_artifacts_supplied(&[ReplayClass::ExecutableBinary])
            .unwrap();
    let redacted = verifiable.weaken_for_redaction(&[ReplayClass::CryptoEntropy]).unwrap();
    assert_eq!(
        class_strings(redacted.missing_or_redacted_classes().unwrap()),
        ["crypto_entropy", "executable_binary"]
    );

    let audit = ReplayCompleteness::audit_only(&[ReplayClass::DifferentialPrivacySeed]).unwrap();
    let redacted = audit.weaken_for_redaction(&[ReplayClass::KeyMaterial]).unwrap();
    assert_eq!(
        class_strings(redacted.missing_or_redacted_classes().unwrap()),
        ["differential_privacy_seed", "key_material"]
    );

    assert_eq!(replayable.weaken_for_redaction(&[]), Ok(replayable));
}

#[test]
fn structural_meet_keeps_only_shared_reproduced_classes() {
    let left = ReplayCompleteness::structural_replay(
        &[ReplayClass::LogicalState, ReplayClass::StructuralControlFlow],
        &[ReplayClass::ExecutionSchedule, ReplayClass::WallClock],
    )
    .unwrap();
    let right = ReplayCompleteness::structural_replay(
        &[ReplayClass::LogicalState, ReplayClass::StructuralDataShape],
        &[ReplayClass::MediatedExternalInputs, ReplayClass::StructuralControlFlow],
    )
    .unwrap();
    let meet = left.meet(&right);
    assert_eq!(class_strings(meet.reproduced_classes().unwrap()), ["logical_state"]);
    assert_eq!(
        class_strings(meet.omitted_classes().unwrap()),
        [
            "execution_schedule",
            "mediated_external_inputs",
            "structural_control_flow",
            "wall_clock"
        ]
    );
    assert!(!meet.omitted_classes().unwrap().contains(ReplayClass::StructuralDataShape));
}

#[test]
fn structural_meet_with_no_shared_reproduction_downgrades_to_audit() {
    let left = ReplayCompleteness::structural_replay(
        &[ReplayClass::StructuralControlFlow],
        &[ReplayClass::WallClock],
    )
    .unwrap();
    let right = ReplayCompleteness::structural_replay(
        &[ReplayClass::StructuralDataShape],
        &[ReplayClass::ExecutionSchedule],
    )
    .unwrap();
    let meet = left.meet(&right);
    assert!(matches!(meet, ReplayCompleteness::AuditOnly(_)));
    assert_eq!(
        class_strings(meet.missing_or_redacted_classes().unwrap()),
        ["execution_schedule", "wall_clock"]
    );
}

#[test]
fn meet_is_commutative_associative_and_idempotent() {
    let values = [
        ReplayCompleteness::replayable(),
        ReplayCompleteness::structural_replay(
            &[ReplayClass::LogicalState, ReplayClass::StructuralControlFlow],
            &[ReplayClass::ExecutionSchedule],
        )
        .unwrap(),
        ReplayCompleteness::structural_replay(
            &[ReplayClass::LogicalState, ReplayClass::StructuralDataShape],
            &[ReplayClass::WallClock],
        )
        .unwrap(),
        ReplayCompleteness::structural_replay(
            &[ReplayClass::StructuralControlFlow],
            &[ReplayClass::RuntimeAllocatorConfiguration],
        )
        .unwrap(),
        ReplayCompleteness::structural_replay(
            &[ReplayClass::LogicalState],
            &[ReplayClass::StructuralControlFlow],
        )
        .unwrap(),
        ReplayCompleteness::structural_replay(
            &[ReplayClass::StructuralControlFlow],
            &[ReplayClass::LogicalState],
        )
        .unwrap(),
        ReplayCompleteness::verifiable_if_artifacts_supplied(&[ReplayClass::ExecutableBinary])
            .unwrap(),
        ReplayCompleteness::verifiable_if_artifacts_supplied(&[ReplayClass::LogicalState])
            .unwrap(),
        ReplayCompleteness::verifiable_if_artifacts_supplied(&[ReplayClass::RustToolchain])
            .unwrap(),
        ReplayCompleteness::audit_only(&[ReplayClass::KeyMaterial]).unwrap(),
        ReplayCompleteness::audit_only(&ReplayClass::ALL).unwrap(),
    ];

    for left in &values {
        assert_eq!(left.meet(left), *left);
        for right in &values {
            assert_eq!(left.meet(right), right.meet(left));
            for third in &values {
                let left_associated = left.meet(right).meet(third);
                let right_associated = left.meet(&right.meet(third));
                assert_eq!(left_associated, right_associated);
            }
        }
    }
}

#[test]
fn mixed_meet_is_conservative_and_carries_only_actual_gaps() {
    let structural = ReplayCompleteness::structural_replay(
        &[ReplayClass::LogicalState, ReplayClass::StructuralControlFlow],
        &[ReplayClass::WallClock],
    )
    .unwrap();
    let verifiable =
        ReplayCompleteness::verifiable_if_artifacts_supplied(&[ReplayClass::ExecutableBinary])
            .unwrap();
    let meet = structural.meet(&verifiable);
    assert!(matches!(meet, ReplayCompleteness::AuditOnly(_)));
    assert_eq!(
        class_strings(meet.missing_or_redacted_classes().unwrap()),
        ["executable_binary", "wall_clock"]
    );

    let audit = ReplayCompleteness::audit_only(&[ReplayClass::KeyMaterial]).unwrap();
    let meet = structural.meet(&audit);
    assert_eq!(
        class_strings(meet.missing_or_redacted_classes().unwrap()),
        ["key_material", "wall_clock"]
    );
    assert!(!meet.missing_or_redacted_classes().unwrap().contains(ReplayClass::LogicalState));
    assert!(!meet
        .missing_or_redacted_classes()
        .unwrap()
        .contains(ReplayClass::StructuralControlFlow));
}

#[test]
fn full_universe_meet_and_redaction_remain_total() {
    let all = ReplayCompleteness::audit_only(&ReplayClass::ALL).unwrap();
    let supplyable: Vec<ReplayClass> =
        ReplayClass::ALL.into_iter().filter(|class| class.may_be_present()).collect();
    let verifiable = ReplayCompleteness::verifiable_if_artifacts_supplied(&supplyable).unwrap();
    assert_eq!(all.meet(&verifiable), all);
    assert_eq!(all.weaken_for_redaction(&[ReplayClass::CryptoEntropy]), Ok(all));
}

#[test]
fn windows_reject_empty_and_inverted() {
    assert!(CalibrationWindow::new(10, 20).is_ok());
    assert_eq!(
        CalibrationWindow::new(20, 10).unwrap_err(),
        InvalidWindow { start_seq: 20, end_seq: 10 }
    );
    let err = CalibrationWindow::new(5, 5).unwrap_err();
    assert_eq!(err.message(), "calibration window [5, 5) is empty or inverted");
}

#[test]
fn window_accepts_single_sequence_and_keeps_bounds() {
    let window = CalibrationWindow::new(100, 42_000).unwrap();
    assert_eq!(window.start_seq, 100);
    assert_eq!(window.end_seq, 42_000);
    assert_eq!(
        CalibrationWindow::new(7, 8),
        Ok(CalibrationWindow { start_seq: 7, end_seq: 8 })
    );
    let err = CalibrationWindow::new(u64::MAX, 0).unwrap_err();
    assert_eq!(
        err.message(),
        "calibration window [18446744073709551615, 0) is empty or inverted"
    );
}

#[test]
fn class_iterator_runs_from_both_ends() {
    let audit = ReplayCompleteness::audit_only(&[
        ReplayClass::BoundQuery,
        ReplayClass::KeyMaterial,
        ReplayClass::WallClock,
    ])
    .unwrap();
    let set = audit.missing_or_redacted_classes().unwrap();
    let mut iter = set.iter();
    assert_eq!(iter.len(), 3);
    assert_eq!(iter.next_back(), Some(ReplayClass::WallClock));
    assert_eq!(iter.next(), Some(ReplayClass::BoundQuery));
    assert_eq!(iter.len(), 1);
    assert_eq!(iter.next_back(), Some(ReplayClass::KeyMaterial));
    assert_eq!(iter.next(), None);
    assert_eq!(iter.next_back(), None);
    assert_eq!(iter.len(), 0);
    assert!(!set.is_empty());
    assert!(set.contains(ReplayClass::KeyMaterial));
    assert!(!set.contains(ReplayClass::Evidence));
}

#[test]
fn order_errors_name_the_offending_positions() {
    let error = ReplayCompleteness::structural_replay(
        &[ReplayClass::LogicalState],
        &[ReplayClass::ExecutionSchedule, ReplayClass::WallClock, ReplayClass::Evidence],
    )
    .unwrap_err();
    assert_eq!(
        error,
        ReplayCompletenessError::ClassesNotStrictlySorted {
            list: "omitted_classes",
            previous_index: 1,
            index: 2,
            previous: ReplayClass::WallClock,
            current: ReplayClass::Evidence,
            kind: ClassOrderViolation::OutOfOrder,
        }
    );
    let error = ReplayCompleteness::replayable()
        .weaken_for_redaction(&[ReplayClass::Policies, ReplayClass::Policies])
        .unwrap_err();
    assert_eq!(
        error,
        ReplayCompletenessError::ClassesNotStrictlySorted {
            list: "redacted_classes",
            previous_index: 0,
            index: 1,
            previous: ReplayClass::Policies,
            current: ReplayClass::Policies,
            kind: ClassOrderViolation::Duplicate,
        }
    );
    let error = ReplayCompleteness::structural_replay(
        &[ReplayClass::Evidence, ReplayClass::LogicalState, ReplayClass::WallClock],
        &[ReplayClass::Evidence, ReplayClass::WallClock],
    )
    .unwrap_err();
    assert_eq!(error, ReplayCompletenessError::StructuralClassOverlap { class: ReplayClass::Evidence });
}

#[test]
fn replayable_is_neutral_and_redaction_matches_audit_meet() {
    let structural = ReplayCompleteness::structural_replay(
        &[ReplayClass::LogicalState],
        &[ReplayClass::WallClock],
    )
    .unwrap();
    let replayable = ReplayCompleteness::replayable();
    assert_eq!(replayable.meet(&structural), structural);
    assert_eq!(structural.meet(&replayable), structural);
    let audit = ReplayCompleteness::audit_only(&[ReplayClass::KeyMaterial]).unwrap();
    assert_eq!(
        structural.weaken_for_redaction(&[ReplayClass::KeyMaterial]).unwrap(),
        structural.meet(&audit)
    );
    assert!(ReplayClass::Evidence.may_be_present());
    assert!(!ReplayClass::CryptoEntropy.may_be_present());
    assert_eq!(ReplayClass::from_index(35), ReplayClass::WallClock);
    assert_eq!(ReplayClass::WallClock.index(), 35);
}
