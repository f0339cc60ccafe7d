use fgdb::delta::{
    DeltaFamily, EscrowDomainId, LabelId, OperationKey, PropertyKeyId, RelationId, SchemaEpoch,
    ValidTimePeriod,
};

#[test]
fn identifiers_order_by_their_ordinals() {
    assert!(LabelId(1) < LabelId(2));
    assert!(PropertyKeyId(7) > PropertyKeyId(3));
    assert_eq!(RelationId(3), RelationId(3));
    assert!(SchemaEpoch(2) < SchemaEpoch(3));
    assert!(OperationKey([5; 32]) < OperationKey([6; 32]));
    assert!(EscrowDomainId(1) < EscrowDomainId(u128::MAX));
}

#[test]
fn valid_time_periods_order_open_ends_after_closed() {
    let closed = ValidTimePeriod { start_micros: 10, end_micros: Some(20) };
    let open = ValidTimePeriod { start_micros: 10, end_micros: None };
    assert!(open < closed);
    assert_ne!(open, closed);
    assert!(ValidTimePeriod { start_micros: -5, end_micros: None } < open);
    assert_ne!(DeltaFamily::Create, DeltaFamily::Delete);
    assert_eq!(DeltaFamily::Constraint, DeltaFamily::Constraint);
}
