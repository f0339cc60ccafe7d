//! Identifier and vocabulary types of logical delta rows: catalog-interned
//! ordinals, operation keys, escrow domains, valid-time bounds and the nine
//! delta-row families.

use vstd::prelude::*;

verus! {

/// Catalog-interned label ordinal.
#[derive(Clone, Copy, PartialEq, Eq, PartialOrd, Ord, Hash, Debug, Structural)]
pub struct LabelId(pub u64);

/// Catalog-interned property-key ordinal.
#[derive(Clone, Copy, PartialEq, Eq, PartialOrd, Ord, Hash, Debug, Structural)]
pub struct PropertyKeyId(pub u64);

/// Catalog-interned relation (edge-type) ordinal.
#[derive(Clone, Copy, PartialEq, Eq, PartialOrd, Ord, Hash, Debug, Structural)]
pub struct RelationId(pub u64);

/// Schema epoch under which a template's rows were produced.
#[derive(Clone, Copy, PartialEq, Eq, PartialOrd, Ord, Hash, Debug, Structural)]
pub struct SchemaEpoch(pub u64);

/// Registered unique operation key; merges deduplicate on these before
/// checked summation.
#[derive(Clone, Copy, PartialEq, Eq, PartialOrd, Ord, Hash, Debug)]
pub struct OperationKey(pub [u8; 32]);

/// Escrow domain identity.
#[derive(Clone, Copy, PartialEq, Eq, PartialOrd, Ord, Hash, Debug, Structural)]
pub struct EscrowDomainId(pub u128);

/// Valid-time assignment bounds as they appear in delta rows: microseconds
/// since the profile epoch; an absent end is an open period.
#[derive(Clone, Copy, PartialEq, Eq, PartialOrd, Ord, Hash, Debug, Structural)]
pub struct ValidTimePeriod {
    pub start_micros: i64,
    pub end_micros: Option<i64>,
}

/// The nine exact typed delta-row families.
#[derive(Clone, Copy, PartialEq, Eq, Hash, Debug, Structural)]
pub enum DeltaFamily {
    Create,
    Delete,
    Property,
    ValidTime,
    Counter,
    Escrow,
    Sketch,
    Schema,
    Constraint,
}

} // verus!
