//! Durable-accounting vocabulary: fixed six-axis charge vectors, quota bucket
//! states, and the typed outcomes of ledger transitions.

use vstd::prelude::*;
use crate::text::{byte_list, push_byte_list, push_decimal128};
use crate::identity::{
    bytes_before, bytes_precede, same_bytes16, same_bytes32, BranchId, DatabaseId, DatabaseSecurityNamespaceId,
    GraphId, ObjectId,
};
use crate::vec_alloc::try_reserve_exact;
use crate::text::{decimal, push_decimal, push_text};

verus! {

/// The fixed axes of a semantic durable charge.
#[derive(Clone, Copy, Debug, PartialEq, Eq, PartialOrd, Ord, Hash, Structural)]
pub enum DurableChargeAxis {
    CanonicalDurableBytes,
    RetainedHistoryBytes,
    BranchCount,
    IndexCount,
    ViewCount,
    SubscriptionCount,
}

/// Position of an axis in the declared order.
pub open spec fn durable_axis_ordinal(axis: DurableChargeAxis) -> int {
    match axis {
        DurableChargeAxis::CanonicalDurableBytes => 0,
        DurableChargeAxis::RetainedHistoryBytes => 1,
        DurableChargeAxis::BranchCount => 2,
        DurableChargeAxis::IndexCount => 3,
        DurableChargeAxis::ViewCount => 4,
        DurableChargeAxis::SubscriptionCount => 5,
    }
}

/// The axis at a position of the declared order.
pub open spec fn durable_axis_at(index: int) -> DurableChargeAxis {
    if index == 0 {
        DurableChargeAxis::CanonicalDurableBytes
    } else if index == 1 {
        DurableChargeAxis::RetainedHistoryBytes
    } else if index == 2 {
        DurableChargeAxis::BranchCount
    } else if index == 3 {
        DurableChargeAxis::IndexCount
    } else if index == 4 {
        DurableChargeAxis::ViewCount
    } else {
        DurableChargeAxis::SubscriptionCount
    }
}

/// Stable lowercase name of an axis.
pub open spec fn durable_axis_name(axis: DurableChargeAxis) -> Seq<char> {
    match axis {
        DurableChargeAxis::CanonicalDurableBytes => "canonical_durable_bytes"@,
        DurableChargeAxis::RetainedHistoryBytes => "retained_history_bytes"@,
        DurableChargeAxis::BranchCount => "branch_count"@,
        DurableChargeAxis::IndexCount => "index_count"@,
        DurableChargeAxis::ViewCount => "view_count"@,
        DurableChargeAxis::SubscriptionCount => "subscription_count"@,
    }
}

fn durable_axis_from_index(index: usize) -> (axis: DurableChargeAxis)
    requires
        index < 6,
    ensures
        axis == durable_axis_at(index as int),
        durable_axis_ordinal(axis) == index,
{
    if index == 0 {
        DurableChargeAxis::CanonicalDurableBytes
    } else if index == 1 {
        DurableChargeAxis::RetainedHistoryBytes
    } else if index == 2 {
        DurableChargeAxis::BranchCount
    } else if index == 3 {
        DurableChargeAxis::IndexCount
    } else if index == 4 {
        DurableChargeAxis::ViewCount
    } else {
        DurableChargeAxis::SubscriptionCount
    }
}

impl DurableChargeAxis {
    /// Every axis in declared order.
    pub const ALL: [DurableChargeAxis; 6] = [
        DurableChargeAxis::CanonicalDurableBytes,
        DurableChargeAxis::RetainedHistoryBytes,
        DurableChargeAxis::BranchCount,
        DurableChargeAxis::IndexCount,
        DurableChargeAxis::ViewCount,
        DurableChargeAxis::SubscriptionCount,
    ];

    /// Stable lowercase name.
    pub fn name(self) -> (name: &'static str)
        ensures
            name@ == durable_axis_name(self),
    {
        match self {
            DurableChargeAxis::CanonicalDurableBytes => "canonical_durable_bytes",
            DurableChargeAxis::RetainedHistoryBytes => "retained_history_bytes",
            DurableChargeAxis::BranchCount => "branch_count",
            DurableChargeAxis::IndexCount => "index_count",
            DurableChargeAxis::ViewCount => "view_count",
            DurableChargeAxis::SubscriptionCount => "subscription_count",
        }
    }
}

/// Fixed, nonnegative semantic tenant charge.
#[derive(Clone, Copy, Debug, Default, PartialEq, Eq, PartialOrd, Ord, Hash, Structural)]
pub struct DurableChargeVector {
    pub canonical_durable_bytes: u64,
    pub retained_history_bytes: u64,
    pub branch_count: u64,
    pub index_count: u64,
    pub view_count: u64,
    pub subscription_count: u64,
}

/// Checked-vector failure with the exact failing axis and operands.
#[derive(Clone, Copy, Debug, PartialEq, Eq, Structural)]
pub enum DurableVectorError {
    Overflow { axis: DurableChargeAxis, lhs: u64, rhs: u64 },
    Underflow { axis: DurableChargeAxis, held: u64, released: u64 },
}

impl DurableChargeVector {
    /// The component on one axis.
    pub open spec fn spec_axis(self, axis: DurableChargeAxis) -> u64 {
        match axis {
            DurableChargeAxis::CanonicalDurableBytes => self.canonical_durable_bytes,
            DurableChargeAxis::RetainedHistoryBytes => self.retained_history_bytes,
            DurableChargeAxis::BranchCount => self.branch_count,
            DurableChargeAxis::IndexCount => self.index_count,
            DurableChargeAxis::ViewCount => self.view_count,
            DurableChargeAxis::SubscriptionCount => self.subscription_count,
        }
    }

    /// The vector whose every component is zero.
    pub open spec fn spec_zero() -> DurableChargeVector {
        DurableChargeVector {
            canonical_durable_bytes: 0,
            retained_history_bytes: 0,
            branch_count: 0,
            index_count: 0,
            view_count: 0,
            subscription_count: 0,
        }
    }

    /// Whether every component is zero.
    pub open spec fn spec_is_zero(self) -> bool {
        forall|i: int| 0 <= i < 6 ==> self.spec_axis(durable_axis_at(i)) == 0
    }

    /// Component-wise partial order.
    pub open spec fn spec_fits_within(self, ceiling: DurableChargeVector) -> bool {
        forall|i: int| 0 <= i < 6 ==> self.spec_axis(durable_axis_at(i)) <= ceiling.spec_axis(durable_axis_at(i))
    }

    /// Whether no component of the sum exceeds `u64::MAX`.
    pub open spec fn sum_fits(self, other: DurableChargeVector) -> bool {
        forall|i: int| 0 <= i < 6 ==>
            self.spec_axis(durable_axis_at(i)) + other.spec_axis(durable_axis_at(i)) <= u64::MAX
    }

    /// The additive identity.
    pub fn zero() -> (zero: Self)
        ensures
            zero == Self::spec_zero(),
            zero.spec_is_zero(),
            forall|axis: DurableChargeAxis| zero.spec_axis(axis) == 0,
    {
        DurableChargeVector {
            canonical_durable_bytes: 0,
            retained_history_bytes: 0,
            branch_count: 0,
            index_count: 0,
            view_count: 0,
            subscription_count: 0,
        }
    }

    /// The component on one axis.
    pub fn axis(self, axis: DurableChargeAxis) -> (value: u64)
        ensures
            value == self.spec_axis(axis),
    {
        match axis {
            DurableChargeAxis::CanonicalDurableBytes => self.canonical_durable_bytes,
            DurableChargeAxis::RetainedHistoryBytes => self.retained_history_bytes,
            DurableChargeAxis::BranchCount => self.branch_count,
            DurableChargeAxis::IndexCount => self.index_count,
            DurableChargeAxis::ViewCount => self.view_count,
            DurableChargeAxis::SubscriptionCount => self.subscription_count,
        }
    }

    /// Whether every component is zero.
    pub fn is_zero(self) -> (zero: bool)
        ensures
            zero == self.spec_is_zero(),
    {
        proof {
            assert(durable_axis_at(0) == DurableChargeAxis::CanonicalDurableBytes);
            assert(durable_axis_at(1) == DurableChargeAxis::RetainedHistoryBytes);
            assert(durable_axis_at(2) == DurableChargeAxis::BranchCount);
            assert(durable_axis_at(3) == DurableChargeAxis::IndexCount);
            assert(durable_axis_at(4) == DurableChargeAxis::ViewCount);
            assert(durable_axis_at(5) == DurableChargeAxis::SubscriptionCount);
        }
        self.canonical_durable_bytes == 0 && self.retained_history_bytes == 0 && self.branch_count == 0
            && self.index_count == 0 && self.view_count == 0 && self.subscription_count == 0
    }

    /// Component-wise `self <= ceiling`.
    pub fn fits_within(self, ceiling: Self) -> (fits: bool)
        ensures
            fits == self.spec_fits_within(ceiling),
    {
        let mut index: usize = 0;
        while index < 6
            invariant
                0 <= index <= 6,
                forall|i: int| 0 <= i < index ==>
                    self.spec_axis(durable_axis_at(i)) <= ceiling.spec_axis(durable_axis_at(i)),
            decreases 6 - index,
        {
            let axis = durable_axis_from_index(index);
            if self.axis(axis) > ceiling.axis(axis) {
                return false;
            }
            index = index + 1;
        }
        true
    }

    fn set_axis(&mut self, axis: DurableChargeAxis, value: u64)
        ensures
            final(self).spec_axis(axis) == value,
            forall|other: DurableChargeAxis| other != axis ==> final(self).spec_axis(other) == old(self).spec_axis(other),
    {
        match axis {
            DurableChargeAxis::CanonicalDurableBytes => self.canonical_durable_bytes = value,
            DurableChargeAxis::RetainedHistoryBytes => self.retained_history_bytes = value,
            DurableChargeAxis::BranchCount => self.branch_count = value,
            DurableChargeAxis::IndexCount => self.index_count = value,
            DurableChargeAxis::ViewCount => self.view_count = value,
            DurableChargeAxis::SubscriptionCount => self.subscription_count = value,
        }
    }

    /// Checked component-wise addition; the error names the first
    /// overflowing axis in declared order.
    pub fn checked_add(self, other: Self) -> (result: Result<Self, DurableVectorError>)
        ensures
            result is Ok <==> self.sum_fits(other),
            match result {
                Ok(sum) => forall|i: int| 0 <= i < 6 ==>
                    sum.spec_axis(durable_axis_at(i)) == self.spec_axis(durable_axis_at(i))
                        + other.spec_axis(durable_axis_at(i)),
                Err(DurableVectorError::Overflow { axis, lhs, rhs }) => {
                    &&& lhs == self.spec_axis(axis)
                    &&& rhs == other.spec_axis(axis)
                    &&& lhs + rhs > u64::MAX
                    &&& forall|i: int| 0 <= i < durable_axis_ordinal(axis) ==>
                        self.spec_axis(durable_axis_at(i)) + other.spec_axis(durable_axis_at(i)) <= u64::MAX
                },
                Err(_) => false,
            },
    {
        let mut out = Self::zero();
        let mut index: usize = 0;
        while index < 6
            invariant
                0 <= index <= 6,
                forall|i: int| 0 <= i < index ==>
                    out.spec_axis(durable_axis_at(i)) == self.spec_axis(durable_axis_at(i))
                        + other.spec_axis(durable_axis_at(i)),
            decreases 6 - index,
        {
            let axis = durable_axis_from_index(index);
            let lhs = self.axis(axis);
            let rhs = other.axis(axis);
            match lhs.checked_add(rhs) {
                Some(value) => out.set_axis(axis, value),
                None => {
                    return Err(DurableVectorError::Overflow { axis, lhs, rhs });
                },
            }
            index = index + 1;
        }
        Ok(out)
    }

    /// Checked component-wise subtraction; the error names the first
    /// underflowing axis in declared order.
    pub fn checked_sub(self, other: Self) -> (result: Result<Self, DurableVectorError>)
        ensures
            result is Ok <==> other.spec_fits_within(self),
            match result {
                Ok(diff) => forall|i: int| 0 <= i < 6 ==>
                    diff.spec_axis(durable_axis_at(i)) == self.spec_axis(durable_axis_at(i))
                        - other.spec_axis(durable_axis_at(i)),
                Err(DurableVectorError::Underflow { axis, held, released }) => {
                    &&& held == self.spec_axis(axis)
                    &&& released == other.spec_axis(axis)
                    &&& held < released
                    &&& forall|i: int| 0 <= i < durable_axis_ordinal(axis) ==>
                        other.spec_axis(durable_axis_at(i)) <= self.spec_axis(durable_axis_at(i))
                },
                Err(_) => false,
            },
    {
        let mut out = Self::zero();
        let mut index: usize = 0;
        while index < 6
            invariant
                0 <= index <= 6,
                forall|i: int| 0 <= i < index ==>
                    out.spec_axis(durable_axis_at(i)) == self.spec_axis(durable_axis_at(i))
                        - other.spec_axis(durable_axis_at(i)),
                forall|i: int| 0 <= i < index ==>
                    other.spec_axis(durable_axis_at(i)) <= self.spec_axis(durable_axis_at(i)),
            decreases 6 - index,
        {
            let axis = durable_axis_from_index(index);
            let held = self.axis(axis);
            let released = other.axis(axis);
            match held.checked_sub(released) {
                Some(value) => out.set_axis(axis, value),
                None => {
                    return Err(DurableVectorError::Underflow { axis, held, released });
                },
            }
            index = index + 1;
        }
        Ok(out)
    }
}

/// Only these roles may author canonical durable accounting state.
#[derive(Clone, Copy, Debug, PartialEq, Eq, PartialOrd, Ord, Hash, Structural)]
pub enum ResourceAccountingRole {
    Local,
    Meta,
}

/// Capacity lane used by a reservation.
#[derive(Clone, Copy, Debug, PartialEq, Eq, PartialOrd, Ord, Hash, Structural)]
pub enum ResourceClass {
    Ordinary,
    RegisteredMaintenance,
}

/// Why a quota path is not a canonical root-to-leaf path.
#[derive(Clone, Copy, Debug, PartialEq, Eq, Structural)]
pub enum QuotaPathError {
    Empty,
    TooDeep { depth: usize, maximum: usize },
    MissingDatabaseRoot { first_rank: u8 },
    NonCanonicalLevel { index: usize, expected_rank: u8, actual_rank: u8 },
}

/// One quota bucket's exact accounting state.
#[derive(Clone, Copy, Debug, PartialEq, Eq, Structural)]
pub struct BucketState {
    hard_limit: DurableChargeVector,
    protected_maintenance_reserve: DurableChargeVector,
    ordinary_reserved: DurableChargeVector,
    maintenance_reserved: DurableChargeVector,
    committed: DurableChargeVector,
}

/// Why a bucket state violates its capacity laws.
#[derive(Clone, Copy, Debug, PartialEq, Eq, Structural)]
pub enum BucketStateError {
    ReserveExceedsHardLimit { axis: DurableChargeAxis, reserve: u64, hard_limit: u64 },
    UsageOverflow { axis: DurableChargeAxis, first: u64, second: u64 },
    OrdinaryCapacityExceeded { axis: DurableChargeAxis, usage: u64, limit: u64 },
    MaintenanceReserveExceeded { axis: DurableChargeAxis, usage: u64, reserve: u64 },
    HardLimitExceeded { axis: DurableChargeAxis, usage: u64, hard_limit: u64 },
}

/// The first capacity law broken on one axis, checked in the order: the
/// protected reserve fits the hard limit; committed plus ordinary reservations
/// fit the ordinary share (`hard - reserve`); maintenance reservations fit the
/// protected reserve.
pub open spec fn bucket_axis_failure(
    hard: u64,
    reserve: u64,
    ordinary: u64,
    maintenance: u64,
    committed: u64,
    axis: DurableChargeAxis,
) -> Option<BucketStateError> {
    if reserve > hard {
        Some(BucketStateError::ReserveExceedsHardLimit { axis, reserve, hard_limit: hard })
    } else if committed + ordinary > u64::MAX {
        Some(BucketStateError::UsageOverflow { axis, first: committed, second: ordinary })
    } else if committed + ordinary > hard - reserve {
        Some(
            BucketStateError::OrdinaryCapacityExceeded {
                axis,
                usage: (committed + ordinary) as u64,
                limit: (hard - reserve) as u64,
            },
        )
    } else if maintenance > reserve {
        Some(BucketStateError::MaintenanceReserveExceeded { axis, usage: maintenance, reserve })
    } else {
        None
    }
}

impl BucketState {
    /// The hard limit.
    pub closed spec fn spec_hard_limit(self) -> DurableChargeVector {
        self.hard_limit
    }

    /// The protected maintenance reserve.
    pub closed spec fn spec_protected_maintenance_reserve(self) -> DurableChargeVector {
        self.protected_maintenance_reserve
    }

    /// Capacity held by ordinary reservations.
    pub closed spec fn spec_ordinary_reserved(self) -> DurableChargeVector {
        self.ordinary_reserved
    }

    /// Capacity held by maintenance reservations.
    pub closed spec fn spec_maintenance_reserved(self) -> DurableChargeVector {
        self.maintenance_reserved
    }

    /// Committed charges.
    pub closed spec fn spec_committed(self) -> DurableChargeVector {
        self.committed
    }

    /// Whether a state holds exactly these five vectors.
    pub open spec fn holds(
        self,
        hard_limit: DurableChargeVector,
        protected_maintenance_reserve: DurableChargeVector,
        ordinary_reserved: DurableChargeVector,
        maintenance_reserved: DurableChargeVector,
        committed: DurableChargeVector,
    ) -> bool {
        &&& self.spec_hard_limit() == hard_limit
        &&& self.spec_protected_maintenance_reserve() == protected_maintenance_reserve
        &&& self.spec_ordinary_reserved() == ordinary_reserved
        &&& self.spec_maintenance_reserved() == maintenance_reserved
        &&& self.spec_committed() == committed
    }

    /// The first law broken on one axis, if any.
    pub open spec fn axis_failure(self, axis: DurableChargeAxis) -> Option<BucketStateError> {
        bucket_axis_failure(
            self.spec_hard_limit().spec_axis(axis),
            self.spec_protected_maintenance_reserve().spec_axis(axis),
            self.spec_ordinary_reserved().spec_axis(axis),
            self.spec_maintenance_reserved().spec_axis(axis),
            self.spec_committed().spec_axis(axis),
            axis,
        )
    }

    /// Whether every axis satisfies the capacity laws.
    pub open spec fn spec_valid(self) -> bool {
        forall|i: int| 0 <= i < 6 ==> self.axis_failure(durable_axis_at(i)) is None
    }

    /// The capacity laws of a bucket, on every axis: the protected
    /// maintenance reserve fits under the hard limit; ordinary use (committed
    /// plus ordinary reservations) fits in what the reserve leaves; and
    /// maintenance reservations fit in the reserve itself, never in the
    /// ordinary share. So all usage together stays under the hard limit, and
    /// a maintenance lane beyond the reserve, with the rest in bounds, is
    /// refused as exceeding the reserve.
    pub proof fn law_capacity(self)
        ensures
            self.spec_valid() <==> forall|i: int|
                #![trigger durable_axis_at(i)]
                0 <= i < 6 ==> {
                    let a = durable_axis_at(i);
                    let hard = self.spec_hard_limit().spec_axis(a);
                    let reserve = self.spec_protected_maintenance_reserve().spec_axis(a);
                    &&& reserve <= hard
                    &&& self.spec_committed().spec_axis(a) + self.spec_ordinary_reserved().spec_axis(a)
                        + reserve <= hard
                    &&& self.spec_maintenance_reserved().spec_axis(a) <= reserve
                },
            self.spec_valid() ==> forall|i: int|
                #![trigger durable_axis_at(i)]
                0 <= i < 6 ==> {
                    let a = durable_axis_at(i);
                    self.spec_committed().spec_axis(a) + self.spec_ordinary_reserved().spec_axis(a)
                        + self.spec_maintenance_reserved().spec_axis(a) <= self.spec_hard_limit().spec_axis(
                        a,
                    )
                },
            forall|i: int|
                #![trigger durable_axis_at(i)]
                0 <= i < 6 ==> {
                    let a = durable_axis_at(i);
                    let hard = self.spec_hard_limit().spec_axis(a);
                    let reserve = self.spec_protected_maintenance_reserve().spec_axis(a);
                    let maintenance = self.spec_maintenance_reserved().spec_axis(a);
                    reserve <= hard && self.spec_committed().spec_axis(a)
                        + self.spec_ordinary_reserved().spec_axis(a) + reserve <= hard && maintenance
                        > reserve ==> self.axis_failure(a) == Some(
                        BucketStateError::MaintenanceReserveExceeded { axis: a, usage: maintenance, reserve },
                    )
                },
            forall|i: int|
                #![trigger durable_axis_at(i)]
                0 <= i < 6 ==> {
                    let a = durable_axis_at(i);
                    let hard = self.spec_hard_limit().spec_axis(a);
                    let reserve = self.spec_protected_maintenance_reserve().spec_axis(a);
                    let usage = self.spec_committed().spec_axis(a) + self.spec_ordinary_reserved().spec_axis(a);
                    &&& reserve > hard ==> self.axis_failure(a) == Some(
                        BucketStateError::ReserveExceedsHardLimit { axis: a, reserve, hard_limit: hard },
                    )
                    &&& reserve <= hard && usage <= u64::MAX && usage + reserve > hard ==> self.axis_failure(a)
                        == Some(
                        BucketStateError::OrdinaryCapacityExceeded {
                            axis: a,
                            usage: usage as u64,
                            limit: (hard - reserve) as u64,
                        },
                    )
                },
    {
        assert forall|i: int| 0 <= i < 6 implies (self.axis_failure(durable_axis_at(i)) is None <==> {
            let a = durable_axis_at(i);
            let hard = self.spec_hard_limit().spec_axis(a);
            let reserve = self.spec_protected_maintenance_reserve().spec_axis(a);
            &&& reserve <= hard
            &&& self.spec_committed().spec_axis(a) + self.spec_ordinary_reserved().spec_axis(a) + reserve
                <= hard
            &&& self.spec_maintenance_reserved().spec_axis(a) <= reserve
        }) by {}
    }

    /// The diagnostic `validate` reports: the first broken law on the first
    /// axis, in declared order, that breaks one.
    pub open spec fn reports(self, error: BucketStateError) -> bool {
        exists|k: int|
            0 <= k < 6 && (forall|i: int| 0 <= i < k ==> self.axis_failure(durable_axis_at(i)) is None)
                && self.axis_failure(durable_axis_at(k)) == Some(error)
    }

    /// Builds a bucket from its five vectors, rejecting a state that violates
    /// the capacity laws.
    pub fn try_new(
        hard_limit: DurableChargeVector,
        protected_maintenance_reserve: DurableChargeVector,
        ordinary_reserved: DurableChargeVector,
        maintenance_reserved: DurableChargeVector,
        committed: DurableChargeVector,
    ) -> (result: Result<Self, BucketStateError>)
        ensures
            forall|state: BucketState|
                state.holds(hard_limit, protected_maintenance_reserve, ordinary_reserved, maintenance_reserved, committed)
                    ==> {
                    &&& result is Ok <==> state.spec_valid()
                    &&& result matches Err(e) ==> state.reports(e)
                },
            result matches Ok(s) ==> s.holds(
                hard_limit,
                protected_maintenance_reserve,
                ordinary_reserved,
                maintenance_reserved,
                committed,
            ),
    {
        let state = Self {
            hard_limit,
            protected_maintenance_reserve,
            ordinary_reserved,
            maintenance_reserved,
            committed,
        };
        match state.validate() {
            Ok(()) => Ok(state),
            Err(e) => Err(e),
        }
    }

    /// A bucket with no reservations or commitments.
    pub fn empty(
        hard_limit: DurableChargeVector,
        protected_maintenance_reserve: DurableChargeVector,
    ) -> (result: Result<Self, BucketStateError>)
        ensures
            result is Ok <==> protected_maintenance_reserve.spec_fits_within(hard_limit),
            result matches Ok(s) ==> s.holds(
                hard_limit,
                protected_maintenance_reserve,
                DurableChargeVector::spec_zero(),
                DurableChargeVector::spec_zero(),
                DurableChargeVector::spec_zero(),
            ),
            forall|state: BucketState|
                state.holds(
                    hard_limit,
                    protected_maintenance_reserve,
                    DurableChargeVector::spec_zero(),
                    DurableChargeVector::spec_zero(),
                    DurableChargeVector::spec_zero(),
                ) ==> (result matches Err(e) ==> state.reports(e)),
    {
        let result = Self::try_new(
            hard_limit,
            protected_maintenance_reserve,
            DurableChargeVector::zero(),
            DurableChargeVector::zero(),
            DurableChargeVector::zero(),
        );
        proof {
            let state = BucketState {
                hard_limit,
                protected_maintenance_reserve,
                ordinary_reserved: DurableChargeVector::spec_zero(),
                maintenance_reserved: DurableChargeVector::spec_zero(),
                committed: DurableChargeVector::spec_zero(),
            };
            assert forall|i: int| 0 <= i < 6 implies (state.axis_failure(durable_axis_at(i)) is None
                <==> protected_maintenance_reserve.spec_axis(durable_axis_at(i)) <= hard_limit.spec_axis(
                durable_axis_at(i))) by {}
            assert(state.spec_valid() <==> protected_maintenance_reserve.spec_fits_within(hard_limit));
        }
        result
    }

    /// Hard limit vector.
    pub fn hard_limit(self) -> (v: DurableChargeVector)
        ensures
            v == self.spec_hard_limit(),
    {
        self.hard_limit
    }

    /// Reserve protected for registered maintenance.
    pub fn protected_maintenance_reserve(self) -> (v: DurableChargeVector)
        ensures
            v == self.spec_protected_maintenance_reserve(),
    {
        self.protected_maintenance_reserve
    }

    /// Capacity held by ordinary reservations.
    pub fn ordinary_reserved(self) -> (v: DurableChargeVector)
        ensures
            v == self.spec_ordinary_reserved(),
    {
        self.ordinary_reserved
    }

    /// Capacity held by maintenance reservations.
    pub fn maintenance_reserved(self) -> (v: DurableChargeVector)
        ensures
            v == self.spec_maintenance_reserved(),
    {
        self.maintenance_reserved
    }

    /// Committed charges.
    pub fn committed(self) -> (v: DurableChargeVector)
        ensures
            v == self.spec_committed(),
    {
        self.committed
    }

    fn validate(self) -> (result: Result<(), BucketStateError>)
        ensures
            result is Ok <==> self.spec_valid(),
            result matches Err(e) ==> self.reports(e),
    {
        let mut index: usize = 0;
        while index < 6
            invariant
                0 <= index <= 6,
                forall|i: int| 0 <= i < index ==> self.axis_failure(durable_axis_at(i)) is None,
            decreases 6 - index,
        {
            let axis = durable_axis_from_index(index);
            let hard = self.hard_limit.axis(axis);
            let reserve = self.protected_maintenance_reserve.axis(axis);
            if reserve > hard {
                return Err(
                    BucketStateError::ReserveExceedsHardLimit { axis, reserve, hard_limit: hard },
                );
            }
            let ordinary_limit = hard - reserve;
            let committed = self.committed.axis(axis);
            let ordinary_reserved = self.ordinary_reserved.axis(axis);
            let ordinary_use = match committed.checked_add(ordinary_reserved) {
                Some(value) => value,
                None => {
                    return Err(
                        BucketStateError::UsageOverflow {
                            axis,
                            first: committed,
                            second: ordinary_reserved,
                        },
                    );
                },
            };
            if ordinary_use > ordinary_limit {
                return Err(
                    BucketStateError::OrdinaryCapacityExceeded {
                        axis,
                        usage: ordinary_use,
                        limit: ordinary_limit,
                    },
                );
            }
            let maintenance_reserved = self.maintenance_reserved.axis(axis);
            if maintenance_reserved > reserve {
                return Err(
                    BucketStateError::MaintenanceReserveExceeded {
                        axis,
                        usage: maintenance_reserved,
                        reserve,
                    },
                );
            }
            // The two shares are disjoint parts of the hard limit, so the
            // total can neither overflow nor exceed it.
            assert(ordinary_use + maintenance_reserved <= hard);
            index = index + 1;
        }
        Ok(())
    }
}

/// Fixed-width opaque identifier of a ledger transition.
#[derive(Clone, Copy, Debug, PartialEq, Eq, PartialOrd, Ord, Hash)]
pub struct TransitionId(pub [u8; 32]);

/// Fixed-width opaque identifier of a reservation entry.
#[derive(Clone, Copy, Debug, PartialEq, Eq, PartialOrd, Ord, Hash)]
pub struct ReservationId(pub [u8; 32]);

/// Fixed-width opaque identifier of a charge entry.
#[derive(Clone, Copy, Debug, PartialEq, Eq, PartialOrd, Ord, Hash)]
pub struct ChargeId(pub [u8; 32]);

/// Stable key of the subject a charge accounts for.
#[derive(Clone, Copy, Debug, PartialEq, Eq, PartialOrd, Ord, Hash)]
pub struct StableSubjectKey(pub [u8; 32]);

/// Stable logical owner; never a future content address.
#[derive(Clone, Copy, Debug, PartialEq, Eq, PartialOrd, Ord, Hash)]
pub enum ResourceOwnerKey {
    Attempt { posture: u16, registration_identity: [u8; 32] },
    Statement { posture: u16, registration_identity: [u8; 32], statement_seq: u64 },
    ResultDelivery { posture: u16, result_delivery_id: [u8; 32] },
    Subscription { cursor_id: [u8; 32] },
    DurableObject { object_class: u16, stable_logical_owner_key: [u8; 32] },
    Replay { replay_manifest_key: [u8; 32] },
    BackupPin { backup_id: [u8; 32], scope: [u8; 32] },
    PreparedClosure { prepared_ownership_id: [u8; 32] },
    Maintenance { job_id: [u8; 32], registered_class: u16 },
}

/// A hold that makes timeout-based expiry structurally illegal.
#[derive(Clone, Copy, Debug, PartialEq, Eq, Structural)]
pub enum OwnerHold {
    Unheld,
    PreparedOwnership,
    FinalCertification,
    ResultDelivery,
    Backup,
    RemoteGrant,
}

/// The entry a release or transfer names.
#[derive(Clone, Copy, Debug, PartialEq, Eq)]
pub enum LedgerSubject {
    Reservation(ReservationId),
    Charge(ChargeId),
}

/// The only time-evidence classification that authorizes expiry is
/// [`TimeEvidenceClassification::Expired`].
#[derive(Clone, Copy, Debug, PartialEq, Eq, Structural)]
pub enum TimeEvidenceClassification {
    NotExpired,
    Expired,
}

/// Kind of an applied ledger operation.
#[derive(Clone, Copy, Debug, PartialEq, Eq, Structural)]
pub enum AppliedOperation {
    Reserved,
    Charged,
    Released,
    Expired,
    Transferred,
    Adjusted,
}

/// Whether a transition changed the ledger or replayed an earlier result.
#[derive(Clone, Copy, Debug, PartialEq, Eq, Structural)]
pub enum ApplyDisposition {
    Applied,
    Replayed,
}

/// Result of applying one transition.
#[derive(Clone, Copy, Debug, PartialEq, Eq, Structural)]
pub struct ApplyOutcome {
    pub ledger_generation: u64,
    pub operation: AppliedOperation,
    pub disposition: ApplyDisposition,
}

/// One level in the canonical quota hierarchy.
#[derive(Clone, Copy, Debug, PartialEq, Eq, PartialOrd, Ord, Hash)]
pub enum QuotaSegment {
    Database(DatabaseId),
    Tenant(u128),
    Graph(GraphId),
    Branch(BranchId),
    Feature(u128),
}

/// Level of a segment in the hierarchy: database, tenant, graph, branch,
/// feature.
pub open spec fn segment_rank(segment: QuotaSegment) -> u8 {
    match segment {
        QuotaSegment::Database(_) => 0,
        QuotaSegment::Tenant(_) => 1,
        QuotaSegment::Graph(_) => 2,
        QuotaSegment::Branch(_) => 3,
        QuotaSegment::Feature(_) => 4,
    }
}

/// The segment that fills the unused slots of a path.
pub open spec fn filler_segment() -> QuotaSegment {
    QuotaSegment::Tenant(0)
}

/// A canonical root-to-leaf path: one to five segments, segment `i` at
/// level `i`.
pub open spec fn canonical_segments(segments: Seq<QuotaSegment>) -> bool {
    &&& 1 <= segments.len() <= 5
    &&& forall|i: int| 0 <= i < segments.len() ==> segment_rank(#[trigger] segments[i]) == i
}

/// The first shape rule a segment list breaks, if any.
pub open spec fn path_fault(segments: Seq<QuotaSegment>) -> Option<QuotaPathError> {
    if segments.len() == 0 {
        Some(QuotaPathError::Empty)
    } else if segments.len() > 5 {
        Some(QuotaPathError::TooDeep { depth: segments.len() as usize, maximum: 5 })
    } else if segment_rank(segments[0]) != 0 {
        Some(QuotaPathError::MissingDatabaseRoot { first_rank: segment_rank(segments[0]) })
    } else {
        level_fault(segments, 1)
    }
}

/// The first position from `from` on whose level does not follow its
/// predecessor's.
pub open spec fn level_fault(segments: Seq<QuotaSegment>, from: int) -> Option<QuotaPathError>
    decreases segments.len() - from,
{
    if from <= 0 || from >= segments.len() {
        None
    } else if segment_rank(segments[from]) != segment_rank(segments[from - 1]) + 1 {
        Some(
            QuotaPathError::NonCanonicalLevel {
                index: from as usize,
                expected_rank: (segment_rank(segments[from - 1]) + 1) as u8,
                actual_rank: segment_rank(segments[from]),
            },
        )
    } else {
        level_fault(segments, from + 1)
    }
}

impl QuotaSegment {
    fn rank(&self) -> (rank: u8)
        ensures
            rank == segment_rank(*self),
    {
        match self {
            QuotaSegment::Database(_) => 0,
            QuotaSegment::Tenant(_) => 1,
            QuotaSegment::Graph(_) => 2,
            QuotaSegment::Branch(_) => 3,
            QuotaSegment::Feature(_) => 4,
        }
    }
}

fn same_segment(left: &QuotaSegment, right: &QuotaSegment) -> (same: bool)
    ensures
        same == (*left == *right),
{
    match (left, right) {
        (QuotaSegment::Database(a), QuotaSegment::Database(b)) => same_bytes16(&a.0, &b.0),
        (QuotaSegment::Tenant(a), QuotaSegment::Tenant(b)) => *a == *b,
        (QuotaSegment::Graph(a), QuotaSegment::Graph(b)) => a.0 == b.0,
        (QuotaSegment::Branch(a), QuotaSegment::Branch(b)) => a.0 == b.0,
        (QuotaSegment::Feature(a), QuotaSegment::Feature(b)) => *a == *b,
        _ => false,
    }
}

/// Segment order: by level, then by payload (bytes lexicographically,
/// integers numerically).
pub open spec fn segment_before(left: QuotaSegment, right: QuotaSegment) -> bool {
    if segment_rank(left) != segment_rank(right) {
        segment_rank(left) < segment_rank(right)
    } else {
        match (left, right) {
            (QuotaSegment::Database(a), QuotaSegment::Database(b)) => bytes_before(a.0@, b.0@),
            (QuotaSegment::Tenant(a), QuotaSegment::Tenant(b)) => a < b,
            (QuotaSegment::Graph(a), QuotaSegment::Graph(b)) => a.0 < b.0,
            (QuotaSegment::Branch(a), QuotaSegment::Branch(b)) => a.0 < b.0,
            (QuotaSegment::Feature(a), QuotaSegment::Feature(b)) => a < b,
            _ => false,
        }
    }
}

/// Path order: segment by segment from the root, a proper prefix first.
pub open spec fn path_before(left: Seq<QuotaSegment>, right: Seq<QuotaSegment>) -> bool
    decreases left.len(),
{
    if left.len() == 0 || right.len() == 0 {
        left.len() < right.len()
    } else if left[0] != right[0] {
        segment_before(left[0], right[0])
    } else {
        path_before(left.drop_first(), right.drop_first())
    }
}

/// Byte order on equal-length strings is a strict total order.
proof fn lemma_bytes_order(a: Seq<u8>, b: Seq<u8>, c: Seq<u8>)
    requires
        a.len() == b.len(),
        b.len() == c.len(),
    ensures
        bytes_before(a, b) ==> !bytes_before(b, a),
        a != b ==> bytes_before(a, b) || bytes_before(b, a),
        bytes_before(a, b) && bytes_before(b, c) ==> bytes_before(a, c),
    decreases a.len(),
{
    if a.len() == 0 {
        assert(a =~= b);
    } else {
        lemma_bytes_order(a.drop_first(), b.drop_first(), c.drop_first());
        if a[0] == b[0] && a.drop_first() =~= b.drop_first() {
            assert forall|i: int| 0 <= i < a.len() implies a[i] == b[i] by {
                if i > 0 {
                    assert(a[i] == a.drop_first()[i - 1]);
                    assert(b[i] == b.drop_first()[i - 1]);
                }
            }
            assert(a =~= b);
        }
    }
}

/// Segment order is a strict total order.
proof fn lemma_segment_order(a: QuotaSegment, b: QuotaSegment, c: QuotaSegment)
    ensures
        segment_before(a, b) ==> !segment_before(b, a),
        a != b ==> segment_before(a, b) || segment_before(b, a),
        segment_before(a, b) && segment_before(b, c) ==> segment_before(a, c),
{
    broadcast use vstd::array::group_array_axioms;

    match (a, b, c) {
        (QuotaSegment::Database(x), QuotaSegment::Database(y), QuotaSegment::Database(z)) => {
            lemma_bytes_order(x.0@, y.0@, z.0@);
            if x.0@ == y.0@ {
                assert(x.0 =~= y.0);
            }
        },
        (QuotaSegment::Database(x), QuotaSegment::Database(y), _) => {
            lemma_bytes_order(x.0@, y.0@, y.0@);
            if x.0@ == y.0@ {
                assert(x.0 =~= y.0);
            }
        },
        _ => {},
    }
}

/// Path order is a strict total order.
proof fn lemma_path_total(a: Seq<QuotaSegment>, b: Seq<QuotaSegment>)
    ensures
        path_before(a, b) ==> !path_before(b, a),
        a != b ==> path_before(a, b) || path_before(b, a),
    decreases a.len(),
{
    if a.len() == 0 || b.len() == 0 {
        if a.len() == 0 && b.len() == 0 {
            assert(a =~= b);
        }
    } else {
        lemma_segment_order(a[0], b[0], b[0]);
        lemma_path_total(a.drop_first(), b.drop_first());
        if a[0] == b[0] && a.drop_first() =~= b.drop_first() {
            assert forall|i: int| 0 <= i < a.len() implies a[i] == b[i] by {
                if i > 0 {
                    assert(a[i] == a.drop_first()[i - 1]);
                    assert(b[i] == b.drop_first()[i - 1]);
                }
            }
            assert(a =~= b);
        }
    }
}

proof fn lemma_path_transitive(a: Seq<QuotaSegment>, b: Seq<QuotaSegment>, c: Seq<QuotaSegment>)
    requires
        path_before(a, b),
        path_before(b, c),
    ensures
        path_before(a, c),
    decreases a.len(),
{
    if a.len() > 0 && b.len() > 0 && c.len() > 0 {
        lemma_segment_order(a[0], b[0], c[0]);
        if a[0] == b[0] && b[0] == c[0] {
            lemma_path_transitive(a.drop_first(), b.drop_first(), c.drop_first());
        }
    }
}

/// Whether `left` sorts before `right`: by level, then by payload.
fn segment_precedes(left: &QuotaSegment, right: &QuotaSegment) -> (precedes: bool)
    ensures
        precedes == segment_before(*left, *right),
{
    let left_rank = left.rank();
    let right_rank = right.rank();
    if left_rank != right_rank {
        return left_rank < right_rank;
    }
    match (left, right) {
        (QuotaSegment::Database(a), QuotaSegment::Database(b)) => {
            proof {
                broadcast use vstd::array::axiom_spec_array_as_slice;
            }
            bytes_precede(a.0.as_slice(), b.0.as_slice())
        },
        (QuotaSegment::Tenant(a), QuotaSegment::Tenant(b)) => *a < *b,
        (QuotaSegment::Graph(a), QuotaSegment::Graph(b)) => a.0 < b.0,
        (QuotaSegment::Branch(a), QuotaSegment::Branch(b)) => a.0 < b.0,
        (QuotaSegment::Feature(a), QuotaSegment::Feature(b)) => *a < *b,
        _ => false,
    }
}

/// Canonical nonempty root-to-leaf quota path.
#[derive(Clone, Copy, Debug, PartialEq, Eq, Hash)]
pub struct QuotaPath {
    slots: [QuotaSegment; 5],
    depth: usize,
}

impl View for QuotaPath {
    type V = Seq<QuotaSegment>;

    closed spec fn view(&self) -> Seq<QuotaSegment> {
        self.slots@.take(self.depth as int)
    }
}

impl QuotaPath {
    /// The most segments a path has.
    pub const MAX_SEGMENTS: usize = 5;

    #[verifier::type_invariant]
    closed spec fn canonical(self) -> bool {
        &&& 1 <= self.depth <= 5
        &&& canonical_segments(self.slots@.take(self.depth as int))
        &&& forall|i: int| self.depth <= i < 5 ==> self.slots@[i] == filler_segment()
    }

    /// Builds a path, refusing an empty or too deep list, a missing database
    /// root, or a level that does not follow its predecessor.
    pub fn try_new(segments: Vec<QuotaSegment>) -> (result: Result<Self, QuotaPathError>)
        ensures
            match result {
                Ok(path) => path_fault(segments@) is None && path@ == segments@,
                Err(error) => path_fault(segments@) == Some(error),
            },
            path_fault(segments@) is None <==> canonical_segments(segments@),
    {
        proof {
            lemma_path_fault_iff_canonical(segments@);
        }
        if segments.len() == 0 {
            return Err(QuotaPathError::Empty);
        }
        if segments.len() > Self::MAX_SEGMENTS {
            return Err(QuotaPathError::TooDeep { depth: segments.len(), maximum: Self::MAX_SEGMENTS });
        }
        let first_rank = segments[0].rank();
        if first_rank != 0 {
            return Err(QuotaPathError::MissingDatabaseRoot { first_rank });
        }
        let mut index: usize = 1;
        while index < segments.len()
            invariant
                1 <= index <= segments@.len() <= 5,
                segment_rank(segments@[0]) == 0,
                path_fault(segments@) == level_fault(segments@, index as int),
                forall|i: int| 0 <= i < index ==> segment_rank(#[trigger] segments@[i]) == i,
            decreases segments@.len() - index,
        {
            let expected = segments[index - 1].rank() + 1;
            let actual = segments[index].rank();
            if actual != expected {
                return Err(
                    QuotaPathError::NonCanonicalLevel {
                        index,
                        expected_rank: expected,
                        actual_rank: actual,
                    },
                );
            }
            index = index + 1;
        }
        let filler = QuotaSegment::Tenant(0);
        let mut slots = [filler; 5];
        let mut position: usize = 0;
        while position < segments.len()
            invariant
                position <= segments@.len() <= 5,
                slots@.len() == 5,
                forall|i: int| 0 <= i < position ==> slots@[i] == segments@[i],
                forall|i: int| position <= i < 5 ==> slots@[i] == filler_segment(),
            decreases segments@.len() - position,
        {
            slots[position] = segments[position];
            position = position + 1;
        }
        proof {
            assert(slots@.take(segments@.len() as int) =~= segments@);
        }
        Ok(QuotaPath { slots, depth: segments.len() })
    }

    /// The segments, root first.
    pub fn segments(&self) -> (segments: &[QuotaSegment])
        ensures
            segments@ == self@,
    {
        proof {
            use_type_invariant(self);
        }
        vstd::slice::slice_subrange(self.slots.as_slice(), 0, self.depth)
    }

    /// Number of segments.
    pub fn depth(&self) -> (depth: usize)
        ensures
            depth == self@.len(),
            1 <= depth <= 5,
    {
        proof {
            use_type_invariant(self);
        }
        self.depth
    }

    /// The ancestor made of the first `length` segments.
    fn prefix(&self, length: usize) -> (ancestor: QuotaPath)
        requires
            1 <= length <= self@.len(),
        ensures
            ancestor@ == self@.take(length as int),
    {
        proof {
            use_type_invariant(self);
        }
        let filler = QuotaSegment::Tenant(0);
        let mut slots = [filler; 5];
        let mut position: usize = 0;
        while position < length
            invariant
                position <= length <= self.depth <= 5,
                slots@.len() == 5,
                forall|i: int| 0 <= i < position ==> slots@[i] == self.slots@[i],
                forall|i: int| position <= i < 5 ==> slots@[i] == filler_segment(),
            decreases length - position,
        {
            slots[position] = self.slots[position];
            position = position + 1;
        }
        proof {
            assert(slots@.take(length as int) =~= self@.take(length as int));
        }
        QuotaPath { slots, depth: length }
    }

    /// Whether two paths have the same segments.
    fn same_path(&self, other: &QuotaPath) -> (same: bool)
        ensures
            same == (*self == *other),
    {
        proof {
            use_type_invariant(self);
            use_type_invariant(other);
        }
        if self.depth != other.depth {
            return false;
        }
        let mut index: usize = 0;
        while index < self.depth
            invariant
                index <= self.depth <= 5,
                self.depth == other.depth,
                forall|i: int| 0 <= i < index ==> self.slots@[i] == other.slots@[i],
            decreases self.depth - index,
        {
            if !same_segment(&self.slots[index], &other.slots[index]) {
                proof {
                    assert(self.slots@[index as int] != other.slots@[index as int]);
                }
                return false;
            }
            index = index + 1;
        }
        proof {
            broadcast use vstd::array::axiom_array_ext_equal;

            assert forall|i: int| 0 <= i < 5 implies self.slots@[i] == other.slots@[i] by {}
            assert(self.slots =~= other.slots);
        }
        true
    }

    /// Whether `self` sorts before `other`: segment by segment, a proper
    /// ancestor first.
    fn precedes(&self, other: &QuotaPath) -> (precedes: bool)
        ensures
            precedes == path_before(self@, other@),
    {
        proof {
            use_type_invariant(self);
            use_type_invariant(other);
            assert(self@.subrange(0, self@.len() as int) =~= self@);
            assert(other@.subrange(0, other@.len() as int) =~= other@);
        }
        let mut index: usize = 0;
        while index < self.depth && index < other.depth
            invariant
                self.depth <= 5,
                other.depth <= 5,
                self@.len() == self.depth,
                other@.len() == other.depth,
                index <= self.depth,
                index <= other.depth,
                forall|i: int| 0 <= i < self.depth ==> self@[i] == self.slots@[i],
                forall|i: int| 0 <= i < other.depth ==> other@[i] == other.slots@[i],
                path_before(self@, other@) == path_before(
                    self@.subrange(index as int, self@.len() as int),
                    other@.subrange(index as int, other@.len() as int),
                ),
            decreases 5 - index,
        {
            if !same_segment(&self.slots[index], &other.slots[index]) {
                proof {
                    let l = self@.subrange(index as int, self@.len() as int);
                    let r = other@.subrange(index as int, other@.len() as int);
                    assert(l[0] == self.slots@[index as int]);
                    assert(r[0] == other.slots@[index as int]);
                }
                return segment_precedes(&self.slots[index], &other.slots[index]);
            }
            proof {
                let l = self@.subrange(index as int, self@.len() as int);
                let r = other@.subrange(index as int, other@.len() as int);
                assert(l[0] == self.slots@[index as int]);
                assert(r[0] == other.slots@[index as int]);
                assert(l.drop_first() =~= self@.subrange(index + 1, self@.len() as int));
                assert(r.drop_first() =~= other@.subrange(index + 1, other@.len() as int));
            }
            index = index + 1;
        }
        proof {
            let l = self@.subrange(index as int, self@.len() as int);
            let r = other@.subrange(index as int, other@.len() as int);
            assert(l.len() == 0 || r.len() == 0);
        }
        self.depth < other.depth
    }
}

proof fn lemma_level_fault_iff(segments: Seq<QuotaSegment>, from: int)
    requires
        1 <= from <= segments.len(),
        forall|i: int| 0 <= i < from ==> segment_rank(#[trigger] segments[i]) == i,
    ensures
        level_fault(segments, from) is None <==> forall|i: int|
            0 <= i < segments.len() ==> segment_rank(#[trigger] segments[i]) == i,
    decreases segments.len() - from,
{
    if from < segments.len() {
        if segment_rank(segments[from]) == segment_rank(segments[from - 1]) + 1 {
            lemma_level_fault_iff(segments, from + 1);
        }
    }
}

proof fn lemma_path_fault_iff_canonical(segments: Seq<QuotaSegment>)
    ensures
        path_fault(segments) is None <==> canonical_segments(segments),
{
    if 1 <= segments.len() <= 5 && segment_rank(segments[0]) == 0 {
        lemma_level_fault_iff(segments, 1);
    }
}

/// Live reservation: whole capacity held for an owner on one path.
#[derive(Clone, Copy, Debug, PartialEq, Eq)]
pub struct ReservationEntry {
    id: ReservationId,
    generation: u64,
    owner: ResourceOwnerKey,
    path: QuotaPath,
    class: ResourceClass,
    vector: DurableChargeVector,
    hold: OwnerHold,
}

impl ReservationEntry {
    /// The entry's identifier.
    pub closed spec fn spec_id(self) -> ReservationId {
        self.id
    }

    /// The entry's generation.
    pub closed spec fn spec_generation(self) -> u64 {
        self.generation
    }

    /// The entry's owner.
    pub closed spec fn spec_owner(self) -> ResourceOwnerKey {
        self.owner
    }

    /// The entry's quota path.
    pub closed spec fn spec_path(self) -> QuotaPath {
        self.path
    }

    /// The entry's capacity lane.
    pub closed spec fn spec_class(self) -> ResourceClass {
        self.class
    }

    /// The reserved vector.
    pub closed spec fn spec_vector(self) -> DurableChargeVector {
        self.vector
    }

    /// The entry's hold.
    pub closed spec fn spec_hold(self) -> OwnerHold {
        self.hold
    }

    pub fn id(&self) -> (id: ReservationId)
        ensures
            id == self.spec_id(),
    {
        self.id
    }

    pub fn generation(&self) -> (generation: u64)
        ensures
            generation == self.spec_generation(),
    {
        self.generation
    }

    pub fn owner(&self) -> (owner: &ResourceOwnerKey)
        ensures
            *owner == self.spec_owner(),
    {
        &self.owner
    }

    pub fn path(&self) -> (path: &QuotaPath)
        ensures
            *path == self.spec_path(),
    {
        &self.path
    }

    pub fn class(&self) -> (class: ResourceClass)
        ensures
            class == self.spec_class(),
    {
        self.class
    }

    pub fn vector(&self) -> (vector: DurableChargeVector)
        ensures
            vector == self.spec_vector(),
    {
        self.vector
    }

    pub fn hold(&self) -> (hold: OwnerHold)
        ensures
            hold == self.spec_hold(),
    {
        self.hold
    }
}

/// Committed charge: capacity consumed for an owner on one path.
#[derive(Clone, Copy, Debug, PartialEq, Eq)]
pub struct ChargeEntry {
    id: ChargeId,
    generation: u64,
    owner: ResourceOwnerKey,
    path: QuotaPath,
    class: ResourceClass,
    vector: DurableChargeVector,
    stable_subject_key: StableSubjectKey,
}

impl ChargeEntry {
    /// The entry's identifier.
    pub closed spec fn spec_id(self) -> ChargeId {
        self.id
    }

    /// The entry's generation.
    pub closed spec fn spec_generation(self) -> u64 {
        self.generation
    }

    /// The entry's owner.
    pub closed spec fn spec_owner(self) -> ResourceOwnerKey {
        self.owner
    }

    /// The entry's quota path.
    pub closed spec fn spec_path(self) -> QuotaPath {
        self.path
    }

    /// The lane the charge was reserved in.
    pub closed spec fn spec_class(self) -> ResourceClass {
        self.class
    }

    /// The charged vector.
    pub closed spec fn spec_vector(self) -> DurableChargeVector {
        self.vector
    }

    /// The subject the charge accounts for.
    pub closed spec fn spec_stable_subject_key(self) -> StableSubjectKey {
        self.stable_subject_key
    }

    pub fn id(&self) -> (id: ChargeId)
        ensures
            id == self.spec_id(),
    {
        self.id
    }

    pub fn generation(&self) -> (generation: u64)
        ensures
            generation == self.spec_generation(),
    {
        self.generation
    }

    pub fn owner(&self) -> (owner: &ResourceOwnerKey)
        ensures
            *owner == self.spec_owner(),
    {
        &self.owner
    }

    pub fn path(&self) -> (path: &QuotaPath)
        ensures
            *path == self.spec_path(),
    {
        &self.path
    }

    pub fn class(&self) -> (class: ResourceClass)
        ensures
            class == self.spec_class(),
    {
        self.class
    }

    pub fn vector(&self) -> (vector: DurableChargeVector)
        ensures
            vector == self.spec_vector(),
    {
        self.vector
    }

    pub fn stable_subject_key(&self) -> (key: StableSubjectKey)
        ensures
            key == self.spec_stable_subject_key(),
    {
        self.stable_subject_key
    }
}

/// The identity a ledger is bound to.
#[derive(Clone, Copy, Debug, PartialEq, Eq)]
pub struct ResourceLedgerIdentity {
    pub database_security_namespace_id: DatabaseSecurityNamespaceId,
    pub cluster_incarnation: [u8; 16],
    pub role: ResourceAccountingRole,
    pub limit_policy_oid: ObjectId,
    pub limit_policy_epoch: u64,
}

/// The first non-role ledger-identity component that failed to match.
#[derive(Clone, Copy, Debug, PartialEq, Eq)]
pub enum LedgerIdentityMismatch {
    DatabaseSecurityNamespace {
        expected: DatabaseSecurityNamespaceId,
        actual: DatabaseSecurityNamespaceId,
    },
    ClusterIncarnation { expected: [u8; 16], actual: [u8; 16] },
    LimitPolicy { expected: ObjectId, actual: ObjectId },
    LimitPolicyEpoch { expected: u64, actual: u64 },
}

/// The first identity component, role aside, in which `actual` differs
/// from `expected`.
pub open spec fn identity_mismatch(
    expected: ResourceLedgerIdentity,
    actual: ResourceLedgerIdentity,
) -> Option<LedgerIdentityMismatch> {
    if expected.database_security_namespace_id != actual.database_security_namespace_id {
        Some(
            LedgerIdentityMismatch::DatabaseSecurityNamespace {
                expected: expected.database_security_namespace_id,
                actual: actual.database_security_namespace_id,
            },
        )
    } else if expected.cluster_incarnation != actual.cluster_incarnation {
        Some(
            LedgerIdentityMismatch::ClusterIncarnation {
                expected: expected.cluster_incarnation,
                actual: actual.cluster_incarnation,
            },
        )
    } else if expected.limit_policy_oid != actual.limit_policy_oid {
        Some(
            LedgerIdentityMismatch::LimitPolicy {
                expected: expected.limit_policy_oid,
                actual: actual.limit_policy_oid,
            },
        )
    } else if expected.limit_policy_epoch != actual.limit_policy_epoch {
        Some(
            LedgerIdentityMismatch::LimitPolicyEpoch {
                expected: expected.limit_policy_epoch,
                actual: actual.limit_policy_epoch,
            },
        )
    } else {
        None
    }
}

fn ledger_identity_mismatch(expected: ResourceLedgerIdentity, actual: ResourceLedgerIdentity) -> (mismatch: Option<
    LedgerIdentityMismatch,
>)
    ensures
        mismatch == identity_mismatch(expected, actual),
{
    if !same_bytes32(
        &expected.database_security_namespace_id.0,
        &actual.database_security_namespace_id.0,
    ) {
        return Some(
            LedgerIdentityMismatch::DatabaseSecurityNamespace {
                expected: expected.database_security_namespace_id,
                actual: actual.database_security_namespace_id,
            },
        );
    }
    if !same_bytes16(&expected.cluster_incarnation, &actual.cluster_incarnation) {
        return Some(
            LedgerIdentityMismatch::ClusterIncarnation {
                expected: expected.cluster_incarnation,
                actual: actual.cluster_incarnation,
            },
        );
    }
    if !same_bytes32(&expected.limit_policy_oid.0, &actual.limit_policy_oid.0) {
        return Some(
            LedgerIdentityMismatch::LimitPolicy {
                expected: expected.limit_policy_oid,
                actual: actual.limit_policy_oid,
            },
        );
    }
    if expected.limit_policy_epoch != actual.limit_policy_epoch {
        return Some(
            LedgerIdentityMismatch::LimitPolicyEpoch {
                expected: expected.limit_policy_epoch,
                actual: actual.limit_policy_epoch,
            },
        );
    }
    None
}

/// Evidence references consumed by expiry validation.
#[derive(Clone, Copy, Debug, PartialEq, Eq)]
pub struct ExpiryEvidence {
    pub reservation_id: ReservationId,
    pub reservation_generation: u64,
    pub owner_quiescence_proof_ref: ObjectId,
    pub time_validation_evidence_ref: ObjectId,
    pub time_classification: TimeEvidenceClassification,
    pub confirms_quiescence: bool,
}

/// Exact whole-entry ledger operation.
#[derive(Clone, Copy, Debug, PartialEq, Eq)]
pub enum LedgerOperation {
    Reserve { reservation_id: ReservationId, vector: DurableChargeVector, hold: OwnerHold },
    Charge {
        reservation_id: ReservationId,
        expected_reservation_generation: u64,
        charge_id: ChargeId,
        vector: DurableChargeVector,
        stable_subject_key: StableSubjectKey,
    },
    Release { subject: LedgerSubject, expected_generation: u64, exact_vector: DurableChargeVector },
    Expire {
        reservation_id: ReservationId,
        expected_generation: u64,
        exact_vector: DurableChargeVector,
        evidence: ExpiryEvidence,
    },
    Transfer {
        subject: LedgerSubject,
        expected_generation: u64,
        target_owner: ResourceOwnerKey,
        target_path: QuotaPath,
        exact_conserved_vector: DurableChargeVector,
    },
    Adjust {
        charge_id: ChargeId,
        expected_generation: u64,
        before_vector: DurableChargeVector,
        after_vector: DurableChargeVector,
        stable_subject_key: StableSubjectKey,
    },
}

/// Authority and basis fields common to every transition.
#[derive(Clone, Copy, Debug, PartialEq, Eq)]
pub struct TransitionHeader {
    pub expected_ledger_identity: ResourceLedgerIdentity,
    pub transition_id: TransitionId,
    pub idempotency_key_digest: [u8; 32],
    pub expected_ledger_generation: u64,
    pub owner: ResourceOwnerKey,
    pub resource_class: ResourceClass,
    pub quota_path: QuotaPath,
}

/// Sequence-neutral pre-order transition. The body digest names the
/// complete canonical transition body.
#[derive(Clone, Copy, Debug, PartialEq, Eq)]
pub struct ResourceLedgerTransition {
    pub header: TransitionHeader,
    pub operation: LedgerOperation,
    pub body_digest: [u8; 32],
}

fn same_owner(left: &ResourceOwnerKey, right: &ResourceOwnerKey) -> (same: bool)
    ensures
        same == (*left == *right),
{
    match (left, right) {
        (
            ResourceOwnerKey::Attempt { posture: p1, registration_identity: r1 },
            ResourceOwnerKey::Attempt { posture: p2, registration_identity: r2 },
        ) => *p1 == *p2 && same_bytes32(r1, r2),
        (
            ResourceOwnerKey::Statement { posture: p1, registration_identity: r1, statement_seq: s1 },
            ResourceOwnerKey::Statement { posture: p2, registration_identity: r2, statement_seq: s2 },
        ) => *p1 == *p2 && *s1 == *s2 && same_bytes32(r1, r2),
        (
            ResourceOwnerKey::ResultDelivery { posture: p1, result_delivery_id: r1 },
            ResourceOwnerKey::ResultDelivery { posture: p2, result_delivery_id: r2 },
        ) => *p1 == *p2 && same_bytes32(r1, r2),
        (
            ResourceOwnerKey::Subscription { cursor_id: c1 },
            ResourceOwnerKey::Subscription { cursor_id: c2 },
        ) => same_bytes32(c1, c2),
        (
            ResourceOwnerKey::DurableObject { object_class: o1, stable_logical_owner_key: k1 },
            ResourceOwnerKey::DurableObject { object_class: o2, stable_logical_owner_key: k2 },
        ) => *o1 == *o2 && same_bytes32(k1, k2),
        (
            ResourceOwnerKey::Replay { replay_manifest_key: k1 },
            ResourceOwnerKey::Replay { replay_manifest_key: k2 },
        ) => same_bytes32(k1, k2),
        (
            ResourceOwnerKey::BackupPin { backup_id: b1, scope: s1 },
            ResourceOwnerKey::BackupPin { backup_id: b2, scope: s2 },
        ) => same_bytes32(b1, b2) && same_bytes32(s1, s2),
        (
            ResourceOwnerKey::PreparedClosure { prepared_ownership_id: p1 },
            ResourceOwnerKey::PreparedClosure { prepared_ownership_id: p2 },
        ) => same_bytes32(p1, p2),
        (
            ResourceOwnerKey::Maintenance { job_id: j1, registered_class: c1 },
            ResourceOwnerKey::Maintenance { job_id: j2, registered_class: c2 },
        ) => *c1 == *c2 && same_bytes32(j1, j2),
        _ => false,
    }
}

fn same_subject(left: &LedgerSubject, right: &LedgerSubject) -> (same: bool)
    ensures
        same == (*left == *right),
{
    match (left, right) {
        (LedgerSubject::Reservation(a), LedgerSubject::Reservation(b)) => same_bytes32(&a.0, &b.0),
        (LedgerSubject::Charge(a), LedgerSubject::Charge(b)) => same_bytes32(&a.0, &b.0),
        _ => false,
    }
}

fn same_identity(left: &ResourceLedgerIdentity, right: &ResourceLedgerIdentity) -> (same: bool)
    ensures
        same == (*left == *right),
{
    left.role == right.role && ledger_identity_mismatch(*left, *right).is_none()
}

fn same_evidence(left: &ExpiryEvidence, right: &ExpiryEvidence) -> (same: bool)
    ensures
        same == (*left == *right),
{
    same_bytes32(&left.reservation_id.0, &right.reservation_id.0)
        && left.reservation_generation == right.reservation_generation && same_bytes32(
        &left.owner_quiescence_proof_ref.0,
        &right.owner_quiescence_proof_ref.0,
    ) && same_bytes32(&left.time_validation_evidence_ref.0, &right.time_validation_evidence_ref.0)
        && left.time_classification == right.time_classification && left.confirms_quiescence
        == right.confirms_quiescence
}

fn same_operation(left: &LedgerOperation, right: &LedgerOperation) -> (same: bool)
    ensures
        same == (*left == *right),
{
    match (left, right) {
        (
            LedgerOperation::Reserve { reservation_id: i1, vector: v1, hold: h1 },
            LedgerOperation::Reserve { reservation_id: i2, vector: v2, hold: h2 },
        ) => same_bytes32(&i1.0, &i2.0) && *v1 == *v2 && *h1 == *h2,
        (
            LedgerOperation::Charge {
                reservation_id: r1,
                expected_reservation_generation: g1,
                charge_id: c1,
                vector: v1,
                stable_subject_key: k1,
            },
            LedgerOperation::Charge {
                reservation_id: r2,
                expected_reservation_generation: g2,
                charge_id: c2,
                vector: v2,
                stable_subject_key: k2,
            },
        ) => same_bytes32(&r1.0, &r2.0) && *g1 == *g2 && same_bytes32(&c1.0, &c2.0) && *v1 == *v2
            && same_bytes32(&k1.0, &k2.0),
        (
            LedgerOperation::Release { subject: s1, expected_generation: g1, exact_vector: v1 },
            LedgerOperation::Release { subject: s2, expected_generation: g2, exact_vector: v2 },
        ) => same_subject(s1, s2) && *g1 == *g2 && *v1 == *v2,
        (
            LedgerOperation::Expire {
                reservation_id: r1,
                expected_generation: g1,
                exact_vector: v1,
                evidence: e1,
            },
            LedgerOperation::Expire {
                reservation_id: r2,
                expected_generation: g2,
                exact_vector: v2,
                evidence: e2,
            },
        ) => same_bytes32(&r1.0, &r2.0) && *g1 == *g2 && *v1 == *v2 && same_evidence(e1, e2),
        (
            LedgerOperation::Transfer {
                subject: s1,
                expected_generation: g1,
                target_owner: o1,
                target_path: p1,
                exact_conserved_vector: v1,
            },
            LedgerOperation::Transfer {
                subject: s2,
                expected_generation: g2,
                target_owner: o2,
                target_path: p2,
                exact_conserved_vector: v2,
            },
        ) => same_subject(s1, s2) && *g1 == *g2 && same_owner(o1, o2) && p1.same_path(p2) && *v1
            == *v2,
        (
            LedgerOperation::Adjust {
                charge_id: c1,
                expected_generation: g1,
                before_vector: b1,
                after_vector: a1,
                stable_subject_key: k1,
            },
            LedgerOperation::Adjust {
                charge_id: c2,
                expected_generation: g2,
                before_vector: b2,
                after_vector: a2,
                stable_subject_key: k2,
            },
        ) => same_bytes32(&c1.0, &c2.0) && *g1 == *g2 && *b1 == *b2 && *a1 == *a2 && same_bytes32(
            &k1.0,
            &k2.0,
        ),
        _ => false,
    }
}

fn same_transition(left: &ResourceLedgerTransition, right: &ResourceLedgerTransition) -> (same: bool)
    ensures
        same == (*left == *right),
{
    let l = &left.header;
    let r = &right.header;
    same_identity(&l.expected_ledger_identity, &r.expected_ledger_identity) && same_bytes32(
        &l.transition_id.0,
        &r.transition_id.0,
    ) && same_bytes32(&l.idempotency_key_digest, &r.idempotency_key_digest)
        && l.expected_ledger_generation == r.expected_ledger_generation && same_owner(
        &l.owner,
        &r.owner,
    ) && l.resource_class == r.resource_class && l.quota_path.same_path(&r.quota_path)
        && same_operation(&left.operation, &right.operation) && same_bytes32(
        &left.body_digest,
        &right.body_digest,
    )
}

/// Why a ledger transition or construction was refused.
#[derive(Clone, Copy, Debug, PartialEq, Eq)]
pub enum LedgerError {
    NoBuckets,
    DuplicateBucket { path: QuotaPath },
    MissingAncestorBucket { path: QuotaPath, missing: QuotaPath },
    UnknownBucket { path: QuotaPath },
    BucketRejected { path: QuotaPath, cause: BucketStateError },
    BucketPlanAllocationFailed { requested_buckets: usize },
    NonemptyGenesisBucket { path: QuotaPath },
    Vector(DurableVectorError),
    WrongAuthorityRole { expected: ResourceAccountingRole, actual: ResourceAccountingRole },
    WrongLedgerIdentity { mismatch: LedgerIdentityMismatch },
    StaleLedgerGeneration { expected: u64, actual: u64 },
    LedgerGenerationOverflow,
    EntryGenerationOverflow,
    IdempotencyBodyDrift { transition_id: TransitionId, recorded: [u8; 32], supplied: [u8; 32] },
    IdempotencySemanticDrift { transition_id: TransitionId },
    ZeroVector,
    ReservationIdAlreadyUsed { reservation_id: ReservationId },
    ChargeIdAlreadyUsed { charge_id: ChargeId },
    MaintenanceReserveRequiresRegisteredOwner,
    UnknownReservation { reservation_id: ReservationId },
    UnknownCharge { charge_id: ChargeId },
    OwnerMismatch,
    QuotaPathMismatch { expected: QuotaPath, actual: QuotaPath },
    ResourceClassMismatch { expected: ResourceClass, actual: ResourceClass },
    StaleEntryGeneration { expected: u64, actual: u64 },
    ExactVectorMismatch { expected: DurableChargeVector, actual: DurableChargeVector },
    ChargeExceedsReservation {
        reservation_id: ReservationId,
        axis: DurableChargeAxis,
        reserved: u64,
        charged: u64,
    },
    ExpiryEvidenceSubjectMismatch { expected: ReservationId, actual: ReservationId },
    ExpiryEvidenceGenerationMismatch { expected: u64, actual: u64 },
    ExpiryTimeNotExpired { reservation_id: ReservationId },
    ExpiryNotQuiescent { reservation_id: ReservationId },
    ProtectedOwnerCannotExpire { reservation_id: ReservationId, hold: OwnerHold },
    NoopTransfer,
    NoopAdjust { charge_id: ChargeId },
    StableSubjectKeyMismatch {
        charge_id: ChargeId,
        expected: StableSubjectKey,
        actual: StableSubjectKey,
    },
    WholeChargeMustUseRelease { charge_id: ChargeId },
}

/// Component-wise sum, each component taken as a `u64`.
pub open spec fn vector_plus(a: DurableChargeVector, b: DurableChargeVector) -> DurableChargeVector {
    DurableChargeVector {
        canonical_durable_bytes: (a.canonical_durable_bytes + b.canonical_durable_bytes) as u64,
        retained_history_bytes: (a.retained_history_bytes + b.retained_history_bytes) as u64,
        branch_count: (a.branch_count + b.branch_count) as u64,
        index_count: (a.index_count + b.index_count) as u64,
        view_count: (a.view_count + b.view_count) as u64,
        subscription_count: (a.subscription_count + b.subscription_count) as u64,
    }
}

/// Component-wise difference, each component taken as a `u64`.
pub open spec fn vector_minus(a: DurableChargeVector, b: DurableChargeVector) -> DurableChargeVector {
    DurableChargeVector {
        canonical_durable_bytes: (a.canonical_durable_bytes - b.canonical_durable_bytes) as u64,
        retained_history_bytes: (a.retained_history_bytes - b.retained_history_bytes) as u64,
        branch_count: (a.branch_count - b.branch_count) as u64,
        index_count: (a.index_count - b.index_count) as u64,
        view_count: (a.view_count - b.view_count) as u64,
        subscription_count: (a.subscription_count - b.subscription_count) as u64,
    }
}

fn vector_add(a: DurableChargeVector, b: DurableChargeVector) -> (result: Result<
    DurableChargeVector,
    DurableVectorError,
>)
    ensures
        match result {
            Ok(sum) => a.sum_fits(b) && sum == vector_plus(a, b),
            Err(error) => !a.sum_fits(b) && error is Overflow,
        },
{
    let result = a.checked_add(b);
    proof {
        if let Ok(sum) = result {
            assert(sum.spec_axis(durable_axis_at(0)) == a.spec_axis(durable_axis_at(0)) + b.spec_axis(durable_axis_at(0)));
            assert(sum.spec_axis(durable_axis_at(1)) == a.spec_axis(durable_axis_at(1)) + b.spec_axis(durable_axis_at(1)));
            assert(sum.spec_axis(durable_axis_at(2)) == a.spec_axis(durable_axis_at(2)) + b.spec_axis(durable_axis_at(2)));
            assert(sum.spec_axis(durable_axis_at(3)) == a.spec_axis(durable_axis_at(3)) + b.spec_axis(durable_axis_at(3)));
            assert(sum.spec_axis(durable_axis_at(4)) == a.spec_axis(durable_axis_at(4)) + b.spec_axis(durable_axis_at(4)));
            assert(sum.spec_axis(durable_axis_at(5)) == a.spec_axis(durable_axis_at(5)) + b.spec_axis(durable_axis_at(5)));
        }
    }
    result
}

fn vector_subtract(a: DurableChargeVector, b: DurableChargeVector) -> (result: Result<
    DurableChargeVector,
    DurableVectorError,
>)
    ensures
        match result {
            Ok(difference) => b.spec_fits_within(a) && difference == vector_minus(a, b),
            Err(error) => !b.spec_fits_within(a) && error is Underflow,
        },
{
    let result = a.checked_sub(b);
    proof {
        if let Ok(d) = result {
            assert(d.spec_axis(durable_axis_at(0)) == a.spec_axis(durable_axis_at(0)) - b.spec_axis(durable_axis_at(0)));
            assert(d.spec_axis(durable_axis_at(1)) == a.spec_axis(durable_axis_at(1)) - b.spec_axis(durable_axis_at(1)));
            assert(d.spec_axis(durable_axis_at(2)) == a.spec_axis(durable_axis_at(2)) - b.spec_axis(durable_axis_at(2)));
            assert(d.spec_axis(durable_axis_at(3)) == a.spec_axis(durable_axis_at(3)) - b.spec_axis(durable_axis_at(3)));
            assert(d.spec_axis(durable_axis_at(4)) == a.spec_axis(durable_axis_at(4)) - b.spec_axis(durable_axis_at(4)));
            assert(d.spec_axis(durable_axis_at(5)) == a.spec_axis(durable_axis_at(5)) - b.spec_axis(durable_axis_at(5)));
        }
    }
    result
}

/// Net change to one bucket: what leaves and what enters each usage lane.
#[derive(Clone, Copy, Debug, PartialEq, Eq, Structural)]
pub struct BucketChange {
    pub ordinary_sub: DurableChargeVector,
    pub ordinary_add: DurableChargeVector,
    pub maintenance_sub: DurableChargeVector,
    pub maintenance_add: DurableChargeVector,
    pub committed_sub: DurableChargeVector,
    pub committed_add: DurableChargeVector,
}

/// The change that leaves a bucket as it is.
pub open spec fn no_change() -> BucketChange {
    BucketChange {
        ordinary_sub: DurableChargeVector::spec_zero(),
        ordinary_add: DurableChargeVector::spec_zero(),
        maintenance_sub: DurableChargeVector::spec_zero(),
        maintenance_add: DurableChargeVector::spec_zero(),
        committed_sub: DurableChargeVector::spec_zero(),
        committed_add: DurableChargeVector::spec_zero(),
    }
}

/// Where a reservation of `class` moves: into (`add`) or out of its lane.
pub open spec fn lane_change(
    change: BucketChange,
    class: ResourceClass,
    add: bool,
    vector: DurableChargeVector,
) -> BucketChange {
    match (class, add) {
        (ResourceClass::Ordinary, true) => BucketChange {
            ordinary_add: vector_plus(change.ordinary_add, vector),
            ..change
        },
        (ResourceClass::Ordinary, false) => BucketChange {
            ordinary_sub: vector_plus(change.ordinary_sub, vector),
            ..change
        },
        (ResourceClass::RegisteredMaintenance, true) => BucketChange {
            maintenance_add: vector_plus(change.maintenance_add, vector),
            ..change
        },
        (ResourceClass::RegisteredMaintenance, false) => BucketChange {
            maintenance_sub: vector_plus(change.maintenance_sub, vector),
            ..change
        },
    }
}

/// A committed charge moving into (`add`) or out of a bucket.
pub open spec fn committed_change(change: BucketChange, add: bool, vector: DurableChargeVector) -> BucketChange {
    if add {
        BucketChange { committed_add: vector_plus(change.committed_add, vector), ..change }
    } else {
        BucketChange { committed_sub: vector_plus(change.committed_sub, vector), ..change }
    }
}

/// Whether a change can be applied to a bucket's usage lanes without any
/// lane dropping below zero or overflowing.
pub open spec fn change_fits(before: BucketState, change: BucketChange) -> bool {
    &&& change.ordinary_sub.spec_fits_within(before.spec_ordinary_reserved())
    &&& vector_minus(before.spec_ordinary_reserved(), change.ordinary_sub).sum_fits(change.ordinary_add)
    &&& change.maintenance_sub.spec_fits_within(before.spec_maintenance_reserved())
    &&& vector_minus(before.spec_maintenance_reserved(), change.maintenance_sub).sum_fits(
        change.maintenance_add,
    )
    &&& change.committed_sub.spec_fits_within(before.spec_committed())
    &&& vector_minus(before.spec_committed(), change.committed_sub).sum_fits(change.committed_add)
}

/// A bucket moved by a change: each usage lane loses its subtraction and
/// then gains its addition, with no lane going below zero or overflowing;
/// limits stay.
pub open spec fn bucket_moved(before: BucketState, after: BucketState, change: BucketChange) -> bool {
    &&& change_fits(before, change)
    &&& after.spec_hard_limit() == before.spec_hard_limit()
    &&& after.spec_protected_maintenance_reserve() == before.spec_protected_maintenance_reserve()
    &&& after.spec_ordinary_reserved() == vector_plus(
        vector_minus(before.spec_ordinary_reserved(), change.ordinary_sub),
        change.ordinary_add,
    )
    &&& after.spec_maintenance_reserved() == vector_plus(
        vector_minus(before.spec_maintenance_reserved(), change.maintenance_sub),
        change.maintenance_add,
    )
    &&& after.spec_committed() == vector_plus(
        vector_minus(before.spec_committed(), change.committed_sub),
        change.committed_add,
    )
}

/// The state a change moves a bucket to.
pub closed spec fn moved_state(before: BucketState, change: BucketChange) -> BucketState {
    BucketState {
        ordinary_reserved: vector_plus(
            vector_minus(before.ordinary_reserved, change.ordinary_sub),
            change.ordinary_add,
        ),
        maintenance_reserved: vector_plus(
            vector_minus(before.maintenance_reserved, change.maintenance_sub),
            change.maintenance_add,
        ),
        committed: vector_plus(vector_minus(before.committed, change.committed_sub), change.committed_add),
        ..before
    }
}

/// Whether a bucket accepts a change: the lanes stay in range and the moved
/// state keeps every capacity law.
pub open spec fn bucket_admits(before: BucketState, change: BucketChange) -> bool {
    change_fits(before, change) && moved_state(before, change).spec_valid()
}

/// How moving the bucket at `path` by `change` is refused: with no bucket
/// there, as unknown; else at the first lane step that leaves its range
/// (ordinary, then maintenance, then committed usage, each losing its
/// subtraction before gaining its addition), as a vector underflow or
/// overflow; else as the moved state's own first capacity failure.
pub open spec fn planning_refusal(
    bucket: Option<BucketState>,
    path: QuotaPath,
    change: BucketChange,
    error: LedgerError,
) -> bool {
    match bucket {
        None => error == (LedgerError::UnknownBucket { path }),
        Some(before) => {
            let ordinary = vector_minus(before.spec_ordinary_reserved(), change.ordinary_sub);
            let maintenance = vector_minus(before.spec_maintenance_reserved(), change.maintenance_sub);
            let committed = vector_minus(before.spec_committed(), change.committed_sub);
            if !change.ordinary_sub.spec_fits_within(before.spec_ordinary_reserved()) {
                error matches LedgerError::Vector(e) && e is Underflow
            } else if !ordinary.sum_fits(change.ordinary_add) {
                error matches LedgerError::Vector(e) && e is Overflow
            } else if !change.maintenance_sub.spec_fits_within(before.spec_maintenance_reserved()) {
                error matches LedgerError::Vector(e) && e is Underflow
            } else if !maintenance.sum_fits(change.maintenance_add) {
                error matches LedgerError::Vector(e) && e is Overflow
            } else if !change.committed_sub.spec_fits_within(before.spec_committed()) {
                error matches LedgerError::Vector(e) && e is Underflow
            } else if !committed.sum_fits(change.committed_add) {
                error matches LedgerError::Vector(e) && e is Overflow
            } else {
                &&& !moved_state(before, change).spec_valid()
                &&& error matches LedgerError::BucketRejected { path: at, cause }
                &&& at == path
                &&& moved_state(before, change).reports(cause)
            }
        },
    }
}

/// A state a change moved a bucket to is valid exactly when the bucket
/// admits the change.
proof fn lemma_moved_valid_iff_admits(before: BucketState, after: BucketState, change: BucketChange)
    requires
        bucket_moved(before, after, change),
    ensures
        after.spec_valid() == bucket_admits(before, change),
{
    assert(after == moved_state(before, change));
}

/// The ancestor of `path` made of its first `length` segments, with the
/// unused slots filled canonically.
pub closed spec fn prefix_of(path: QuotaPath, length: int) -> QuotaPath {
    QuotaPath {
        slots: [
            if 0 < length { path.slots[0] } else { filler_segment() },
            if 1 < length { path.slots[1] } else { filler_segment() },
            if 2 < length { path.slots[2] } else { filler_segment() },
            if 3 < length { path.slots[3] } else { filler_segment() },
            if 4 < length { path.slots[4] } else { filler_segment() },
        ],
        depth: length as usize,
    }
}

/// Whether `ancestor` is `path` or one of its proper ancestors.
pub open spec fn ancestor_of(ancestor: QuotaPath, path: QuotaPath) -> bool {
    exists|length: int| 1 <= length <= path@.len() && ancestor == prefix_of(path, length)
}

/// One accumulated bucket change.
#[derive(Clone, Copy, Debug)]
struct ChangeSlot {
    path: QuotaPath,
    change: BucketChange,
}

/// No two slots name the same path.
spec fn distinct_changes(changes: Seq<ChangeSlot>) -> bool {
    forall|i: int, j: int| 0 <= i < j < changes.len() ==> changes[i].path != changes[j].path
}

/// Slots in strictly ascending path order, each path in canonical form.
spec fn sorted_changes(changes: Seq<ChangeSlot>) -> bool {
    &&& forall|i: int| 0 <= i < changes.len() ==> (#[trigger] changes[i]).path.canonical()
    &&& forall|i: int, j: int|
        0 <= i < j < changes.len() ==> path_before(
            (#[trigger] changes[i]).path@,
            (#[trigger] changes[j]).path@,
        )
}

/// Canonical paths with one view are one path.
proof fn lemma_canonical_view_injective(a: QuotaPath, b: QuotaPath)
    requires
        a.canonical(),
        b.canonical(),
        a@ == b@,
    ensures
        a == b,
{
    broadcast use vstd::array::group_array_axioms;

    assert(a@.len() == a.depth);
    assert(b@.len() == b.depth);
    assert forall|i: int| 0 <= i < 5 implies a.slots[i] == b.slots[i] by {
        if i < a.depth {
            assert(a.slots@[i] == a@[i]);
            assert(b.slots@[i] == b@[i]);
        }
    }
    assert(a.slots =~= b.slots);
}

/// Where a path absent from sorted slots belongs: after every slot it does
/// not precede, before the first one it does.
proof fn lemma_insert_position(before: Seq<ChangeSlot>, path: QuotaPath, change: BucketChange, at: int)
    requires
        sorted_changes(before),
        path.canonical(),
        0 <= at <= before.len(),
        forall|i: int| 0 <= i < before.len() ==> before[i].path != path,
        forall|i: int| 0 <= i < at ==> !path_before(path@, #[trigger] before[i].path@),
        at < before.len() ==> path_before(path@, before[at].path@),
    ensures
        sorted_changes(before.insert(at, ChangeSlot { path, change })),
{
    assert forall|i: int| 0 <= i < at implies path_before(#[trigger] before[i].path@, path@) by {
        if before[i].path@ == path@ {
            lemma_canonical_view_injective(before[i].path, path);
        }
        lemma_path_total(before[i].path@, path@);
    }
    assert forall|i: int| at <= i < before.len() implies path_before(path@, #[trigger] before[i].path@) by {
        if i > at {
            lemma_path_transitive(path@, before[at].path@, before[i].path@);
        }
    }
    let after = before.insert(at, ChangeSlot { path, change });
    assert forall|i: int, j: int| 0 <= i < j < after.len() implies path_before(
        (#[trigger] after[i]).path@,
        (#[trigger] after[j]).path@,
    ) by {
        if i < at && j == at {
        } else if i == at {
            assert(before[j - 1].path@ == after[j].path@);
        } else if j < at {
        } else if i < at {
            assert(before[j - 1].path@ == after[j].path@);
            lemma_path_transitive(before[i].path@, path@, before[j - 1].path@);
        } else {
            assert(before[i - 1].path@ == after[i].path@);
            assert(before[j - 1].path@ == after[j].path@);
        }
    }
}

/// Slots that keep their paths keep their order.
proof fn lemma_sorted_same_paths(before: Seq<ChangeSlot>, after: Seq<ChangeSlot>)
    requires
        sorted_changes(before),
        before.len() == after.len(),
        forall|i: int| 0 <= i < before.len() ==> (#[trigger] after[i]).path == before[i].path,
    ensures
        sorted_changes(after),
{
    assert forall|i: int, j: int| 0 <= i < j < after.len() implies path_before(
        (#[trigger] after[i]).path@,
        (#[trigger] after[j]).path@,
    ) by {
        assert(before[i].path == after[i].path);
        assert(before[j].path == after[j].path);
    }
}

/// Whether some slot names the path.
spec fn has_change(changes: Seq<ChangeSlot>, path: QuotaPath) -> bool {
    exists|i: int| 0 <= i < changes.len() && changes[i].path == path
}

/// The accumulated change for a path; none when it is absent.
spec fn change_at(changes: Seq<ChangeSlot>, path: QuotaPath) -> BucketChange {
    if exists|i: int| 0 <= i < changes.len() && changes[i].path == path {
        changes[choose|i: int| 0 <= i < changes.len() && changes[i].path == path].change
    } else {
        no_change()
    }
}

proof fn lemma_change_at(changes: Seq<ChangeSlot>, path: QuotaPath, k: int)
    requires
        distinct_changes(changes),
        0 <= k < changes.len(),
        changes[k].path == path,
    ensures
        change_at(changes, path) == changes[k].change,
{
    let i = choose|i: int| 0 <= i < changes.len() && changes[i].path == path;
    if i != k {
        if i < k {
            assert(changes[i].path != changes[k].path);
        } else {
            assert(changes[k].path != changes[i].path);
        }
    }
}

impl QuotaPath {
    /// The exact ancestor made of the first `length` segments.
    fn ancestor(&self, length: usize) -> (ancestor: QuotaPath)
        requires
            1 <= length <= self@.len(),
        ensures
            ancestor == prefix_of(*self, length as int),
            ancestor@ == self@.take(length as int),
    {
        let ancestor = self.prefix(length);
        proof {
            use_type_invariant(self);
            use_type_invariant(&ancestor);
            broadcast use vstd::array::axiom_array_ext_equal;

            let expected = prefix_of(*self, length as int);
            assert forall|i: int| 0 <= i < 5 implies ancestor.slots@[i] == expected.slots@[i] by {
                if i < length {
                    assert(ancestor@[i] == ancestor.slots@[i]);
                }
            }
            assert(ancestor.slots =~= expected.slots);
            assert(ancestor@.len() == ancestor.depth);
        }
        ancestor
    }
}

/// The part of a change that adding into (`add`) or out of a lane fills:
/// a reservation lane, or committed usage when `lane` is `None`.
spec fn lane_field(change: BucketChange, lane: Option<ResourceClass>, add: bool) -> DurableChargeVector {
    match (lane, add) {
        (Some(ResourceClass::Ordinary), true) => change.ordinary_add,
        (Some(ResourceClass::Ordinary), false) => change.ordinary_sub,
        (Some(ResourceClass::RegisteredMaintenance), true) => change.maintenance_add,
        (Some(ResourceClass::RegisteredMaintenance), false) => change.maintenance_sub,
        (None, true) => change.committed_add,
        (None, false) => change.committed_sub,
    }
}

/// Adds `vector` to one lane of the change at every ancestor of `path`,
/// inserting missing ancestors in path order. Each ancestor's lane must
/// still be empty, so the sums cannot overflow.
fn add_change_along(
    changes: &mut Vec<ChangeSlot>,
    path: &QuotaPath,
    lane: Option<ResourceClass>,
    add: bool,
    vector: DurableChargeVector,
) -> (result: Result<(), LedgerError>)
    requires
        distinct_changes(old(changes)@),
        sorted_changes(old(changes)@),
        forall|p: QuotaPath|
            ancestor_of(p, *path) ==> #[trigger] lane_field(change_at(old(changes)@, p), lane, add)
                == DurableChargeVector::spec_zero(),
    ensures
        result is Ok,
        result is Ok ==> forall|p: QuotaPath|
            #[trigger] has_change(final(changes)@, p) == (has_change(old(changes)@, p) || ancestor_of(
                p,
                *path,
            )),
        result is Ok ==> sorted_changes(final(changes)@),
        result is Ok ==> distinct_changes(final(changes)@) && forall|p: QuotaPath|
            #[trigger] change_at(final(changes)@, p) == if ancestor_of(p, *path) {
                match lane {
                    Some(class) => lane_change(change_at(old(changes)@, p), class, add, vector),
                    None => committed_change(change_at(old(changes)@, p), add, vector),
                }
            } else {
                change_at(old(changes)@, p)
            },
        result matches Err(error) ==> error is Vector,
{
    let depth = path.depth();
    let ghost original = changes@;
    let mut length: usize = 1;
    while length <= depth
        invariant
            1 <= length <= depth + 1,
            depth == path@.len(),
            1 <= depth <= 5,
            distinct_changes(changes@),
            sorted_changes(changes@),
            forall|p: QuotaPath|
                ancestor_of(p, *path) ==> #[trigger] lane_field(change_at(original, p), lane, add)
                    == DurableChargeVector::spec_zero(),
            forall|p: QuotaPath|
                #[trigger] has_change(changes@, p) == (has_change(original, p) || exists|l: int|
                    1 <= l < length && p == prefix_of(*path, l)),
            forall|p: QuotaPath|
                #[trigger] change_at(changes@, p) == if exists|l: int|
                    1 <= l < length && p == prefix_of(*path, l) {
                    match lane {
                        Some(class) => lane_change(change_at(original, p), class, add, vector),
                        None => committed_change(change_at(original, p), add, vector),
                    }
                } else {
                    change_at(original, p)
                },
        decreases depth + 1 - length,
    {
        let ancestor = path.ancestor(length);
        let mut index: usize = 0;
        let mut found = false;
        let mut insert_at = changes.len();
        while index < changes.len()
            invariant
                index <= changes@.len(),
                insert_at <= changes@.len(),
                found ==> index < changes@.len() && changes@[index as int].path == ancestor,
                !found ==> forall|i: int| 0 <= i < index ==> changes@[i].path != ancestor,
                insert_at == changes@.len() ==> forall|i: int|
                    0 <= i < index ==> !path_before(ancestor@, #[trigger] changes@[i].path@),
                insert_at < changes@.len() ==> insert_at < index && path_before(
                    ancestor@,
                    changes@[insert_at as int].path@,
                ) && forall|i: int|
                    0 <= i < insert_at ==> !path_before(ancestor@, #[trigger] changes@[i].path@),
            ensures
                insert_at <= changes@.len(),
                found ==> index < changes@.len() && changes@[index as int].path == ancestor,
                !found ==> forall|i: int| 0 <= i < changes@.len() ==> changes@[i].path != ancestor,
                !found ==> forall|i: int|
                    0 <= i < insert_at ==> !path_before(ancestor@, #[trigger] changes@[i].path@),
                !found && insert_at < changes@.len() ==> path_before(
                    ancestor@,
                    changes@[insert_at as int].path@,
                ),
            decreases changes@.len() - index,
        {
            if changes[index].path.same_path(&ancestor) {
                found = true;
                break;
            }
            if insert_at == changes.len() && ancestor.precedes(&changes[index].path) {
                insert_at = index;
            }
            index = index + 1;
        }
        let ghost before = changes@;
        let base = if found {
            changes[index].change
        } else {
            BucketChange {
                ordinary_sub: DurableChargeVector::zero(),
                ordinary_add: DurableChargeVector::zero(),
                maintenance_sub: DurableChargeVector::zero(),
                maintenance_add: DurableChargeVector::zero(),
                committed_sub: DurableChargeVector::zero(),
                committed_add: DurableChargeVector::zero(),
            }
        };
        proof {
            if found {
                lemma_change_at(before, ancestor, index as int);
            } else {
                assert(!(exists|i: int| 0 <= i < before.len() && before[i].path == ancestor));
            }
            assert(base == change_at(before, ancestor));
            lemma_prefix_distinct(*path, length as int);
            assert(!(exists|l: int| 1 <= l < length && ancestor == prefix_of(*path, l)));
            assert(ancestor_of(ancestor, *path));
            assert(lane_field(change_at(original, ancestor), lane, add) == DurableChargeVector::spec_zero());
            assert(lane_field(base, lane, add) == DurableChargeVector::spec_zero());
            assert(DurableChargeVector::spec_zero().sum_fits(vector));
        }
        let updated = match lane {
            Some(ResourceClass::Ordinary) => if add {
                BucketChange { ordinary_add: lift_vector(vector_add(base.ordinary_add, vector))?, ..base }
            } else {
                BucketChange { ordinary_sub: lift_vector(vector_add(base.ordinary_sub, vector))?, ..base }
            },
            Some(ResourceClass::RegisteredMaintenance) => if add {
                BucketChange { maintenance_add: lift_vector(vector_add(base.maintenance_add, vector))?, ..base }
            } else {
                BucketChange { maintenance_sub: lift_vector(vector_add(base.maintenance_sub, vector))?, ..base }
            },
            None => if add {
                BucketChange { committed_add: lift_vector(vector_add(base.committed_add, vector))?, ..base }
            } else {
                BucketChange { committed_sub: lift_vector(vector_add(base.committed_sub, vector))?, ..base }
            },
        };
        proof {
            assert(updated == match lane {
                Some(class) => lane_change(change_at(before, ancestor), class, add, vector),
                None => committed_change(change_at(before, ancestor), add, vector),
            });
        }
        proof {
            use_type_invariant(&ancestor);
        }
        if found {
            changes.set(index, ChangeSlot { path: ancestor, change: updated });
            proof {
                lemma_sorted_same_paths(before, changes@);
            }
        } else {
            proof {
                lemma_insert_position(before, ancestor, updated, insert_at as int);
            }
            changes.insert(insert_at, ChangeSlot { path: ancestor, change: updated });
        }
        proof {
            lemma_change_slot_update(before, changes@, ancestor, updated, found, index as int, insert_at as int);
            assert forall|p: QuotaPath| #[trigger] has_change(changes@, p) == (has_change(original, p)
                || exists|l: int| 1 <= l < length + 1 && p == prefix_of(*path, l)) by {
                if p == ancestor {
                } else {
                    if exists|l: int| 1 <= l < length + 1 && p == prefix_of(*path, l) {
                        let l = choose|l: int| 1 <= l < length + 1 && p == prefix_of(*path, l);
                        assert(l != length);
                    }
                }
            }
            assert forall|p: QuotaPath| #[trigger] change_at(changes@, p) == if exists|l: int|
                1 <= l < length + 1 && p == prefix_of(*path, l) {
                match lane {
                    Some(class) => lane_change(change_at(original, p), class, add, vector),
                    None => committed_change(change_at(original, p), add, vector),
                }
            } else {
                change_at(original, p)
            } by {
                if p == ancestor {
                    lemma_prefix_distinct(*path, length as int);
                    assert(!(exists|l: int| 1 <= l < length && p == prefix_of(*path, l)));
                } else {
                    if exists|l: int| 1 <= l < length + 1 && p == prefix_of(*path, l) {
                        let l = choose|l: int| 1 <= l < length + 1 && p == prefix_of(*path, l);
                        assert(l != length);
                    }
                }
            }
        }
        length = length + 1;
    }
    Ok(())
}

fn lift_vector(result: Result<DurableChargeVector, DurableVectorError>) -> (lifted: Result<
    DurableChargeVector,
    LedgerError,
>)
    ensures
        match result {
            Ok(v) => lifted == Ok::<DurableChargeVector, LedgerError>(v),
            Err(e) => lifted == Err::<DurableChargeVector, LedgerError>(LedgerError::Vector(e)),
        },
{
    match result {
        Ok(v) => Ok(v),
        Err(e) => Err(LedgerError::Vector(e)),
    }
}

/// Prefixes of different lengths are different paths.
proof fn lemma_prefix_distinct(path: QuotaPath, length: int)
    requires
        1 <= length <= 5,
    ensures
        forall|l: int| 1 <= l <= 5 && l != length ==> prefix_of(path, l) != prefix_of(path, length),
{
    assert forall|l: int| 1 <= l <= 5 && l != length implies prefix_of(path, l) != prefix_of(
        path,
        length,
    ) by {
        assert(prefix_of(path, l).depth != prefix_of(path, length).depth);
    }
}

/// Setting or inserting one slot changes the accumulated change at that
/// path only.
proof fn lemma_change_slot_update(
    before: Seq<ChangeSlot>,
    after: Seq<ChangeSlot>,
    path: QuotaPath,
    change: BucketChange,
    found: bool,
    index: int,
    insert_at: int,
)
    requires
        distinct_changes(before),
        found ==> 0 <= index < before.len() && before[index].path == path && after == before.update(
            index,
            ChangeSlot { path, change },
        ),
        !found ==> (forall|i: int| 0 <= i < before.len() ==> before[i].path != path) && 0 <= insert_at
            <= before.len() && after == before.insert(insert_at, ChangeSlot { path, change }),
    ensures
        distinct_changes(after),
        forall|p: QuotaPath| #[trigger] has_change(after, p) == (has_change(before, p) || p == path),
        forall|p: QuotaPath|
            #[trigger] change_at(after, p) == if p == path {
                change
            } else {
                change_at(before, p)
            },
{
    if found {
        assert forall|i: int, j: int| 0 <= i < j < after.len() implies after[i].path != after[j].path by {
            if i != index && j != index {
                assert(before[i].path != before[j].path);
            }
        }
        assert forall|p: QuotaPath| #[trigger] has_change(after, p) == (has_change(before, p) || p == path) by {
            if has_change(before, p) {
                let i = choose|i: int| 0 <= i < before.len() && before[i].path == p;
                if i == index {
                    assert(after[index].path == p);
                } else {
                    assert(after[i].path == p);
                }
            }
            if has_change(after, p) {
                let i = choose|i: int| 0 <= i < after.len() && after[i].path == p;
                if i != index {
                    assert(before[i].path == p);
                }
            }
            if p == path {
                assert(after[index].path == p);
            }
        }
        assert forall|p: QuotaPath| #[trigger] change_at(after, p) == if p == path {
            change
        } else {
            change_at(before, p)
        } by {
            if p == path {
                lemma_change_at(after, p, index);
            } else if exists|i: int| 0 <= i < before.len() && before[i].path == p {
                let k = choose|i: int| 0 <= i < before.len() && before[i].path == p;
                lemma_change_at(before, p, k);
                lemma_change_at(after, p, k);
            } else {
                assert(!(exists|i: int| 0 <= i < after.len() && after[i].path == p));
            }
        }
    } else {
        assert forall|p: QuotaPath| #[trigger] has_change(after, p) == (has_change(before, p) || p == path) by {
            if has_change(before, p) {
                let i = choose|i: int| 0 <= i < before.len() && before[i].path == p;
                if i < insert_at {
                    assert(after[i].path == p);
                } else {
                    assert(after[i + 1].path == p);
                }
            }
            if has_change(after, p) {
                let i = choose|i: int| 0 <= i < after.len() && after[i].path == p;
                if i < insert_at {
                    assert(before[i].path == p);
                } else if i > insert_at {
                    assert(before[i - 1].path == p);
                }
            }
            if p == path {
                assert(after[insert_at].path == p);
            }
        }
        assert forall|i: int, j: int| 0 <= i < j < after.len() implies after[i].path != after[j].path by {
            if i < insert_at && j < insert_at {
                assert(before[i].path != before[j].path);
            } else if i < insert_at && j > insert_at {
                assert(before[i].path != before[j - 1].path);
            } else if i > insert_at && j > insert_at {
                assert(before[i - 1].path != before[j - 1].path);
            } else if i == insert_at {
                assert(before[j - 1].path != path);
            } else {
                assert(before[i].path != path);
            }
        }
        assert forall|p: QuotaPath| #[trigger] change_at(after, p) == if p == path {
            change
        } else {
            change_at(before, p)
        } by {
            if p == path {
                lemma_change_at(after, p, insert_at);
            } else if exists|i: int| 0 <= i < before.len() && before[i].path == p {
                let k = choose|i: int| 0 <= i < before.len() && before[i].path == p;
                lemma_change_at(before, p, k);
                if k < insert_at {
                    lemma_change_at(after, p, k);
                } else {
                    lemma_change_at(after, p, k + 1);
                }
            } else {
                assert forall|i: int| 0 <= i < after.len() implies after[i].path != p by {
                    if i < insert_at {
                    } else if i > insert_at {
                        assert(after[i] == before[i - 1]);
                    }
                }
            }
        }
    }
}

/// Whether no two items of a table share a key.
pub open spec fn keys_distinct<T, K>(items: Seq<T>, key: spec_fn(T) -> K) -> bool {
    forall|i: int, j: int| 0 <= i < j < items.len() ==> key(items[i]) != key(items[j])
}

/// The item of a table with a key, if any.
pub open spec fn keyed<T, K>(items: Seq<T>, key: spec_fn(T) -> K, k: K) -> Option<T> {
    if exists|i: int| 0 <= i < items.len() && key(items[i]) == k {
        Some(items[choose|i: int| 0 <= i < items.len() && key(items[i]) == k])
    } else {
        None
    }
}

proof fn lemma_keyed_at<T, K>(items: Seq<T>, key: spec_fn(T) -> K, k: K, index: int)
    requires
        keys_distinct(items, key),
        0 <= index < items.len(),
        key(items[index]) == k,
    ensures
        keyed(items, key, k) == Some(items[index]),
{
    let i = choose|i: int| 0 <= i < items.len() && key(items[i]) == k;
    if i != index {
        if i < index {
            assert(key(items[i]) != key(items[index]));
        } else {
            assert(key(items[index]) != key(items[i]));
        }
    }
}

/// Replacing, inserting or removing one item changes the lookup of its key
/// only.
proof fn lemma_keyed_edit<T, K>(
    before: Seq<T>,
    after: Seq<T>,
    key: spec_fn(T) -> K,
    k: K,
    result: Option<T>,
)
    requires
        keys_distinct(before, key),
        ({
            ||| exists|index: int|
                0 <= index < before.len() && key(before[index]) == k && result is Some && key(result->0) == k && after == before.update(index, result->0)
            ||| exists|index: int|
                0 <= index <= before.len() && keyed(before, key, k) is None && result is Some && key(result->0) == k && after == before.insert(index, result->0)
            ||| exists|index: int|
                0 <= index < before.len() && key(before[index]) == k && result is None && after
                    == before.remove(index)
        }),
    ensures
        keys_distinct(after, key),
        keyed(after, key, k) == result,
        forall|other: K| other != k ==> #[trigger] keyed(after, key, other) == keyed(before, key, other),
{
    if exists|index: int|
        0 <= index < before.len() && key(before[index]) == k && result is Some && key(result->0) == k && after == before.update(index, result->0) {
        let index = choose|index: int|
            0 <= index < before.len() && key(before[index]) == k && result is Some && key(result->0) == k && after == before.update(index, result->0);
        assert forall|i: int, j: int| 0 <= i < j < after.len() implies key(after[i]) != key(after[j]) by {
            if i != index && j != index {
                assert(key(before[i]) != key(before[j]));
            } else if i == index {
                assert(key(before[i]) != key(before[j]));
            } else {
                assert(key(before[i]) != key(before[j]));
            }
        }
        lemma_keyed_at(after, key, k, index);
        assert forall|other: K| other != k implies #[trigger] keyed(after, key, other) == keyed(
            before,
            key,
            other,
        ) by {
            if exists|i: int| 0 <= i < before.len() && key(before[i]) == other {
                let m = choose|i: int| 0 <= i < before.len() && key(before[i]) == other;
                lemma_keyed_at(before, key, other, m);
                lemma_keyed_at(after, key, other, m);
            } else {
                assert forall|i: int| 0 <= i < after.len() implies key(after[i]) != other by {
                    if i != index {
                        assert(after[i] == before[i]);
                    }
                }
            }
        }
    } else if exists|index: int|
        0 <= index <= before.len() && keyed(before, key, k) is None && result is Some && key(result->0) == k && after == before.insert(index, result->0) {
        let index = choose|index: int|
            0 <= index <= before.len() && keyed(before, key, k) is None && result is Some && key(result->0) == k && after == before.insert(index, result->0);
        let item = result->0;
        assert forall|i: int| 0 <= i < before.len() implies key(before[i]) != k by {}
        assert forall|i: int, j: int| 0 <= i < j < after.len() implies key(after[i]) != key(after[j]) by {
            if i < index && j < index {
                assert(key(before[i]) != key(before[j]));
            } else if i < index && j > index {
                assert(key(before[i]) != key(before[j - 1]));
            } else if i > index && j > index {
                assert(key(before[i - 1]) != key(before[j - 1]));
            } else if i == index {
                assert(key(before[j - 1]) != k);
            } else {
                assert(key(before[i]) != k);
            }
        }
        lemma_keyed_at(after, key, k, index);
        assert forall|other: K| other != k implies #[trigger] keyed(after, key, other) == keyed(
            before,
            key,
            other,
        ) by {
            if exists|i: int| 0 <= i < before.len() && key(before[i]) == other {
                let m = choose|i: int| 0 <= i < before.len() && key(before[i]) == other;
                lemma_keyed_at(before, key, other, m);
                if m < index {
                    lemma_keyed_at(after, key, other, m);
                } else {
                    lemma_keyed_at(after, key, other, m + 1);
                }
            } else {
                assert forall|i: int| 0 <= i < after.len() implies key(after[i]) != other by {
                    if i < index {
                    } else if i > index {
                        assert(after[i] == before[i - 1]);
                    }
                }
            }
        }
    } else {
        let index = choose|index: int|
            0 <= index < before.len() && key(before[index]) == k && result is None && after
                == before.remove(index);
        assert forall|i: int, j: int| 0 <= i < j < after.len() implies key(after[i]) != key(after[j]) by {
            if j < index {
                assert(key(before[i]) != key(before[j]));
            } else if i < index {
                assert(key(before[i]) != key(before[j + 1]));
            } else {
                assert(key(before[i + 1]) != key(before[j + 1]));
            }
        }
        assert forall|i: int| 0 <= i < after.len() implies key(after[i]) != k by {
            if i < index {
                assert(key(before[i]) != key(before[index]));
            } else {
                assert(key(before[index]) != key(before[i + 1]));
            }
        }
        assert forall|other: K| other != k implies #[trigger] keyed(after, key, other) == keyed(
            before,
            key,
            other,
        ) by {
            if exists|i: int| 0 <= i < before.len() && key(before[i]) == other {
                let m = choose|i: int| 0 <= i < before.len() && key(before[i]) == other;
                lemma_keyed_at(before, key, other, m);
                assert(m != index);
                if m < index {
                    lemma_keyed_at(after, key, other, m);
                } else {
                    lemma_keyed_at(after, key, other, m - 1);
                }
            } else {
                assert forall|i: int| 0 <= i < after.len() implies key(after[i]) != other by {
                    if i < index {
                    } else {
                        assert(after[i] == before[i + 1]);
                    }
                }
            }
        }
    }
}

/// One bucket of the ledger.
#[derive(Clone, Copy, Debug, PartialEq, Eq)]
struct BucketSlot {
    path: QuotaPath,
    state: BucketState,
}

/// A transition the ledger applied, with its outcome.
#[derive(Clone, Copy, Debug, PartialEq, Eq)]
struct AppliedTransition {
    transition: ResourceLedgerTransition,
    outcome: ApplyOutcome,
}

spec fn bucket_key() -> spec_fn(BucketSlot) -> QuotaPath {
    |slot: BucketSlot| slot.path
}

spec fn reservation_key() -> spec_fn(ReservationEntry) -> ReservationId {
    |entry: ReservationEntry| entry.id
}

spec fn charge_key() -> spec_fn(ChargeEntry) -> ChargeId {
    |entry: ChargeEntry| entry.id
}

spec fn applied_key() -> spec_fn(AppliedTransition) -> TransitionId {
    |applied: AppliedTransition| applied.transition.header.transition_id
}

/// The key of a genesis pair: its path.
pub open spec fn pair_key() -> spec_fn((QuotaPath, BucketState)) -> QuotaPath {
    |pair: (QuotaPath, BucketState)| pair.0
}

/// Whether a bucket carries no reservation or commitment.
pub open spec fn accounting_empty(state: BucketState) -> bool {
    &&& state.spec_ordinary_reserved().spec_is_zero()
    &&& state.spec_maintenance_reserved().spec_is_zero()
    &&& state.spec_committed().spec_is_zero()
}

fn copy_vec<T: Copy>(items: &Vec<T>) -> (copy: Vec<T>)
    ensures
        copy@ == items@,
{
    let mut copy: Vec<T> = Vec::new();
    let mut index: usize = 0;
    while index < items.len()
        invariant
            index <= items@.len(),
            copy@ == items@.take(index as int),
        decreases items@.len() - index,
    {
        copy.push(items[index]);
        index = index + 1;
        proof {
            assert(copy@ =~= items@.take(index as int));
        }
    }
    proof {
        assert(items@.take(items@.len() as int) =~= items@);
    }
    copy
}

/// Canonical-authority ledger state and its atomic transition engine.
#[derive(Debug, PartialEq, Eq)]
pub struct ResourceLedger {
    identity: ResourceLedgerIdentity,
    generation: u64,
    buckets: Vec<BucketSlot>,
    reservations: Vec<ReservationEntry>,
    charges: Vec<ChargeEntry>,
    used_reservation_ids: Vec<ReservationId>,
    used_charge_ids: Vec<ChargeId>,
    applied_transitions: Vec<AppliedTransition>,
}

impl ResourceLedger {
    #[verifier::type_invariant]
    closed spec fn well_formed(self) -> bool {
        &&& keys_distinct(self.buckets@, bucket_key())
        &&& forall|i: int| 0 <= i < self.buckets@.len() ==> (#[trigger] self.buckets@[i]).state.spec_valid()
        &&& keys_distinct(self.reservations@, reservation_key())
        &&& keys_distinct(self.charges@, charge_key())
        &&& keys_distinct(self.applied_transitions@, applied_key())
        &&& forall|i: int|
            0 <= i < self.reservations@.len() ==> self.used_reservation_ids@.contains(
                (#[trigger] self.reservations@[i]).id,
            )
        &&& forall|i: int|
            0 <= i < self.charges@.len() ==> self.used_charge_ids@.contains((#[trigger] self.charges@[i]).id)
    }

    /// The identity the ledger is bound to.
    pub closed spec fn spec_identity(self) -> ResourceLedgerIdentity {
        self.identity
    }

    /// Number of transitions applied.
    pub closed spec fn spec_generation(self) -> u64 {
        self.generation
    }

    /// The state of the bucket at a path, if the ledger has one.
    pub closed spec fn bucket_of(self, path: QuotaPath) -> Option<BucketState> {
        match keyed(self.buckets@, bucket_key(), path) {
            Some(slot) => Some(slot.state),
            None => None,
        }
    }

    /// The live reservation with an identifier, if any.
    pub closed spec fn reservation_of(self, id: ReservationId) -> Option<ReservationEntry> {
        keyed(self.reservations@, reservation_key(), id)
    }

    /// The committed charge with an identifier, if any.
    pub closed spec fn charge_of(self, id: ChargeId) -> Option<ChargeEntry> {
        keyed(self.charges@, charge_key(), id)
    }

    /// Whether a reservation identifier was ever used.
    pub closed spec fn reservation_id_used(self, id: ReservationId) -> bool {
        self.used_reservation_ids@.contains(id)
    }

    /// Whether a charge identifier was ever used.
    pub closed spec fn charge_id_used(self, id: ChargeId) -> bool {
        self.used_charge_ids@.contains(id)
    }

    /// The applied transition with an identifier and its outcome, if any.
    pub closed spec fn applied_of(self, id: TransitionId) -> Option<
        (ResourceLedgerTransition, ApplyOutcome),
    > {
        match keyed(self.applied_transitions@, applied_key(), id) {
            Some(applied) => Some((applied.transition, applied.outcome)),
            None => None,
        }
    }

    /// Whether two ledgers hold the same state.
    pub closed spec fn same_state(self, other: ResourceLedger) -> bool {
        &&& self.identity == other.identity
        &&& self.generation == other.generation
        &&& self.buckets@ == other.buckets@
        &&& self.reservations@ == other.reservations@
        &&& self.charges@ == other.charges@
        &&& self.used_reservation_ids@ == other.used_reservation_ids@
        &&& self.used_charge_ids@ == other.used_charge_ids@
        &&& self.applied_transitions@ == other.applied_transitions@
    }

    /// Ledgers holding the same state answer every query alike.
    pub proof fn lemma_same_state(self, other: ResourceLedger)
        requires
            self.same_state(other),
        ensures
            self.spec_identity() == other.spec_identity(),
            self.spec_generation() == other.spec_generation(),
            forall|p: QuotaPath| #[trigger] self.bucket_of(p) == other.bucket_of(p),
            forall|id: ReservationId| #[trigger] self.reservation_of(id) == other.reservation_of(id),
            forall|id: ChargeId| #[trigger] self.charge_of(id) == other.charge_of(id),
            forall|id: ReservationId| #[trigger] self.reservation_id_used(id) == other.reservation_id_used(id),
            forall|id: ChargeId| #[trigger] self.charge_id_used(id) == other.charge_id_used(id),
            forall|id: TransitionId| #[trigger] self.applied_of(id) == other.applied_of(id),
    {
    }

    fn find_bucket(&self, path: &QuotaPath) -> (found: Option<usize>)
        ensures
            match found {
                Some(index) => index < self.buckets@.len() && self.buckets@[index as int].path == *path
                    && self.bucket_of(*path) == Some(self.buckets@[index as int].state),
                None => self.bucket_of(*path) is None,
            },
    {
        proof {
            use_type_invariant(self);
        }
        let mut index: usize = 0;
        while index < self.buckets.len()
            invariant
                index <= self.buckets@.len(),
                forall|i: int| 0 <= i < index ==> self.buckets@[i].path != *path,
            decreases self.buckets@.len() - index,
        {
            if self.buckets[index].path.same_path(path) {
                proof {
                    use_type_invariant(self);
                    lemma_keyed_at(self.buckets@, bucket_key(), *path, index as int);
                }
                return Some(index);
            }
            index = index + 1;
        }
        None
    }

    fn find_reservation(&self, id: ReservationId) -> (found: Option<usize>)
        ensures
            match found {
                Some(index) => index < self.reservations@.len() && self.reservations@[index as int].id
                    == id && self.reservation_of(id) == Some(self.reservations@[index as int]),
                None => self.reservation_of(id) is None,
            },
    {
        proof {
            use_type_invariant(self);
        }
        let mut index: usize = 0;
        while index < self.reservations.len()
            invariant
                index <= self.reservations@.len(),
                forall|i: int| 0 <= i < index ==> self.reservations@[i].id != id,
            decreases self.reservations@.len() - index,
        {
            if same_bytes32(&self.reservations[index].id.0, &id.0) {
                proof {
                    use_type_invariant(self);
                    lemma_keyed_at(self.reservations@, reservation_key(), id, index as int);
                }
                return Some(index);
            }
            index = index + 1;
        }
        None
    }

    fn find_charge(&self, id: ChargeId) -> (found: Option<usize>)
        ensures
            match found {
                Some(index) => index < self.charges@.len() && self.charges@[index as int].id == id
                    && self.charge_of(id) == Some(self.charges@[index as int]),
                None => self.charge_of(id) is None,
            },
    {
        proof {
            use_type_invariant(self);
        }
        let mut index: usize = 0;
        while index < self.charges.len()
            invariant
                index <= self.charges@.len(),
                forall|i: int| 0 <= i < index ==> self.charges@[i].id != id,
            decreases self.charges@.len() - index,
        {
            if same_bytes32(&self.charges[index].id.0, &id.0) {
                proof {
                    use_type_invariant(self);
                    lemma_keyed_at(self.charges@, charge_key(), id, index as int);
                }
                return Some(index);
            }
            index = index + 1;
        }
        None
    }

    fn find_applied(&self, id: TransitionId) -> (found: Option<usize>)
        ensures
            match found {
                Some(index) => index < self.applied_transitions@.len()
                    && self.applied_transitions@[index as int].transition.header.transition_id == id
                    && self.applied_of(id) == Some(
                    (
                        self.applied_transitions@[index as int].transition,
                        self.applied_transitions@[index as int].outcome,
                    ),
                ),
                None => self.applied_of(id) is None,
            },
    {
        proof {
            use_type_invariant(self);
        }
        let mut index: usize = 0;
        while index < self.applied_transitions.len()
            invariant
                index <= self.applied_transitions@.len(),
                forall|i: int|
                    0 <= i < index ==> self.applied_transitions@[i].transition.header.transition_id != id,
            decreases self.applied_transitions@.len() - index,
        {
            if same_bytes32(&self.applied_transitions[index].transition.header.transition_id.0, &id.0) {
                proof {
                    use_type_invariant(self);
                    lemma_keyed_at(self.applied_transitions@, applied_key(), id, index as int);
                }
                return Some(index);
            }
            index = index + 1;
        }
        None
    }

    fn reservation_id_was_used(&self, id: ReservationId) -> (used: bool)
        ensures
            used == self.reservation_id_used(id),
    {
        let mut index: usize = 0;
        while index < self.used_reservation_ids.len()
            invariant
                index <= self.used_reservation_ids@.len(),
                forall|i: int| 0 <= i < index ==> self.used_reservation_ids@[i] != id,
            decreases self.used_reservation_ids@.len() - index,
        {
            if same_bytes32(&self.used_reservation_ids[index].0, &id.0) {
                proof {
                    assert(self.used_reservation_ids@[index as int] == id);
                }
                return true;
            }
            index = index + 1;
        }
        false
    }

    fn charge_id_was_used(&self, id: ChargeId) -> (used: bool)
        ensures
            used == self.charge_id_used(id),
    {
        let mut index: usize = 0;
        while index < self.used_charge_ids.len()
            invariant
                index <= self.used_charge_ids@.len(),
                forall|i: int| 0 <= i < index ==> self.used_charge_ids@[i] != id,
            decreases self.used_charge_ids@.len() - index,
        {
            if same_bytes32(&self.used_charge_ids[index].0, &id.0) {
                proof {
                    assert(self.used_charge_ids@[index as int] == id);
                }
                return true;
            }
            index = index + 1;
        }
        false
    }

    /// The identity the ledger is bound to.
    pub fn identity(&self) -> (identity: ResourceLedgerIdentity)
        ensures
            identity == self.spec_identity(),
    {
        self.identity
    }

    /// Number of transitions applied.
    pub fn generation(&self) -> (generation: u64)
        ensures
            generation == self.spec_generation(),
    {
        self.generation
    }

    /// The bucket at a path. Every bucket the ledger holds keeps its
    /// capacity laws.
    pub fn bucket(&self, path: &QuotaPath) -> (bucket: Option<&BucketState>)
        ensures
            match self.bucket_of(*path) {
                Some(state) => bucket is Some && *bucket->0 == state,
                None => bucket is None,
            },
            bucket matches Some(state) ==> state.spec_valid(),
    {
        proof {
            use_type_invariant(self);
        }
        match self.find_bucket(path) {
            Some(index) => Some(&self.buckets[index].state),
            None => None,
        }
    }

    /// The live reservation with an identifier.
    pub fn reservation(&self, id: ReservationId) -> (entry: Option<&ReservationEntry>)
        ensures
            match self.reservation_of(id) {
                Some(found) => entry is Some && *entry->0 == found,
                None => entry is None,
            },
    {
        match self.find_reservation(id) {
            Some(index) => Some(&self.reservations[index]),
            None => None,
        }
    }

    /// The committed charge with an identifier.
    pub fn charge(&self, id: ChargeId) -> (entry: Option<&ChargeEntry>)
        ensures
            match self.charge_of(id) {
                Some(found) => entry is Some && *entry->0 == found,
                None => entry is None,
            },
    {
        match self.find_charge(id) {
            Some(index) => Some(&self.charges[index]),
            None => None,
        }
    }
}

impl Clone for ResourceLedger {
    fn clone(&self) -> (copy: Self)
        ensures
            copy.same_state(*self),
    {
        proof {
            use_type_invariant(self);
        }
        ResourceLedger {
            identity: self.identity,
            generation: self.generation,
            buckets: copy_vec(&self.buckets),
            reservations: copy_vec(&self.reservations),
            charges: copy_vec(&self.charges),
            used_reservation_ids: copy_vec(&self.used_reservation_ids),
            used_charge_ids: copy_vec(&self.used_charge_ids),
            applied_transitions: copy_vec(&self.applied_transitions),
        }
    }
}

/// Genesis buckets a ledger accepts: at least one, each valid and empty,
/// no path twice, and every ancestor of every path present.
pub open spec fn genesis_ok(buckets: Seq<(QuotaPath, BucketState)>) -> bool {
    &&& buckets.len() > 0
    &&& keys_distinct(buckets, pair_key())
    &&& forall|i: int|
        0 <= i < buckets.len() ==> (#[trigger] buckets[i]).1.spec_valid() && accounting_empty(
            buckets[i].1,
        )
    &&& forall|i: int, length: int|
        0 <= i < buckets.len() && 1 <= length <= buckets[i].0@.len() ==> keyed(
            buckets,
            pair_key(),
            #[trigger] prefix_of(buckets[i].0, length),
        ) is Some
}

/// Whether the genesis bucket at `i` is refused on its own: its state
/// breaks a capacity law or carries usage, or its path was listed before.
pub open spec fn genesis_bucket_faulty(buckets: Seq<(QuotaPath, BucketState)>, i: int) -> bool {
    ||| !buckets[i].1.spec_valid()
    ||| !accounting_empty(buckets[i].1)
    ||| keyed(buckets.take(i), pair_key(), buckets[i].0) is Some
}

/// The refusal reported for the genesis bucket at `i`: a rejected state
/// with the first broken law, then a nonempty state, then a repeated path.
pub open spec fn genesis_bucket_refusal(
    buckets: Seq<(QuotaPath, BucketState)>,
    i: int,
    error: LedgerError,
) -> bool {
    let (path, state) = buckets[i];
    if !state.spec_valid() {
        error matches LedgerError::BucketRejected { path: p, cause } && p == path && state.reports(cause)
    } else if !accounting_empty(state) {
        error == LedgerError::NonemptyGenesisBucket { path }
    } else {
        error == LedgerError::DuplicateBucket { path }
    }
}

/// The refusal of genesis buckets: the first bucket refused on its own, in
/// input order; else no bucket at all; else a bucket path with an ancestor
/// that has no bucket.
pub open spec fn genesis_refusal(buckets: Seq<(QuotaPath, BucketState)>, error: LedgerError) -> bool {
    ||| exists|i: int|
        0 <= i < buckets.len() && #[trigger] genesis_bucket_faulty(buckets, i) && (forall|j: int|
            0 <= j < i ==> !genesis_bucket_faulty(buckets, j)) && genesis_bucket_refusal(buckets, i, error)
    ||| {
        &&& forall|i: int| 0 <= i < buckets.len() ==> !#[trigger] genesis_bucket_faulty(buckets, i)
        &&& buckets.len() == 0 ==> error == LedgerError::NoBuckets
        &&& buckets.len() > 0 ==> (error matches LedgerError::MissingAncestorBucket { path, missing }
            && keyed(buckets, pair_key(), path) is Some && (exists|l: int|
            1 <= l <= path@.len() && missing == prefix_of(path, l) && keyed(buckets, pair_key(), missing)
                is None && forall|m: int|
                1 <= m < l ==> keyed(buckets, pair_key(), #[trigger] prefix_of(path, m)) is Some) && forall|
            q: QuotaPath,
            m: int,
        |
            keyed(buckets, pair_key(), q) is Some && path_before(q@, path@) && 1 <= m <= q@.len()
                ==> keyed(buckets, pair_key(), #[trigger] prefix_of(q, m)) is Some)
    }
}

impl BucketState {
    fn accounting_is_empty(self) -> (empty: bool)
        ensures
            empty == accounting_empty(self),
    {
        self.ordinary_reserved.is_zero() && self.maintenance_reserved.is_zero()
            && self.committed.is_zero()
    }
}

/// Bucket slots in strictly ascending path order, each path canonical.
spec fn sorted_slots(slots: Seq<BucketSlot>) -> bool {
    &&& forall|i: int| 0 <= i < slots.len() ==> (#[trigger] slots[i]).path.canonical()
    &&& forall|i: int, j: int|
        0 <= i < j < slots.len() ==> path_before((#[trigger] slots[i]).path@, (#[trigger] slots[j]).path@)
}

/// Inserts a bucket slot before the first slot whose path follows it.
fn insert_bucket_slot(slots: &mut Vec<BucketSlot>, slot: BucketSlot) -> (index: usize)
    requires
        sorted_slots(old(slots)@),
        slot.path.canonical(),
        forall|i: int| 0 <= i < old(slots)@.len() ==> old(slots)@[i].path != slot.path,
    ensures
        index <= old(slots)@.len(),
        final(slots)@ == old(slots)@.insert(index as int, slot),
        sorted_slots(final(slots)@),
{
    let mut index: usize = 0;
    while index < slots.len()
        invariant
            index <= slots@.len(),
            slots@ == old(slots)@,
            forall|i: int| 0 <= i < index ==> !path_before(slot.path@, #[trigger] slots@[i].path@),
        ensures
            index <= slots@.len(),
            slots@ == old(slots)@,
            forall|i: int| 0 <= i < index ==> !path_before(slot.path@, #[trigger] slots@[i].path@),
            index < slots@.len() ==> path_before(slot.path@, slots@[index as int].path@),
        decreases slots@.len() - index,
    {
        if slot.path.precedes(&slots[index].path) {
            break;
        }
        index = index + 1;
    }
    proof {
        let before = slots@;
        let path = slot.path;
        let at = index as int;
        assert forall|i: int| 0 <= i < at implies path_before(#[trigger] before[i].path@, path@) by {
            if before[i].path@ == path@ {
                lemma_canonical_view_injective(before[i].path, path);
            }
            lemma_path_total(before[i].path@, path@);
        }
        assert forall|i: int| at <= i < before.len() implies path_before(path@, #[trigger] before[i].path@) by {
            if i > at {
                lemma_path_transitive(path@, before[at].path@, before[i].path@);
            }
        }
        let after = before.insert(at, slot);
        assert forall|i: int, j: int| 0 <= i < j < after.len() implies path_before(
            (#[trigger] after[i]).path@,
            (#[trigger] after[j]).path@,
        ) by {
            if i < at && j == at {
            } else if i == at {
                assert(before[j - 1].path@ == after[j].path@);
            } else if j < at {
            } else if i < at {
                assert(before[j - 1].path@ == after[j].path@);
                lemma_path_transitive(before[i].path@, path@, before[j - 1].path@);
            } else {
                assert(before[i - 1].path@ == after[i].path@);
                assert(before[j - 1].path@ == after[j].path@);
            }
        }
    }
    slots.insert(index, slot);
    index
}

impl ResourceLedger {
    /// A generation-zero ledger over policy buckets. Every bucket must be
    /// valid and start with no reservation or commitment, no path may
    /// repeat, and every ancestor of every path must have a bucket; a
    /// missing ancestor is reported for the first path in path order that
    /// lacks one, naming its shortest missing ancestor.
    pub fn try_new(identity: ResourceLedgerIdentity, buckets: &[(QuotaPath, BucketState)]) -> (result:
        Result<Self, LedgerError>)
        ensures
            match result {
                Ok(ledger) => {
                    &&& genesis_ok(buckets@)
                    &&& ledger.spec_identity() == identity
                    &&& ledger.spec_generation() == 0
                    &&& forall|p: QuotaPath|
                        #[trigger] ledger.bucket_of(p) == match keyed(buckets@, pair_key(), p) {
                            Some(pair) => Some(pair.1),
                            None => None,
                        }
                    &&& forall|id: ReservationId|
                        #[trigger] ledger.reservation_of(id) is None && !ledger.reservation_id_used(id)
                    &&& forall|id: ChargeId|
                        #[trigger] ledger.charge_of(id) is None && !ledger.charge_id_used(id)
                    &&& forall|id: TransitionId| #[trigger] ledger.applied_of(id) is None
                },
                Err(error) => !genesis_ok(buckets@) && genesis_refusal(buckets@, error),
            },
    {
        let mut slots: Vec<BucketSlot> = Vec::new();
        let mut index: usize = 0;
        while index < buckets.len()
            invariant
                index <= buckets@.len(),
                keys_distinct(slots@, bucket_key()),
                sorted_slots(slots@),
                keys_distinct(buckets@.take(index as int), pair_key()),
                forall|i: int| 0 <= i < slots@.len() ==> (#[trigger] slots@[i]).state.spec_valid(),
                forall|i: int|
                    0 <= i < index ==> (#[trigger] buckets@[i]).1.spec_valid() && accounting_empty(
                        buckets@[i].1,
                    ),
                forall|i: int| 0 <= i < index ==> !#[trigger] genesis_bucket_faulty(buckets@, i),
                forall|p: QuotaPath|
                    #[trigger] keyed(slots@, bucket_key(), p) == match keyed(
                        buckets@.take(index as int),
                        pair_key(),
                        p,
                    ) {
                        Some(pair) => Some(BucketSlot { path: pair.0, state: pair.1 }),
                        None => None,
                    },
            decreases buckets@.len() - index,
        {
            let (path, state) = buckets[index];
            proof {
                use_type_invariant(&path);
            }
            match state.validate() {
                Ok(()) => {},
                Err(cause) => {
                    proof {
                        assert(buckets@[index as int].1 == state);
                        assert(genesis_bucket_faulty(buckets@, index as int));
                    }
                    return Err(LedgerError::BucketRejected { path, cause });
                },
            }
            if !state.accounting_is_empty() {
                proof {
                    assert(genesis_bucket_faulty(buckets@, index as int));
                }
                return Err(LedgerError::NonemptyGenesisBucket { path });
            }
            let ghost before = slots@;
            let ghost taken = buckets@.take(index as int);
            let mut position: usize = 0;
            let mut duplicate = false;
            while position < slots.len()
                invariant
                    position <= slots@.len(),
                    duplicate ==> position < slots@.len() && slots@[position as int].path == path,
                    !duplicate ==> forall|i: int| 0 <= i < position ==> slots@[i].path != path,
                ensures
                    duplicate ==> position < slots@.len() && slots@[position as int].path == path,
                    !duplicate ==> forall|i: int| 0 <= i < slots@.len() ==> slots@[i].path != path,
                decreases slots@.len() - position,
            {
                if slots[position].path.same_path(&path) {
                    duplicate = true;
                    break;
                }
                position = position + 1;
            }
            if duplicate {
                proof {
                    lemma_keyed_at(slots@, bucket_key(), path, position as int);
                    let pair = keyed(taken, pair_key(), path)->0;
                    let k = choose|k: int| 0 <= k < taken.len() && pair_key()(taken[k]) == path;
                    assert(buckets@[k].0 == buckets@[index as int].0);
                    assert(genesis_bucket_faulty(buckets@, index as int));
                }
                return Err(LedgerError::DuplicateBucket { path });
            }
            proof {
                assert(keyed(before, bucket_key(), path) is None);
                assert(keyed(taken, pair_key(), path) is None);
                assert(!genesis_bucket_faulty(buckets@, index as int));
            }
            let slot = BucketSlot { path, state };
            let at = insert_bucket_slot(&mut slots, slot);
            proof {
                assert(0 <= at <= before.len() && keyed(before, bucket_key(), path) is None && Some(
                    slot,
                ) is Some && bucket_key()(Some(slot)->0) == path && slots@ == before.insert(
                    at as int,
                    Some(slot)->0,
                ));
                lemma_keyed_edit(before, slots@, bucket_key(), path, Some(slot));
                let extended = buckets@.take(index + 1);
                let pair = (path, state);
                assert(extended =~= taken.insert(taken.len() as int, pair));
                assert(0 <= taken.len() <= taken.len() && keyed(taken, pair_key(), path) is None && Some(
                    pair,
                ) is Some && pair_key()(Some(pair)->0) == path && extended == taken.insert(
                    taken.len() as int,
                    Some(pair)->0,
                ));
                lemma_keyed_edit(taken, extended, pair_key(), path, Some(pair));
            }
            index = index + 1;
        }
        proof {
            assert(buckets@.take(buckets@.len() as int) =~= buckets@);
        }
        if slots.len() == 0 {
            proof {
                if buckets@.len() > 0 {
                    let p = buckets@[0].0;
                    assert(pair_key()(buckets@[0]) == p);
                    assert(keyed(buckets@, pair_key(), p) is Some);
                    assert(keyed(slots@, bucket_key(), p) is Some);
                }
            }
            return Err(LedgerError::NoBuckets);
        }
        proof {
            let first = slots@[0].path;
            lemma_keyed_at(slots@, bucket_key(), first, 0);
            assert(keyed(buckets@, pair_key(), first) is Some);
        }
        let mut k: usize = 0;
        while k < slots.len()
            invariant
                k <= slots@.len(),
                buckets@.len() > 0,
                forall|i: int| 0 <= i < buckets@.len() ==> !#[trigger] genesis_bucket_faulty(buckets@, i),
                keys_distinct(slots@, bucket_key()),
                sorted_slots(slots@),
                forall|p: QuotaPath|
                    #[trigger] keyed(slots@, bucket_key(), p) == match keyed(buckets@, pair_key(), p) {
                        Some(pair) => Some(BucketSlot { path: pair.0, state: pair.1 }),
                        None => None,
                    },
                forall|i: int, length: int|
                    0 <= i < k && 1 <= length <= slots@[i].path@.len() ==> keyed(
                        slots@,
                        bucket_key(),
                        #[trigger] prefix_of(slots@[i].path, length),
                    ) is Some,
            decreases slots@.len() - k,
        {
            let path = slots[k].path;
            let depth = path.depth();
            let mut length: usize = 1;
            while length <= depth
                invariant
                    1 <= length <= depth + 1,
                    depth == path@.len(),
                    depth <= 5,
                    path == slots@[k as int].path,
                    buckets@.len() > 0,
                    forall|i: int| 0 <= i < buckets@.len() ==> !#[trigger] genesis_bucket_faulty(buckets@, i),
                    k < slots@.len(),
                    keys_distinct(slots@, bucket_key()),
                    sorted_slots(slots@),
                    forall|i: int, l: int|
                        0 <= i < k && 1 <= l <= slots@[i].path@.len() ==> keyed(
                            slots@,
                            bucket_key(),
                            #[trigger] prefix_of(slots@[i].path, l),
                        ) is Some,
                    forall|p: QuotaPath|
                        #[trigger] keyed(slots@, bucket_key(), p) == match keyed(buckets@, pair_key(), p) {
                            Some(pair) => Some(BucketSlot { path: pair.0, state: pair.1 }),
                            None => None,
                        },
                    forall|l: int|
                        1 <= l < length ==> keyed(slots@, bucket_key(), #[trigger] prefix_of(path, l)) is Some,
                decreases depth + 1 - length,
            {
                let ancestor = path.ancestor(length);
                let mut position: usize = 0;
                let mut present = false;
                while position < slots.len()
                    invariant
                        position <= slots@.len(),
                        present ==> position < slots@.len() && slots@[position as int].path == ancestor,
                        !present ==> forall|i: int| 0 <= i < position ==> slots@[i].path != ancestor,
                    ensures
                        present ==> position < slots@.len() && slots@[position as int].path == ancestor,
                        !present ==> forall|i: int| 0 <= i < slots@.len() ==> slots@[i].path != ancestor,
                    decreases slots@.len() - position,
                {
                    if slots[position].path.same_path(&ancestor) {
                        present = true;
                        break;
                    }
                    position = position + 1;
                }
                if !present {
                    proof {
                        assert(keyed(slots@, bucket_key(), ancestor) is None);
                        let slot = keyed(slots@, bucket_key(), path)->0;
                        lemma_keyed_at(slots@, bucket_key(), path, k as int);
                        let pair = keyed(buckets@, pair_key(), path)->0;
                        let i = choose|i: int| 0 <= i < buckets@.len() && pair_key()(buckets@[i]) == path;
                        assert(buckets@[i].0 == path);
                        assert(keyed(buckets@, pair_key(), prefix_of(buckets@[i].0, length as int)) is None);
                        assert(ancestor == prefix_of(path, length as int));
                        assert(keyed(buckets@, pair_key(), path) is Some);
                        assert(keyed(buckets@, pair_key(), ancestor) is None);
                        assert forall|m: int| 1 <= m < length implies keyed(
                            buckets@,
                            pair_key(),
                            #[trigger] prefix_of(path, m),
                        ) is Some by {
                            assert(keyed(slots@, bucket_key(), prefix_of(path, m)) is Some);
                        }
                        assert forall|q: QuotaPath, m: int|
                            keyed(buckets@, pair_key(), q) is Some && path_before(q@, path@) && 1 <= m
                                <= q@.len() implies keyed(
                            buckets@,
                            pair_key(),
                            #[trigger] prefix_of(q, m),
                        ) is Some by {
                            assert(keyed(slots@, bucket_key(), q) is Some);
                            let j = choose|j: int| 0 <= j < slots@.len() && bucket_key()(slots@[j]) == q;
                            assert(slots@[j].path == q);
                            lemma_path_total(q@, path@);
                            if j > k {
                                assert(path_before(slots@[k as int].path@, slots@[j].path@));
                            }
                            assert(j < k);
                            assert(keyed(slots@, bucket_key(), prefix_of(slots@[j].path, m)) is Some);
                        }
                    }
                    return Err(LedgerError::MissingAncestorBucket { path, missing: ancestor });
                }
                proof {
                    lemma_keyed_at(slots@, bucket_key(), ancestor, position as int);
                }
                length = length + 1;
            }
            k = k + 1;
        }
        proof {
            assert forall|i: int, length: int|
                0 <= i < buckets@.len() && 1 <= length <= buckets@[i].0@.len() implies keyed(
                buckets@,
                pair_key(),
                #[trigger] prefix_of(buckets@[i].0, length),
            ) is Some by {
                let p = buckets@[i].0;
                assert(pair_key()(buckets@[i]) == p);
                let slot = keyed(slots@, bucket_key(), p)->0;
                let m = choose|m: int| 0 <= m < slots@.len() && bucket_key()(slots@[m]) == p;
                assert(slots@[m].path == p);
                assert(keyed(slots@, bucket_key(), prefix_of(slots@[m].path, length)) is Some);
            }
        }
        proof {
            let first = slots@[0].path;
            lemma_keyed_at(slots@, bucket_key(), first, 0);
            assert(keyed(slots@, bucket_key(), first) is Some);
            assert(keyed(buckets@, pair_key(), first) is Some);
            assert(buckets@.len() > 0);
            assert(keys_distinct(buckets@, pair_key()));
            assert(forall|i: int|
                0 <= i < buckets@.len() ==> (#[trigger] buckets@[i]).1.spec_valid() && accounting_empty(
                    buckets@[i].1,
                ));
            assert(genesis_ok(buckets@));
        }
        let ledger = ResourceLedger {
            identity,
            generation: 0,
            buckets: slots,
            reservations: Vec::new(),
            charges: Vec::new(),
            used_reservation_ids: Vec::new(),
            used_charge_ids: Vec::new(),
            applied_transitions: Vec::new(),
        };
        Ok(ledger)
    }
}

/// Whether a reservation entry holds exactly these fields.
pub open spec fn reservation_has(
    entry: ReservationEntry,
    id: ReservationId,
    generation: u64,
    owner: ResourceOwnerKey,
    path: QuotaPath,
    class: ResourceClass,
    vector: DurableChargeVector,
    hold: OwnerHold,
) -> bool {
    &&& entry.spec_id() == id
    &&& entry.spec_generation() == generation
    &&& entry.spec_owner() == owner
    &&& entry.spec_path() == path
    &&& entry.spec_class() == class
    &&& entry.spec_vector() == vector
    &&& entry.spec_hold() == hold
}

/// Whether a charge entry holds exactly these fields.
pub open spec fn charge_has(
    entry: ChargeEntry,
    id: ChargeId,
    generation: u64,
    owner: ResourceOwnerKey,
    path: QuotaPath,
    class: ResourceClass,
    vector: DurableChargeVector,
    stable_subject_key: StableSubjectKey,
) -> bool {
    &&& entry.spec_id() == id
    &&& entry.spec_generation() == generation
    &&& entry.spec_owner() == owner
    &&& entry.spec_path() == path
    &&& entry.spec_class() == class
    &&& entry.spec_vector() == vector
    &&& entry.spec_stable_subject_key() == stable_subject_key
}

/// Registered maintenance capacity may only be held by a maintenance owner.
pub open spec fn maintenance_fault(class: ResourceClass, owner: ResourceOwnerKey) -> Option<LedgerError> {
    if class == ResourceClass::RegisteredMaintenance && !(owner is Maintenance) {
        Some(LedgerError::MaintenanceReserveRequiresRegisteredOwner)
    } else {
        None
    }
}

/// The first way an entry fails to match a transition's header, its
/// expected generation, and (when given) its exact vector.
pub open spec fn binding_fault(
    owner: ResourceOwnerKey,
    path: QuotaPath,
    class: ResourceClass,
    generation: u64,
    vector: DurableChargeVector,
    transition: ResourceLedgerTransition,
    expected_generation: u64,
    exact_vector: Option<DurableChargeVector>,
) -> Option<LedgerError> {
    if owner != transition.header.owner {
        Some(LedgerError::OwnerMismatch)
    } else if path != transition.header.quota_path {
        Some(LedgerError::QuotaPathMismatch { expected: path, actual: transition.header.quota_path })
    } else if class != transition.header.resource_class {
        Some(
            LedgerError::ResourceClassMismatch {
                expected: class,
                actual: transition.header.resource_class,
            },
        )
    } else if generation != expected_generation {
        Some(LedgerError::StaleEntryGeneration { expected: generation, actual: expected_generation })
    } else if exact_vector is Some && vector != exact_vector->0 {
        Some(LedgerError::ExactVectorMismatch { expected: vector, actual: exact_vector->0 })
    } else {
        None
    }
}

/// The first axis, in declared order from `from` on, on which a charge
/// exceeds its reservation.
pub open spec fn exceeding_axis(
    charged: DurableChargeVector,
    reserved: DurableChargeVector,
    from: int,
) -> Option<DurableChargeAxis>
    decreases 6 - from,
{
    if from < 0 || from >= 6 {
        None
    } else if charged.spec_axis(durable_axis_at(from)) > reserved.spec_axis(durable_axis_at(from)) {
        Some(durable_axis_at(from))
    } else {
        exceeding_axis(charged, reserved, from + 1)
    }
}

/// The entry fields a release or transfer names: owner, path, class,
/// generation, vector, and whether it is a reservation.
pub open spec fn subject_fields(ledger: ResourceLedger, subject: LedgerSubject) -> Option<
    (ResourceOwnerKey, QuotaPath, ResourceClass, u64, DurableChargeVector, bool),
> {
    match subject {
        LedgerSubject::Reservation(id) => match ledger.reservation_of(id) {
            Some(e) => Some(
                (e.spec_owner(), e.spec_path(), e.spec_class(), e.spec_generation(), e.spec_vector(), true),
            ),
            None => None,
        },
        LedgerSubject::Charge(id) => match ledger.charge_of(id) {
            Some(e) => Some(
                (e.spec_owner(), e.spec_path(), e.spec_class(), e.spec_generation(), e.spec_vector(), false),
            ),
            None => None,
        },
    }
}

/// The refusal for a subject the ledger does not hold.
pub open spec fn unknown_subject(subject: LedgerSubject) -> LedgerError {
    match subject {
        LedgerSubject::Reservation(id) => LedgerError::UnknownReservation { reservation_id: id },
        LedgerSubject::Charge(id) => LedgerError::UnknownCharge { charge_id: id },
    }
}

/// The first check of an operation, before any bucket arithmetic, that
/// refuses it.
pub open spec fn operation_fault(ledger: ResourceLedger, transition: ResourceLedgerTransition) -> Option<
    LedgerError,
> {
    let header = transition.header;
    match transition.operation {
        LedgerOperation::Reserve { reservation_id, vector, .. } => {
            if maintenance_fault(header.resource_class, header.owner) is Some {
                maintenance_fault(header.resource_class, header.owner)
            } else if vector.spec_is_zero() {
                Some(LedgerError::ZeroVector)
            } else if ledger.reservation_id_used(reservation_id) {
                Some(LedgerError::ReservationIdAlreadyUsed { reservation_id })
            } else {
                None
            }
        },
        LedgerOperation::Charge {
            reservation_id,
            expected_reservation_generation,
            charge_id,
            vector,
            ..
        } => match ledger.reservation_of(reservation_id) {
            None => Some(LedgerError::UnknownReservation { reservation_id }),
            Some(r) => {
                let binding = binding_fault(
                    r.spec_owner(),
                    r.spec_path(),
                    r.spec_class(),
                    r.spec_generation(),
                    r.spec_vector(),
                    transition,
                    expected_reservation_generation,
                    None,
                );
                if binding is Some {
                    binding
                } else if vector.spec_is_zero() {
                    Some(LedgerError::ZeroVector)
                } else if exceeding_axis(vector, r.spec_vector(), 0) is Some {
                    let axis = exceeding_axis(vector, r.spec_vector(), 0)->0;
                    Some(
                        LedgerError::ChargeExceedsReservation {
                            reservation_id,
                            axis,
                            reserved: r.spec_vector().spec_axis(axis),
                            charged: vector.spec_axis(axis),
                        },
                    )
                } else if ledger.charge_id_used(charge_id) {
                    Some(LedgerError::ChargeIdAlreadyUsed { charge_id })
                } else {
                    None
                }
            },
        },
        LedgerOperation::Release { subject, expected_generation, exact_vector } => match subject_fields(
            ledger,
            subject,
        ) {
            None => Some(unknown_subject(subject)),
            Some(f) => binding_fault(f.0, f.1, f.2, f.3, f.4, transition, expected_generation, Some(exact_vector)),
        },
        LedgerOperation::Expire { reservation_id, expected_generation, exact_vector, evidence } => match ledger.reservation_of(reservation_id) {
            None => Some(LedgerError::UnknownReservation { reservation_id }),
            Some(r) => {
                let binding = binding_fault(
                    r.spec_owner(),
                    r.spec_path(),
                    r.spec_class(),
                    r.spec_generation(),
                    r.spec_vector(),
                    transition,
                    expected_generation,
                    Some(exact_vector),
                );
                if binding is Some {
                    binding
                } else if evidence.reservation_id != reservation_id {
                    Some(
                        LedgerError::ExpiryEvidenceSubjectMismatch {
                            expected: reservation_id,
                            actual: evidence.reservation_id,
                        },
                    )
                } else if evidence.reservation_generation != expected_generation {
                    Some(
                        LedgerError::ExpiryEvidenceGenerationMismatch {
                            expected: expected_generation,
                            actual: evidence.reservation_generation,
                        },
                    )
                } else if evidence.time_classification != TimeEvidenceClassification::Expired {
                    Some(LedgerError::ExpiryTimeNotExpired { reservation_id })
                } else if !evidence.confirms_quiescence {
                    Some(LedgerError::ExpiryNotQuiescent { reservation_id })
                } else if r.spec_hold() != OwnerHold::Unheld {
                    Some(LedgerError::ProtectedOwnerCannotExpire { reservation_id, hold: r.spec_hold() })
                } else {
                    None
                }
            },
        },
        LedgerOperation::Transfer {
            subject,
            expected_generation,
            target_owner,
            target_path,
            exact_conserved_vector,
        } => match subject_fields(ledger, subject) {
            None => Some(unknown_subject(subject)),
            Some(f) => {
                let binding = binding_fault(
                    f.0,
                    f.1,
                    f.2,
                    f.3,
                    f.4,
                    transition,
                    expected_generation,
                    Some(exact_conserved_vector),
                );
                if binding is Some {
                    binding
                } else if maintenance_fault(f.2, target_owner) is Some {
                    maintenance_fault(f.2, target_owner)
                } else if f.0 == target_owner && f.1 == target_path {
                    Some(LedgerError::NoopTransfer)
                } else if f.3 == u64::MAX {
                    Some(LedgerError::EntryGenerationOverflow)
                } else {
                    None
                }
            },
        },
        LedgerOperation::Adjust {
            charge_id,
            expected_generation,
            before_vector,
            after_vector,
            stable_subject_key,
        } => match ledger.charge_of(charge_id) {
            None => Some(LedgerError::UnknownCharge { charge_id }),
            Some(c) => {
                let binding = binding_fault(
                    c.spec_owner(),
                    c.spec_path(),
                    c.spec_class(),
                    c.spec_generation(),
                    c.spec_vector(),
                    transition,
                    expected_generation,
                    Some(before_vector),
                );
                if binding is Some {
                    binding
                } else if stable_subject_key != c.spec_stable_subject_key() {
                    Some(
                        LedgerError::StableSubjectKeyMismatch {
                            charge_id,
                            expected: c.spec_stable_subject_key(),
                            actual: stable_subject_key,
                        },
                    )
                } else if after_vector.spec_is_zero() {
                    Some(LedgerError::WholeChargeMustUseRelease { charge_id })
                } else if before_vector == after_vector {
                    Some(LedgerError::NoopAdjust { charge_id })
                } else if c.spec_generation() == u64::MAX {
                    Some(LedgerError::EntryGenerationOverflow)
                } else {
                    None
                }
            },
        },
    }
}

/// Moving a whole entry's vector along every ancestor of `path`: in or out
/// of its reservation lane, or of committed usage.
pub open spec fn entry_change(
    change: BucketChange,
    reservation: bool,
    class: ResourceClass,
    add: bool,
    vector: DurableChargeVector,
) -> BucketChange {
    if reservation {
        lane_change(change, class, add, vector)
    } else {
        committed_change(change, add, vector)
    }
}

/// The net change an admitted operation makes to the bucket at `p`.
pub open spec fn operation_change(
    ledger: ResourceLedger,
    transition: ResourceLedgerTransition,
    p: QuotaPath,
) -> BucketChange {
    let header = transition.header;
    match transition.operation {
        LedgerOperation::Reserve { vector, .. } => if ancestor_of(p, header.quota_path) {
            lane_change(no_change(), header.resource_class, true, vector)
        } else {
            no_change()
        },
        LedgerOperation::Charge { reservation_id, vector, .. } => {
            let r = ledger.reservation_of(reservation_id)->0;
            if ancestor_of(p, r.spec_path()) {
                committed_change(
                    lane_change(no_change(), r.spec_class(), false, r.spec_vector()),
                    true,
                    vector,
                )
            } else {
                no_change()
            }
        },
        LedgerOperation::Release { subject, .. } => {
            let f = subject_fields(ledger, subject)->0;
            if ancestor_of(p, f.1) {
                entry_change(no_change(), f.5, f.2, false, f.4)
            } else {
                no_change()
            }
        },
        LedgerOperation::Expire { reservation_id, .. } => {
            let r = ledger.reservation_of(reservation_id)->0;
            if ancestor_of(p, r.spec_path()) {
                lane_change(no_change(), r.spec_class(), false, r.spec_vector())
            } else {
                no_change()
            }
        },
        LedgerOperation::Transfer { subject, target_path, .. } => {
            let f = subject_fields(ledger, subject)->0;
            let out = if ancestor_of(p, f.1) {
                entry_change(no_change(), f.5, f.2, false, f.4)
            } else {
                no_change()
            };
            if ancestor_of(p, target_path) {
                entry_change(out, f.5, f.2, true, f.4)
            } else {
                out
            }
        },
        LedgerOperation::Adjust { charge_id, before_vector, after_vector, .. } => {
            let c = ledger.charge_of(charge_id)->0;
            if ancestor_of(p, c.spec_path()) {
                committed_change(committed_change(no_change(), false, before_vector), true, after_vector)
            } else {
                no_change()
            }
        },
    }
}

/// Whether an admitted operation moves the bucket at `p`: `p` is an
/// ancestor of (or is) a path whose entry it adds, removes or rewrites.
pub open spec fn operation_touches(
    ledger: ResourceLedger,
    transition: ResourceLedgerTransition,
    p: QuotaPath,
) -> bool {
    match transition.operation {
        LedgerOperation::Reserve { .. } => ancestor_of(p, transition.header.quota_path),
        LedgerOperation::Charge { reservation_id, .. } => ancestor_of(
            p,
            ledger.reservation_of(reservation_id)->0.spec_path(),
        ),
        LedgerOperation::Release { subject, .. } => ancestor_of(p, (subject_fields(ledger, subject)->0).1),
        LedgerOperation::Expire { reservation_id, .. } => ancestor_of(
            p,
            ledger.reservation_of(reservation_id)->0.spec_path(),
        ),
        LedgerOperation::Transfer { subject, target_path, .. } => ancestor_of(
            p,
            (subject_fields(ledger, subject)->0).1,
        ) || ancestor_of(p, target_path),
        LedgerOperation::Adjust { charge_id, .. } => ancestor_of(
            p,
            ledger.charge_of(charge_id)->0.spec_path(),
        ),
    }
}

/// Whether every bucket an admitted operation moves exists and admits its
/// net change.
pub open spec fn buckets_admit(ledger: ResourceLedger, transition: ResourceLedgerTransition) -> bool {
    forall|p: QuotaPath|
        #[trigger] operation_touches(ledger, transition, p) ==> ledger.bucket_of(p) is Some
            && bucket_admits(ledger.bucket_of(p)->0, operation_change(ledger, transition, p))
}

/// The kind of outcome an operation reports.
pub open spec fn operation_kind(operation: LedgerOperation) -> AppliedOperation {
    match operation {
        LedgerOperation::Reserve { .. } => AppliedOperation::Reserved,
        LedgerOperation::Charge { .. } => AppliedOperation::Charged,
        LedgerOperation::Release { .. } => AppliedOperation::Released,
        LedgerOperation::Expire { .. } => AppliedOperation::Expired,
        LedgerOperation::Transfer { .. } => AppliedOperation::Transferred,
        LedgerOperation::Adjust { .. } => AppliedOperation::Adjusted,
    }
}

/// How an admitted operation edits the reservation and charge tables.
pub open spec fn entries_updated(
    before: ResourceLedger,
    after: ResourceLedger,
    transition: ResourceLedgerTransition,
) -> bool {
    let header = transition.header;
    match transition.operation {
        LedgerOperation::Reserve { reservation_id, vector, hold } => {
            &&& after.reservation_of(reservation_id) is Some
            &&& reservation_has(
                after.reservation_of(reservation_id)->0,
                reservation_id,
                0,
                header.owner,
                header.quota_path,
                header.resource_class,
                vector,
                hold,
            )
            &&& forall|id: ReservationId|
                id != reservation_id ==> #[trigger] after.reservation_of(id) == before.reservation_of(id)
            &&& forall|id: ChargeId| #[trigger] after.charge_of(id) == before.charge_of(id)
            &&& forall|id: ReservationId|
                #[trigger] after.reservation_id_used(id) == (before.reservation_id_used(id) || id
                    == reservation_id)
            &&& forall|id: ChargeId| #[trigger] after.charge_id_used(id) == before.charge_id_used(id)
        },
        LedgerOperation::Charge { reservation_id, charge_id, vector, stable_subject_key, .. } => {
            let r = before.reservation_of(reservation_id)->0;
            &&& after.reservation_of(reservation_id) is None
            &&& forall|id: ReservationId|
                id != reservation_id ==> #[trigger] after.reservation_of(id) == before.reservation_of(id)
            &&& after.charge_of(charge_id) is Some
            &&& charge_has(
                after.charge_of(charge_id)->0,
                charge_id,
                0,
                r.spec_owner(),
                r.spec_path(),
                r.spec_class(),
                vector,
                stable_subject_key,
            )
            &&& forall|id: ChargeId| id != charge_id ==> #[trigger] after.charge_of(id) == before.charge_of(id)
            &&& forall|id: ReservationId|
                #[trigger] after.reservation_id_used(id) == before.reservation_id_used(id)
            &&& forall|id: ChargeId|
                #[trigger] after.charge_id_used(id) == (before.charge_id_used(id) || id == charge_id)
        },
        LedgerOperation::Release { subject, .. } => {
            &&& match subject {
                LedgerSubject::Reservation(rid) => {
                    &&& after.reservation_of(rid) is None
                    &&& forall|id: ReservationId|
                        id != rid ==> #[trigger] after.reservation_of(id) == before.reservation_of(id)
                    &&& forall|id: ChargeId| #[trigger] after.charge_of(id) == before.charge_of(id)
                },
                LedgerSubject::Charge(cid) => {
                    &&& after.charge_of(cid) is None
                    &&& forall|id: ChargeId| id != cid ==> #[trigger] after.charge_of(id) == before.charge_of(id)
                    &&& forall|id: ReservationId|
                        #[trigger] after.reservation_of(id) == before.reservation_of(id)
                },
            }
            &&& forall|id: ReservationId|
                #[trigger] after.reservation_id_used(id) == before.reservation_id_used(id)
            &&& forall|id: ChargeId| #[trigger] after.charge_id_used(id) == before.charge_id_used(id)
        },
        LedgerOperation::Expire { reservation_id, .. } => {
            &&& after.reservation_of(reservation_id) is None
            &&& forall|id: ReservationId|
                id != reservation_id ==> #[trigger] after.reservation_of(id) == before.reservation_of(id)
            &&& forall|id: ChargeId| #[trigger] after.charge_of(id) == before.charge_of(id)
            &&& forall|id: ReservationId|
                #[trigger] after.reservation_id_used(id) == before.reservation_id_used(id)
            &&& forall|id: ChargeId| #[trigger] after.charge_id_used(id) == before.charge_id_used(id)
        },
        LedgerOperation::Transfer { subject, target_owner, target_path, .. } => {
            &&& match subject {
                LedgerSubject::Reservation(rid) => {
                    let r = before.reservation_of(rid)->0;
                    &&& after.reservation_of(rid) is Some
                    &&& reservation_has(
                        after.reservation_of(rid)->0,
                        rid,
                        (r.spec_generation() + 1) as u64,
                        target_owner,
                        target_path,
                        r.spec_class(),
                        r.spec_vector(),
                        r.spec_hold(),
                    )
                    &&& forall|id: ReservationId|
                        id != rid ==> #[trigger] after.reservation_of(id) == before.reservation_of(id)
                    &&& forall|id: ChargeId| #[trigger] after.charge_of(id) == before.charge_of(id)
                },
                LedgerSubject::Charge(cid) => {
                    let c = before.charge_of(cid)->0;
                    &&& after.charge_of(cid) is Some
                    &&& charge_has(
                        after.charge_of(cid)->0,
                        cid,
                        (c.spec_generation() + 1) as u64,
                        target_owner,
                        target_path,
                        c.spec_class(),
                        c.spec_vector(),
                        c.spec_stable_subject_key(),
                    )
                    &&& forall|id: ChargeId| id != cid ==> #[trigger] after.charge_of(id) == before.charge_of(id)
                    &&& forall|id: ReservationId|
                        #[trigger] after.reservation_of(id) == before.reservation_of(id)
                },
            }
            &&& forall|id: ReservationId|
                #[trigger] after.reservation_id_used(id) == before.reservation_id_used(id)
            &&& forall|id: ChargeId| #[trigger] after.charge_id_used(id) == before.charge_id_used(id)
        },
        LedgerOperation::Adjust { charge_id, after_vector, .. } => {
            let c = before.charge_of(charge_id)->0;
            &&& after.charge_of(charge_id) is Some
            &&& charge_has(
                after.charge_of(charge_id)->0,
                charge_id,
                (c.spec_generation() + 1) as u64,
                c.spec_owner(),
                c.spec_path(),
                c.spec_class(),
                after_vector,
                c.spec_stable_subject_key(),
            )
            &&& forall|id: ChargeId|
                id != charge_id ==> #[trigger] after.charge_of(id) == before.charge_of(id)
            &&& forall|id: ReservationId| #[trigger] after.reservation_of(id) == before.reservation_of(id)
            &&& forall|id: ReservationId|
                #[trigger] after.reservation_id_used(id) == before.reservation_id_used(id)
            &&& forall|id: ChargeId| #[trigger] after.charge_id_used(id) == before.charge_id_used(id)
        },
    }
}

/// The table edit an admitted operation makes.
#[derive(Clone, Copy, Debug)]
enum EntryEdit {
    InsertReservation { entry: ReservationEntry },
    ChargeReservation { index: usize, entry: ChargeEntry },
    DropReservation { index: usize },
    DropCharge { index: usize },
    ReplaceReservation { index: usize, entry: ReservationEntry },
    ReplaceCharge { index: usize, entry: ChargeEntry },
}

/// The fields of the entry a release or transfer names, and where it is.
#[derive(Clone, Copy, Debug)]
struct Snapshot {
    owner: ResourceOwnerKey,
    path: QuotaPath,
    class: ResourceClass,
    generation: u64,
    vector: DurableChargeVector,
    reservation: bool,
    index: usize,
}

fn check_maintenance(class: ResourceClass, owner: &ResourceOwnerKey) -> (result: Result<(), LedgerError>)
    ensures
        match result {
            Ok(()) => maintenance_fault(class, *owner) is None,
            Err(error) => maintenance_fault(class, *owner) == Some(error),
        },
{
    if class == ResourceClass::RegisteredMaintenance {
        match owner {
            ResourceOwnerKey::Maintenance { .. } => {},
            _ => return Err(LedgerError::MaintenanceReserveRequiresRegisteredOwner),
        }
    }
    Ok(())
}

fn check_binding(
    owner: &ResourceOwnerKey,
    path: &QuotaPath,
    class: ResourceClass,
    generation: u64,
    vector: DurableChargeVector,
    transition: &ResourceLedgerTransition,
    expected_generation: u64,
    exact_vector: Option<DurableChargeVector>,
) -> (result: Result<(), LedgerError>)
    ensures
        match result {
            Ok(()) => binding_fault(
                *owner,
                *path,
                class,
                generation,
                vector,
                *transition,
                expected_generation,
                exact_vector,
            ) is None,
            Err(error) => binding_fault(
                *owner,
                *path,
                class,
                generation,
                vector,
                *transition,
                expected_generation,
                exact_vector,
            ) == Some(error),
        },
{
    if !same_owner(owner, &transition.header.owner) {
        return Err(LedgerError::OwnerMismatch);
    }
    if !path.same_path(&transition.header.quota_path) {
        return Err(
            LedgerError::QuotaPathMismatch { expected: *path, actual: transition.header.quota_path },
        );
    }
    if class != transition.header.resource_class {
        return Err(
            LedgerError::ResourceClassMismatch {
                expected: class,
                actual: transition.header.resource_class,
            },
        );
    }
    if generation != expected_generation {
        return Err(
            LedgerError::StaleEntryGeneration { expected: generation, actual: expected_generation },
        );
    }
    if let Some(exact) = exact_vector {
        if vector != exact {
            return Err(LedgerError::ExactVectorMismatch { expected: vector, actual: exact });
        }
    }
    Ok(())
}

fn first_exceeding_axis(charged: DurableChargeVector, reserved: DurableChargeVector) -> (axis: Option<
    DurableChargeAxis,
>)
    ensures
        axis == exceeding_axis(charged, reserved, 0),
{
    let mut index: usize = 0;
    while index < 6
        invariant
            index <= 6,
            exceeding_axis(charged, reserved, 0) == exceeding_axis(charged, reserved, index as int),
        decreases 6 - index,
    {
        let axis = durable_axis_from_index(index);
        if charged.axis(axis) > reserved.axis(axis) {
            return Some(axis);
        }
        index = index + 1;
    }
    None
}

impl ResourceLedger {
    fn snapshot(&self, subject: &LedgerSubject) -> (result: Result<Snapshot, LedgerError>)
        ensures
            match result {
                Ok(s) => {
                    &&& subject_fields(*self, *subject) == Some(
                        (s.owner, s.path, s.class, s.generation, s.vector, s.reservation),
                    )
                    &&& s.reservation ==> s.index < self.reservations@.len() && subject
                        == LedgerSubject::Reservation(self.reservations@[s.index as int].id)
                        && self.reservation_of(self.reservations@[s.index as int].id) == Some(
                        self.reservations@[s.index as int],
                    )
                    &&& !s.reservation ==> s.index < self.charges@.len() && subject
                        == LedgerSubject::Charge(self.charges@[s.index as int].id) && self.charge_of(
                        self.charges@[s.index as int].id,
                    ) == Some(self.charges@[s.index as int])
                },
                Err(error) => subject_fields(*self, *subject) is None && error == unknown_subject(*subject),
            },
    {
        match *subject {
            LedgerSubject::Reservation(id) => match self.find_reservation(id) {
                Some(index) => {
                    let e = self.reservations[index];
                    Ok(
                        Snapshot {
                            owner: e.owner,
                            path: e.path,
                            class: e.class,
                            generation: e.generation,
                            vector: e.vector,
                            reservation: true,
                            index,
                        },
                    )
                },
                None => Err(LedgerError::UnknownReservation { reservation_id: id }),
            },
            LedgerSubject::Charge(id) => match self.find_charge(id) {
                Some(index) => {
                    let e = self.charges[index];
                    Ok(
                        Snapshot {
                            owner: e.owner,
                            path: e.path,
                            class: e.class,
                            generation: e.generation,
                            vector: e.vector,
                            reservation: false,
                            index,
                        },
                    )
                },
                None => Err(LedgerError::UnknownCharge { charge_id: id }),
            },
        }
    }
}

/// Whether a table edit is the one an admitted operation makes.
spec fn edit_matches(ledger: ResourceLedger, transition: ResourceLedgerTransition, edit: EntryEdit) -> bool {
    let header = transition.header;
    match (transition.operation, edit) {
        (
            LedgerOperation::Reserve { reservation_id, vector, hold },
            EntryEdit::InsertReservation { entry },
        ) => reservation_has(
            entry,
            reservation_id,
            0,
            header.owner,
            header.quota_path,
            header.resource_class,
            vector,
            hold,
        ) && !ledger.reservation_id_used(reservation_id),
        (
            LedgerOperation::Charge { reservation_id, charge_id, vector, stable_subject_key, .. },
            EntryEdit::ChargeReservation { index, entry },
        ) => {
            &&& index < ledger.reservations@.len()
            &&& ledger.reservations@[index as int].id == reservation_id
            &&& ledger.reservation_of(reservation_id) == Some(ledger.reservations@[index as int])
            &&& !ledger.charge_id_used(charge_id)
            &&& charge_has(
                entry,
                charge_id,
                0,
                ledger.reservations@[index as int].owner,
                ledger.reservations@[index as int].path,
                ledger.reservations@[index as int].class,
                vector,
                stable_subject_key,
            )
        },
        (
            LedgerOperation::Release { subject: LedgerSubject::Reservation(rid), .. },
            EntryEdit::DropReservation { index },
        ) => index < ledger.reservations@.len() && ledger.reservations@[index as int].id == rid,
        (
            LedgerOperation::Release { subject: LedgerSubject::Charge(cid), .. },
            EntryEdit::DropCharge { index },
        ) => index < ledger.charges@.len() && ledger.charges@[index as int].id == cid,
        (LedgerOperation::Expire { reservation_id, .. }, EntryEdit::DropReservation { index }) => index
            < ledger.reservations@.len() && ledger.reservations@[index as int].id == reservation_id,
        (
            LedgerOperation::Transfer {
                subject: LedgerSubject::Reservation(rid),
                target_owner,
                target_path,
                ..
            },
            EntryEdit::ReplaceReservation { index, entry },
        ) => {
            &&& index < ledger.reservations@.len()
            &&& ledger.reservations@[index as int].id == rid
            &&& ledger.reservation_of(rid) == Some(ledger.reservations@[index as int])
            &&& ledger.reservations@[index as int].generation < u64::MAX
            &&& reservation_has(
                entry,
                rid,
                (ledger.reservations@[index as int].generation + 1) as u64,
                target_owner,
                target_path,
                ledger.reservations@[index as int].class,
                ledger.reservations@[index as int].vector,
                ledger.reservations@[index as int].hold,
            )
        },
        (
            LedgerOperation::Transfer {
                subject: LedgerSubject::Charge(cid),
                target_owner,
                target_path,
                ..
            },
            EntryEdit::ReplaceCharge { index, entry },
        ) => {
            &&& index < ledger.charges@.len()
            &&& ledger.charges@[index as int].id == cid
            &&& ledger.charge_of(cid) == Some(ledger.charges@[index as int])
            &&& ledger.charges@[index as int].generation < u64::MAX
            &&& charge_has(
                entry,
                cid,
                (ledger.charges@[index as int].generation + 1) as u64,
                target_owner,
                target_path,
                ledger.charges@[index as int].class,
                ledger.charges@[index as int].vector,
                ledger.charges@[index as int].stable_subject_key,
            )
        },
        (
            LedgerOperation::Adjust { charge_id, after_vector, .. },
            EntryEdit::ReplaceCharge { index, entry },
        ) => {
            &&& index < ledger.charges@.len()
            &&& ledger.charges@[index as int].id == charge_id
            &&& ledger.charge_of(charge_id) == Some(ledger.charges@[index as int])
            &&& ledger.charges@[index as int].generation < u64::MAX
            &&& charge_has(
                entry,
                charge_id,
                (ledger.charges@[index as int].generation + 1) as u64,
                ledger.charges@[index as int].owner,
                ledger.charges@[index as int].path,
                ledger.charges@[index as int].class,
                after_vector,
                ledger.charges@[index as int].stable_subject_key,
            )
        },
        _ => false,
    }
}

impl ResourceLedger {
    fn prepare(&self, transition: &ResourceLedgerTransition) -> (result: Result<
        (Vec<ChangeSlot>, EntryEdit),
        LedgerError,
    >)
        ensures
            match result {
                Ok((changes, edit)) => {
                    &&& operation_fault(*self, *transition) is None
                    &&& distinct_changes(changes@)
                    &&& sorted_changes(changes@)
                    &&& forall|p: QuotaPath|
                        #[trigger] change_at(changes@, p) == operation_change(*self, *transition, p)
                    &&& forall|p: QuotaPath|
                        #[trigger] has_change(changes@, p) == operation_touches(*self, *transition, p)
                    &&& edit_matches(*self, *transition, edit)
                },
                Err(error) => operation_fault(*self, *transition) == Some(error),
            },
    {
        let header = &transition.header;
        let mut changes: Vec<ChangeSlot> = Vec::new();
        proof {
            assert forall|p: QuotaPath| #[trigger] change_at(changes@, p) == no_change() by {}
            assert forall|p: QuotaPath| !#[trigger] has_change(changes@, p) by {}
        }
        match transition.operation {
            LedgerOperation::Reserve { reservation_id, vector, hold } => {
                check_maintenance(header.resource_class, &header.owner)?;
                if vector.is_zero() {
                    return Err(LedgerError::ZeroVector);
                }
                if self.reservation_id_was_used(reservation_id) {
                    return Err(LedgerError::ReservationIdAlreadyUsed { reservation_id });
                }
                add_change_along(
                    &mut changes,
                    &header.quota_path,
                    Some(header.resource_class),
                    true,
                    vector,
                )?;
                let entry = ReservationEntry {
                    id: reservation_id,
                    generation: 0,
                    owner: header.owner,
                    path: header.quota_path,
                    class: header.resource_class,
                    vector,
                    hold,
                };
                Ok((changes, EntryEdit::InsertReservation { entry }))
            },
            LedgerOperation::Charge {
                reservation_id,
                expected_reservation_generation,
                charge_id,
                vector,
                stable_subject_key,
            } => {
                let index = match self.find_reservation(reservation_id) {
                    Some(index) => index,
                    None => return Err(LedgerError::UnknownReservation { reservation_id }),
                };
                let r = self.reservations[index];
                check_binding(
                    &r.owner,
                    &r.path,
                    r.class,
                    r.generation,
                    r.vector,
                    transition,
                    expected_reservation_generation,
                    None,
                )?;
                if vector.is_zero() {
                    return Err(LedgerError::ZeroVector);
                }
                if let Some(axis) = first_exceeding_axis(vector, r.vector) {
                    return Err(
                        LedgerError::ChargeExceedsReservation {
                            reservation_id,
                            axis,
                            reserved: r.vector.axis(axis),
                            charged: vector.axis(axis),
                        },
                    );
                }
                if self.charge_id_was_used(charge_id) {
                    return Err(LedgerError::ChargeIdAlreadyUsed { charge_id });
                }
                add_change_along(&mut changes, &r.path, Some(r.class), false, r.vector)?;
                add_change_along(&mut changes, &r.path, None, true, vector)?;
                let entry = ChargeEntry {
                    id: charge_id,
                    generation: 0,
                    owner: r.owner,
                    path: r.path,
                    class: r.class,
                    vector,
                    stable_subject_key,
                };
                Ok((changes, EntryEdit::ChargeReservation { index, entry }))
            },
            LedgerOperation::Release { subject, expected_generation, exact_vector } => {
                let s = self.snapshot(&subject)?;
                check_binding(
                    &s.owner,
                    &s.path,
                    s.class,
                    s.generation,
                    s.vector,
                    transition,
                    expected_generation,
                    Some(exact_vector),
                )?;
                let lane = if s.reservation {
                    Some(s.class)
                } else {
                    None
                };
                add_change_along(&mut changes, &s.path, lane, false, s.vector)?;
                let edit = if s.reservation {
                    EntryEdit::DropReservation { index: s.index }
                } else {
                    EntryEdit::DropCharge { index: s.index }
                };
                Ok((changes, edit))
            },
            LedgerOperation::Expire { reservation_id, expected_generation, exact_vector, evidence } => {
                let index = match self.find_reservation(reservation_id) {
                    Some(index) => index,
                    None => return Err(LedgerError::UnknownReservation { reservation_id }),
                };
                let r = self.reservations[index];
                check_binding(
                    &r.owner,
                    &r.path,
                    r.class,
                    r.generation,
                    r.vector,
                    transition,
                    expected_generation,
                    Some(exact_vector),
                )?;
                if !same_bytes32(&evidence.reservation_id.0, &reservation_id.0) {
                    return Err(
                        LedgerError::ExpiryEvidenceSubjectMismatch {
                            expected: reservation_id,
                            actual: evidence.reservation_id,
                        },
                    );
                }
                if evidence.reservation_generation != expected_generation {
                    return Err(
                        LedgerError::ExpiryEvidenceGenerationMismatch {
                            expected: expected_generation,
                            actual: evidence.reservation_generation,
                        },
                    );
                }
                if evidence.time_classification != TimeEvidenceClassification::Expired {
                    return Err(LedgerError::ExpiryTimeNotExpired { reservation_id });
                }
                if !evidence.confirms_quiescence {
                    return Err(LedgerError::ExpiryNotQuiescent { reservation_id });
                }
                if r.hold != OwnerHold::Unheld {
                    return Err(LedgerError::ProtectedOwnerCannotExpire { reservation_id, hold: r.hold });
                }
                add_change_along(&mut changes, &r.path, Some(r.class), false, r.vector)?;
                Ok((changes, EntryEdit::DropReservation { index }))
            },
            LedgerOperation::Transfer {
                subject,
                expected_generation,
                target_owner,
                target_path,
                exact_conserved_vector,
            } => {
                let s = self.snapshot(&subject)?;
                check_binding(
                    &s.owner,
                    &s.path,
                    s.class,
                    s.generation,
                    s.vector,
                    transition,
                    expected_generation,
                    Some(exact_conserved_vector),
                )?;
                check_maintenance(s.class, &target_owner)?;
                if same_owner(&s.owner, &target_owner) && s.path.same_path(&target_path) {
                    return Err(LedgerError::NoopTransfer);
                }
                if s.generation == u64::MAX {
                    return Err(LedgerError::EntryGenerationOverflow);
                }
                let next_generation = s.generation + 1;
                let lane = if s.reservation {
                    Some(s.class)
                } else {
                    None
                };
                add_change_along(&mut changes, &s.path, lane, false, s.vector)?;
                add_change_along(&mut changes, &target_path, lane, true, s.vector)?;
                let edit = if s.reservation {
                    let r = self.reservations[s.index];
                    EntryEdit::ReplaceReservation {
                        index: s.index,
                        entry: ReservationEntry {
                            generation: next_generation,
                            owner: target_owner,
                            path: target_path,
                            ..r
                        },
                    }
                } else {
                    let c = self.charges[s.index];
                    EntryEdit::ReplaceCharge {
                        index: s.index,
                        entry: ChargeEntry {
                            generation: next_generation,
                            owner: target_owner,
                            path: target_path,
                            ..c
                        },
                    }
                };
                Ok((changes, edit))
            },
            LedgerOperation::Adjust {
                charge_id,
                expected_generation,
                before_vector,
                after_vector,
                stable_subject_key,
            } => {
                let index = match self.find_charge(charge_id) {
                    Some(index) => index,
                    None => return Err(LedgerError::UnknownCharge { charge_id }),
                };
                let c = self.charges[index];
                check_binding(
                    &c.owner,
                    &c.path,
                    c.class,
                    c.generation,
                    c.vector,
                    transition,
                    expected_generation,
                    Some(before_vector),
                )?;
                if !same_bytes32(&stable_subject_key.0, &c.stable_subject_key.0) {
                    return Err(
                        LedgerError::StableSubjectKeyMismatch {
                            charge_id,
                            expected: c.stable_subject_key,
                            actual: stable_subject_key,
                        },
                    );
                }
                if after_vector.is_zero() {
                    return Err(LedgerError::WholeChargeMustUseRelease { charge_id });
                }
                if before_vector == after_vector {
                    return Err(LedgerError::NoopAdjust { charge_id });
                }
                if c.generation == u64::MAX {
                    return Err(LedgerError::EntryGenerationOverflow);
                }
                add_change_along(&mut changes, &c.path, None, false, before_vector)?;
                add_change_along(&mut changes, &c.path, None, true, after_vector)?;
                let entry = ChargeEntry {
                    generation: c.generation + 1,
                    vector: after_vector,
                    ..c
                };
                Ok((changes, EntryEdit::ReplaceCharge { index, entry }))
            },
        }
    }
}


/// A bucket's planned state, by its position in the ledger.
#[derive(Clone, Copy, Debug)]
struct PlannedBucket {
    index: usize,
    state: BucketState,
}

/// Each planned state is the change of its slot applied to the bucket at
/// the slot's path, and is valid.
spec fn plan_fits(buckets: Seq<BucketSlot>, plan: Seq<PlannedBucket>, changes: Seq<ChangeSlot>) -> bool {
    &&& plan.len() == changes.len()
    &&& forall|k: int|
        0 <= k < plan.len() ==> {
            &&& (#[trigger] plan[k]).index < buckets.len()
            &&& buckets[plan[k].index as int].path == changes[k].path
            &&& bucket_moved(buckets[plan[k].index as int].state, plan[k].state, changes[k].change)
            &&& plan[k].state.spec_valid()
        }
}

proof fn lemma_bucket_unmoved(state: BucketState)
    ensures
        bucket_moved(state, state, no_change()),
{
    assert(vector_plus(vector_minus(state.ordinary_reserved, DurableChargeVector::spec_zero()), DurableChargeVector::spec_zero()) == state.ordinary_reserved);
    assert(vector_plus(vector_minus(state.maintenance_reserved, DurableChargeVector::spec_zero()), DurableChargeVector::spec_zero()) == state.maintenance_reserved);
    assert(vector_plus(vector_minus(state.committed, DurableChargeVector::spec_zero()), DurableChargeVector::spec_zero()) == state.committed);
}

impl ResourceLedger {
    /// Whether the ledger refuses one accumulated change: no bucket at its
    /// path, or a bucket that does not admit it.
    spec fn refuses_change(self, slot: ChangeSlot) -> bool {
        !(self.bucket_of(slot.path) is Some && bucket_admits(self.bucket_of(slot.path)->0, slot.change))
    }

    fn plan_bucket_changes(&self, changes: &Vec<ChangeSlot>) -> (result: Result<
        Vec<PlannedBucket>,
        LedgerError,
    >)
        requires
            distinct_changes(changes@),
        ensures
            match result {
                Ok(plan) => {
                    &&& plan_fits(self.buckets@, plan@, changes@)
                    &&& forall|k: int|
                        0 <= k < changes@.len() ==> self.bucket_of(changes@[k].path) == Some(
                            self.buckets@[(#[trigger] plan@[k]).index as int].state,
                        )
                },
                Err(error) => error == (LedgerError::BucketPlanAllocationFailed {
                    requested_buckets: changes@.len() as usize,
                }) || exists|k: int|
                    0 <= k < changes@.len() && #[trigger] self.refuses_change(changes@[k])
                        && (forall|j: int| 0 <= j < k ==> !self.refuses_change(changes@[j]))
                        && planning_refusal(
                        self.bucket_of(changes@[k].path),
                        changes@[k].path,
                        changes@[k].change,
                        error,
                    ),
            },
    {
        let mut plan: Vec<PlannedBucket> = Vec::new();
        if !try_reserve_exact(&mut plan, changes.len()) {
            return Err(LedgerError::BucketPlanAllocationFailed { requested_buckets: changes.len() });
        }
        let mut k: usize = 0;
        while k < changes.len()
            invariant
                k <= changes@.len(),
                plan@.len() == k,
                forall|j: int|
                    0 <= j < k ==> {
                        &&& (#[trigger] plan@[j]).index < self.buckets@.len()
                        &&& self.buckets@[plan@[j].index as int].path == changes@[j].path
                        &&& bucket_moved(
                            self.buckets@[plan@[j].index as int].state,
                            plan@[j].state,
                            changes@[j].change,
                        )
                        &&& plan@[j].state.spec_valid()
                        &&& self.bucket_of(changes@[j].path) == Some(
                            self.buckets@[plan@[j].index as int].state,
                        )
                    },
                forall|j: int| 0 <= j < k ==> !#[trigger] self.refuses_change(changes@[j]),
            decreases changes@.len() - k,
        {
            let slot = changes[k];
            let index = match self.find_bucket(&slot.path) {
                Some(index) => index,
                None => {
                    proof {
                        assert(self.refuses_change(changes@[k as int]));
                        assert(planning_refusal(
                            self.bucket_of(slot.path),
                            slot.path,
                            slot.change,
                            LedgerError::UnknownBucket { path: slot.path },
                        ));
                    }
                    return Err(LedgerError::UnknownBucket { path: slot.path });
                },
            };
            let before = self.buckets[index].state;
            let change = slot.change;
            let mut state = before;
            let step = vector_subtract(state.ordinary_reserved, change.ordinary_sub);
            proof {
                if let Err(e) = step {
                    assert(self.refuses_change(changes@[k as int]));
                    assert(planning_refusal(Some(before), slot.path, change, LedgerError::Vector(e)));
                }
            }
            state.ordinary_reserved = lift_vector(step)?;
            let step = vector_add(state.ordinary_reserved, change.ordinary_add);
            proof {
                if let Err(e) = step {
                    assert(self.refuses_change(changes@[k as int]));
                    assert(planning_refusal(Some(before), slot.path, change, LedgerError::Vector(e)));
                }
            }
            state.ordinary_reserved = lift_vector(step)?;
            let step = vector_subtract(state.maintenance_reserved, change.maintenance_sub);
            proof {
                if let Err(e) = step {
                    assert(self.refuses_change(changes@[k as int]));
                    assert(planning_refusal(Some(before), slot.path, change, LedgerError::Vector(e)));
                }
            }
            state.maintenance_reserved = lift_vector(step)?;
            let step = vector_add(state.maintenance_reserved, change.maintenance_add);
            proof {
                if let Err(e) = step {
                    assert(self.refuses_change(changes@[k as int]));
                    assert(planning_refusal(Some(before), slot.path, change, LedgerError::Vector(e)));
                }
            }
            state.maintenance_reserved = lift_vector(step)?;
            let step = vector_subtract(state.committed, change.committed_sub);
            proof {
                if let Err(e) = step {
                    assert(self.refuses_change(changes@[k as int]));
                    assert(planning_refusal(Some(before), slot.path, change, LedgerError::Vector(e)));
                }
            }
            state.committed = lift_vector(step)?;
            let step = vector_add(state.committed, change.committed_add);
            proof {
                if let Err(e) = step {
                    assert(self.refuses_change(changes@[k as int]));
                    assert(planning_refusal(Some(before), slot.path, change, LedgerError::Vector(e)));
                }
            }
            state.committed = lift_vector(step)?;
            proof {
                assert(bucket_moved(before, state, change));
                lemma_moved_valid_iff_admits(before, state, change);
            }
            match state.validate() {
                Ok(()) => {},
                Err(cause) => {
                    proof {
                        assert(self.refuses_change(changes@[k as int]));
                        assert(state == moved_state(before, change));
                        assert(planning_refusal(
                            Some(before),
                            slot.path,
                            change,
                            LedgerError::BucketRejected { path: slot.path, cause },
                        ));
                    }
                    return Err(LedgerError::BucketRejected { path: slot.path, cause });
                },
            }
            plan.push(PlannedBucket { index, state });
            proof {
                assert(plan@[k as int].state == state);
                assert(!self.refuses_change(changes@[k as int]));
            }
            k = k + 1;
        }
        Ok(plan)
    }
}

/// Writes each planned state into its bucket.
fn install_plan(
    buckets: &mut Vec<BucketSlot>,
    plan: &Vec<PlannedBucket>,
    Ghost(changes): Ghost<Seq<ChangeSlot>>,
)
    requires
        keys_distinct(old(buckets)@, bucket_key()),
        forall|i: int| 0 <= i < old(buckets)@.len() ==> (#[trigger] old(buckets)@[i]).state.spec_valid(),
        distinct_changes(changes),
        plan_fits(old(buckets)@, plan@, changes),
    ensures
        keys_distinct(final(buckets)@, bucket_key()),
        forall|i: int| 0 <= i < final(buckets)@.len() ==> (#[trigger] final(buckets)@[i]).state.spec_valid(),
        forall|p: QuotaPath|
            (#[trigger] keyed(final(buckets)@, bucket_key(), p) is Some) == (keyed(
                old(buckets)@,
                bucket_key(),
                p,
            ) is Some) && (keyed(old(buckets)@, bucket_key(), p) is Some ==> bucket_moved(
                keyed(old(buckets)@, bucket_key(), p)->0.state,
                keyed(final(buckets)@, bucket_key(), p)->0.state,
                change_at(changes, p),
            )),
{
    let ghost original = buckets@;
    let mut k: usize = 0;
    while k < plan.len()
        invariant
            k <= plan@.len(),
            plan_fits(original, plan@, changes),
            distinct_changes(changes),
            keys_distinct(original, bucket_key()),
            forall|i: int| 0 <= i < original.len() ==> (#[trigger] original[i]).state.spec_valid(),
            buckets@.len() == original.len(),
            forall|i: int| 0 <= i < original.len() ==> (#[trigger] buckets@[i]).path == original[i].path,
            forall|i: int| 0 <= i < original.len() ==> (#[trigger] buckets@[i]).state.spec_valid(),
            forall|j: int|
                0 <= j < k ==> buckets@[(#[trigger] plan@[j]).index as int].state == plan@[j].state,
            forall|i: int|
                0 <= i < original.len() && (forall|j: int| 0 <= j < k ==> (#[trigger] plan@[j]).index != i)
                    ==> #[trigger] buckets@[i] == original[i],
        decreases plan@.len() - k,
    {
        let planned = plan[k];
        proof {
            assert forall|j: int| 0 <= j < k implies (#[trigger] plan@[j]).index != planned.index by {
                assert(changes[j].path != changes[k as int].path);
            }
        }
        let path = buckets[planned.index].path;
        buckets.set(planned.index, BucketSlot { path, state: planned.state });
        k = k + 1;
    }
    proof {
        assert forall|i: int, j: int| 0 <= i < j < buckets@.len() implies bucket_key()(buckets@[i])
            != bucket_key()(buckets@[j]) by {
            assert(bucket_key()(original[i]) != bucket_key()(original[j]));
        }
        assert forall|p: QuotaPath|
            (#[trigger] keyed(buckets@, bucket_key(), p) is Some) == (keyed(original, bucket_key(), p) is Some)
                && (keyed(original, bucket_key(), p) is Some ==> bucket_moved(
                keyed(original, bucket_key(), p)->0.state,
                keyed(buckets@, bucket_key(), p)->0.state,
                change_at(changes, p),
            )) by {
            if exists|i: int| 0 <= i < original.len() && original[i].path == p {
                let i = choose|i: int| 0 <= i < original.len() && original[i].path == p;
                lemma_keyed_at(original, bucket_key(), p, i);
                lemma_keyed_at(buckets@, bucket_key(), p, i);
                if exists|m: int| 0 <= m < changes.len() && changes[m].path == p {
                    let m = choose|m: int| 0 <= m < changes.len() && changes[m].path == p;
                    lemma_change_at(changes, p, m);
                    let at = plan@[m].index as int;
                    if at != i {
                        if at < i {
                            assert(bucket_key()(original[at]) != bucket_key()(original[i]));
                        } else {
                            assert(bucket_key()(original[i]) != bucket_key()(original[at]));
                        }
                    }
                } else {
                    assert forall|j: int| 0 <= j < plan@.len() implies (#[trigger] plan@[j]).index != i by {
                        if plan@[j].index == i {
                            assert(changes[j].path == p);
                        }
                    }
                    assert(buckets@[i] == original[i]);
                    lemma_bucket_unmoved(original[i].state);
                }
            } else {
                assert forall|i: int| 0 <= i < buckets@.len() implies buckets@[i].path != p by {
                    assert(buckets@[i].path == original[i].path);
                }
            }
        }
    }
}


/// A table edit: the lookup of `key` becomes `result`, every other lookup
/// stays, and keys stay distinct.
spec fn keyed_moved<T, K>(before: Seq<T>, after: Seq<T>, key: spec_fn(T) -> K, k: K, result: Option<T>) -> bool {
    &&& keys_distinct(after, key)
    &&& keyed(after, key, k) == result
    &&& forall|other: K| other != k ==> #[trigger] keyed(after, key, other) == keyed(before, key, other)
}

proof fn lemma_keyed_push<T, K>(before: Seq<T>, key: spec_fn(T) -> K, item: T)
    requires
        keys_distinct(before, key),
        keyed(before, key, key(item)) is None,
    ensures
        keyed_moved(before, before.push(item), key, key(item), Some(item)),
{
    let n = before.len() as int;
    assert(before.push(item) =~= before.insert(n, item));
    let result = Some(item);
    assert(0 <= n <= before.len() && keyed(before, key, key(item)) is None && result is Some && key(
        result->0,
    ) == key(item) && before.push(item) == before.insert(n, result->0));
    lemma_keyed_edit(before, before.push(item), key, key(item), Some(item));
}

proof fn lemma_keyed_set<T, K>(before: Seq<T>, key: spec_fn(T) -> K, index: int, item: T)
    requires
        keys_distinct(before, key),
        0 <= index < before.len(),
        key(before[index]) == key(item),
    ensures
        keyed_moved(before, before.update(index, item), key, key(item), Some(item)),
{
    let result = Some(item);
    assert(0 <= index < before.len() && key(before[index]) == key(item) && result is Some && key(
        result->0,
    ) == key(item) && before.update(index, item) == before.update(index, result->0));
    lemma_keyed_edit(before, before.update(index, item), key, key(item), Some(item));
}

proof fn lemma_keyed_remove<T, K>(before: Seq<T>, key: spec_fn(T) -> K, index: int)
    requires
        keys_distinct(before, key),
        0 <= index < before.len(),
    ensures
        keyed_moved(before, before.remove(index), key, key(before[index]), None),
{
    lemma_keyed_edit(before, before.remove(index), key, key(before[index]), None);
}

/// An identifier absent from the used list names no live entry.
proof fn lemma_unused_not_live<T, K>(items: Seq<T>, used: Seq<K>, key: spec_fn(T) -> K, k: K)
    requires
        forall|i: int| 0 <= i < items.len() ==> used.contains(key(#[trigger] items[i])),
        !used.contains(k),
    ensures
        keyed(items, key, k) is None,
{
    if exists|i: int| 0 <= i < items.len() && key(items[i]) == k {
        let i = choose|i: int| 0 <= i < items.len() && key(items[i]) == k;
        assert(used.contains(key(items[i])));
    }
}

/// Every live entry's key is in the used list exactly when every key with a
/// live entry is.
proof fn lemma_live_to_keyed<T, K>(items: Seq<T>, used: Seq<K>, key: spec_fn(T) -> K)
    requires
        forall|i: int| 0 <= i < items.len() ==> used.contains(key(#[trigger] items[i])),
    ensures
        forall|k: K| #[trigger] keyed(items, key, k) is Some ==> used.contains(k),
{
    assert forall|k: K| #[trigger] keyed(items, key, k) is Some implies used.contains(k) by {
        let i = choose|i: int| 0 <= i < items.len() && key(items[i]) == k;
        assert(used.contains(key(items[i])));
    }
}

proof fn lemma_keyed_to_live<T, K>(items: Seq<T>, used: Seq<K>, key: spec_fn(T) -> K)
    requires
        forall|k: K| #[trigger] keyed(items, key, k) is Some ==> used.contains(k),
    ensures
        forall|i: int| 0 <= i < items.len() ==> used.contains(key(#[trigger] items[i])),
{
    assert forall|i: int| 0 <= i < items.len() implies used.contains(key(#[trigger] items[i])) by {
        assert(keyed(items, key, key(items[i])) is Some);
    }
}

impl ResourceLedger {
    /// The ledger after an admitted transition: planned buckets written,
    /// the entry edit made, the transition recorded, one generation on.
    fn commit(
        ledger: ResourceLedger,
        plan: &Vec<PlannedBucket>,
        edit: EntryEdit,
        transition: ResourceLedgerTransition,
        outcome: ApplyOutcome,
        Ghost(changes): Ghost<Seq<ChangeSlot>>,
    ) -> (next: ResourceLedger)
        requires
            distinct_changes(changes),
            plan_fits(ledger.buckets@, plan@, changes),
            edit_matches(ledger, transition, edit),
            ledger.applied_of(transition.header.transition_id) is None,
            ledger.generation < u64::MAX,
        ensures
            next.spec_identity() == ledger.spec_identity(),
            next.spec_generation() == ledger.spec_generation() + 1,
            forall|p: QuotaPath|
                (#[trigger] next.bucket_of(p) is Some) == (ledger.bucket_of(p) is Some) && (ledger.bucket_of(
                    p,
                ) is Some ==> bucket_moved(
                    ledger.bucket_of(p)->0,
                    next.bucket_of(p)->0,
                    change_at(changes, p),
                )),
            entries_updated(ledger, next, transition),
            next.applied_of(transition.header.transition_id) == Some((transition, outcome)),
            forall|id: TransitionId|
                id != transition.header.transition_id ==> #[trigger] next.applied_of(id)
                    == ledger.applied_of(id),
    {
        proof {
            use_type_invariant(&ledger);
        }
        let ghost before = ledger;
        let identity = ledger.identity;
        let generation = ledger.generation + 1;
        let mut buckets = ledger.buckets;
        let mut reservations = ledger.reservations;
        let mut charges = ledger.charges;
        let mut used_reservation_ids = ledger.used_reservation_ids;
        let mut used_charge_ids = ledger.used_charge_ids;
        let mut applied_transitions = ledger.applied_transitions;
        install_plan(&mut buckets, plan, Ghost(changes));
        let ghost r0 = reservations@;
        let ghost c0 = charges@;
        let ghost ur0 = used_reservation_ids@;
        let ghost uc0 = used_charge_ids@;
        broadcast use vstd::seq_lib::lemma_seq_contains_after_push;

        match edit {
            EntryEdit::InsertReservation { entry } => {
                proof {
                    lemma_unused_not_live(r0, ur0, reservation_key(), entry.id);
                    lemma_keyed_push(r0, reservation_key(), entry);
                }
                reservations.push(entry);
                used_reservation_ids.push(entry.id);
            },
            EntryEdit::ChargeReservation { index, entry } => {
                proof {
                    lemma_keyed_remove(r0, reservation_key(), index as int);
                    lemma_unused_not_live(c0, uc0, charge_key(), entry.id);
                    lemma_keyed_push(c0, charge_key(), entry);
                }
                reservations.remove(index);
                charges.push(entry);
                used_charge_ids.push(entry.id);
            },
            EntryEdit::DropReservation { index } => {
                proof {
                    lemma_keyed_remove(r0, reservation_key(), index as int);
                }
                reservations.remove(index);
            },
            EntryEdit::DropCharge { index } => {
                proof {
                    lemma_keyed_remove(c0, charge_key(), index as int);
                }
                charges.remove(index);
            },
            EntryEdit::ReplaceReservation { index, entry } => {
                proof {
                    lemma_keyed_set(r0, reservation_key(), index as int, entry);
                }
                reservations.set(index, entry);
            },
            EntryEdit::ReplaceCharge { index, entry } => {
                proof {
                    lemma_keyed_set(c0, charge_key(), index as int, entry);
                }
                charges.set(index, entry);
            },
        }
        let ghost a0 = applied_transitions@;
        let record = AppliedTransition { transition, outcome };
        proof {
            lemma_keyed_push(a0, applied_key(), record);
        }
        applied_transitions.push(record);
        proof {
            lemma_live_to_keyed(r0, ur0, reservation_key());
            lemma_live_to_keyed(c0, uc0, charge_key());
            assert forall|k: ReservationId| keyed(reservations@, reservation_key(), k) is Some implies used_reservation_ids@.contains(k) by {
                if keyed(r0, reservation_key(), k) is Some {
                    assert(ur0.contains(k));
                }
            }
            assert forall|k: ChargeId| keyed(charges@, charge_key(), k) is Some implies used_charge_ids@.contains(k) by {
                if keyed(c0, charge_key(), k) is Some {
                    assert(uc0.contains(k));
                }
            }
            lemma_keyed_to_live(reservations@, used_reservation_ids@, reservation_key());
            lemma_keyed_to_live(charges@, used_charge_ids@, charge_key());
        }
        let next = ResourceLedger {
            identity,
            generation,
            buckets,
            reservations,
            charges,
            used_reservation_ids,
            used_charge_ids,
            applied_transitions,
        };
        next
    }
}

/// The answer to a transition whose identifier was already applied: a
/// changed body or a changed transition is refused; an exact retry replays
/// the recorded outcome.
pub open spec fn replay_answer(
    recorded: ResourceLedgerTransition,
    outcome: ApplyOutcome,
    transition: ResourceLedgerTransition,
) -> Result<ApplyOutcome, LedgerError> {
    if recorded.body_digest != transition.body_digest {
        Err(
            LedgerError::IdempotencyBodyDrift {
                transition_id: transition.header.transition_id,
                recorded: recorded.body_digest,
                supplied: transition.body_digest,
            },
        )
    } else if recorded != transition {
        Err(LedgerError::IdempotencySemanticDrift { transition_id: transition.header.transition_id })
    } else {
        Ok(ApplyOutcome { disposition: ApplyDisposition::Replayed, ..outcome })
    }
}

/// The first authority check a new transition fails, if any: the role,
/// then the rest of the identity, then the ledger generation, then room for
/// one more generation.
pub open spec fn header_fault(ledger: ResourceLedger, transition: ResourceLedgerTransition) -> Option<
    LedgerError,
> {
    let expected = transition.header.expected_ledger_identity;
    if expected.role != ledger.spec_identity().role {
        Some(
            LedgerError::WrongAuthorityRole {
                expected: ledger.spec_identity().role,
                actual: expected.role,
            },
        )
    } else if identity_mismatch(ledger.spec_identity(), expected) is Some {
        Some(
            LedgerError::WrongLedgerIdentity {
                mismatch: identity_mismatch(ledger.spec_identity(), expected)->0,
            },
        )
    } else if transition.header.expected_ledger_generation != ledger.spec_generation() {
        Some(
            LedgerError::StaleLedgerGeneration {
                expected: ledger.spec_generation(),
                actual: transition.header.expected_ledger_generation,
            },
        )
    } else if ledger.spec_generation() == u64::MAX {
        Some(LedgerError::LedgerGenerationOverflow)
    } else {
        None
    }
}

/// What an applied transition does to the buckets: every bucket moves by
/// the operation's net change at its path, and no bucket appears or
/// disappears.
pub open spec fn buckets_moved(
    before: ResourceLedger,
    after: ResourceLedger,
    transition: ResourceLedgerTransition,
) -> bool {
    forall|p: QuotaPath|
        (#[trigger] after.bucket_of(p) is Some) == (before.bucket_of(p) is Some) && (before.bucket_of(
            p,
        ) is Some ==> bucket_moved(
            before.bucket_of(p)->0,
            after.bucket_of(p)->0,
            operation_change(before, transition, p),
        ))
}

impl ResourceLedger {
    /// Applies one transition atomically: a refused transition leaves the
    /// ledger unchanged; an exact retry of an applied transition replays
    /// its recorded outcome. When buckets refuse the moves, the answer is
    /// the refusal of the first of them in path order.
    pub fn apply(&mut self, transition: &ResourceLedgerTransition) -> (result: Result<
        ApplyOutcome,
        LedgerError,
    >)
        ensures
            result is Err ==> *final(self) == *old(self),
            old(self).applied_of(transition.header.transition_id) is Some ==> {
                let recorded = old(self).applied_of(transition.header.transition_id)->0;
                &&& result == replay_answer(recorded.0, recorded.1, *transition)
                &&& *final(self) == *old(self)
            },
            old(self).applied_of(transition.header.transition_id) is None ==> {
                &&& header_fault(*old(self), *transition) is Some ==> result == Err::<
                    ApplyOutcome,
                    LedgerError,
                >(header_fault(*old(self), *transition)->0)
                &&& header_fault(*old(self), *transition) is None && operation_fault(
                    *old(self),
                    *transition,
                ) is Some ==> result == Err::<ApplyOutcome, LedgerError>(
                    operation_fault(*old(self), *transition)->0,
                )
                &&& header_fault(*old(self), *transition) is None && operation_fault(
                    *old(self),
                    *transition,
                ) is None ==> {
                    &&& result is Ok ==> buckets_admit(*old(self), *transition)
                    &&& result matches Err(error) ==> error is BucketPlanAllocationFailed || (!buckets_admit(
                        *old(self),
                        *transition,
                    ) && exists|p: QuotaPath|
                        #[trigger] operation_touches(*old(self), *transition, p) && planning_refusal(
                            old(self).bucket_of(p),
                            p,
                            operation_change(*old(self), *transition, p),
                            error,
                        ) && forall|q: QuotaPath|
                            #[trigger] operation_touches(*old(self), *transition, q) && path_before(q@, p@)
                                ==> old(self).bucket_of(q) is Some && bucket_admits(
                                old(self).bucket_of(q)->0,
                                operation_change(*old(self), *transition, q),
                            ))
                }
                &&& result matches Ok(outcome) ==> {
                    &&& header_fault(*old(self), *transition) is None
                    &&& operation_fault(*old(self), *transition) is None
                    &&& outcome == (ApplyOutcome {
                        ledger_generation: (old(self).spec_generation() + 1) as u64,
                        operation: operation_kind(transition.operation),
                        disposition: ApplyDisposition::Applied,
                    })
                    &&& final(self).spec_identity() == old(self).spec_identity()
                    &&& final(self).spec_generation() == old(self).spec_generation() + 1
                    &&& final(self).applied_of(transition.header.transition_id) == Some(
                        (*transition, outcome),
                    )
                    &&& forall|id: TransitionId|
                        id != transition.header.transition_id ==> #[trigger] final(self).applied_of(id)
                            == old(self).applied_of(id)
                    &&& buckets_moved(*old(self), *final(self), *transition)
                    &&& entries_updated(*old(self), *final(self), *transition)
                }
            },
    {
        proof {
            use_type_invariant(&*self);
        }
        let transition_id = transition.header.transition_id;
        if let Some(found) = self.find_applied(transition_id) {
            let recorded = self.applied_transitions[found];
            if !same_bytes32(&recorded.transition.body_digest, &transition.body_digest) {
                return Err(
                    LedgerError::IdempotencyBodyDrift {
                        transition_id,
                        recorded: recorded.transition.body_digest,
                        supplied: transition.body_digest,
                    },
                );
            }
            if !same_transition(&recorded.transition, transition) {
                return Err(LedgerError::IdempotencySemanticDrift { transition_id });
            }
            return Ok(
                ApplyOutcome {
                    ledger_generation: recorded.outcome.ledger_generation,
                    operation: recorded.outcome.operation,
                    disposition: ApplyDisposition::Replayed,
                },
            );
        }
        let expected = transition.header.expected_ledger_identity;
        if expected.role != self.identity.role {
            return Err(
                LedgerError::WrongAuthorityRole { expected: self.identity.role, actual: expected.role },
            );
        }
        if let Some(mismatch) = ledger_identity_mismatch(self.identity, expected) {
            return Err(LedgerError::WrongLedgerIdentity { mismatch });
        }
        if transition.header.expected_ledger_generation != self.generation {
            return Err(
                LedgerError::StaleLedgerGeneration {
                    expected: self.generation,
                    actual: transition.header.expected_ledger_generation,
                },
            );
        }
        if self.generation == u64::MAX {
            return Err(LedgerError::LedgerGenerationOverflow);
        }
        let next_generation = self.generation + 1;
        let (changes, edit) = self.prepare(transition)?;
        let plan = match self.plan_bucket_changes(&changes) {
            Ok(plan) => plan,
            Err(error) => {
                proof {
                    if !(error is BucketPlanAllocationFailed) {
                        let k = choose|k: int|
                            0 <= k < changes@.len() && #[trigger] self.refuses_change(changes@[k])
                                && (forall|j: int| 0 <= j < k ==> !self.refuses_change(changes@[j]))
                                && planning_refusal(
                                self.bucket_of(changes@[k].path),
                                changes@[k].path,
                                changes@[k].change,
                                error,
                            );
                        let p = changes@[k].path;
                        lemma_change_at(changes@, p, k);
                        assert(has_change(changes@, p));
                        assert(operation_touches(*self, *transition, p));
                        assert(change_at(changes@, p) == operation_change(*self, *transition, p));
                        assert(planning_refusal(self.bucket_of(p), p, operation_change(*self, *transition, p), error));
                        assert forall|q: QuotaPath|
                            #[trigger] operation_touches(*self, *transition, q) && path_before(q@, p@)
                                implies self.bucket_of(q) is Some && bucket_admits(
                                self.bucket_of(q)->0,
                                operation_change(*self, *transition, q),
                            ) by {
                            assert(has_change(changes@, q));
                            let j = choose|j: int| 0 <= j < changes@.len() && changes@[j].path == q;
                            lemma_change_at(changes@, q, j);
                            lemma_path_total(q@, p@);
                            if j > k {
                                assert(path_before(changes@[k].path@, changes@[j].path@));
                            }
                            assert(j < k);
                            assert(!self.refuses_change(changes@[j]));
                        }
                    }
                }
                return Err(error);
            },
        };
        proof {
            assert forall|p: QuotaPath| #[trigger] operation_touches(*self, *transition, p) implies self.bucket_of(p) is Some
                && bucket_admits(self.bucket_of(p)->0, operation_change(*self, *transition, p)) by {
                assert(has_change(changes@, p));
                let k = choose|k: int| 0 <= k < changes@.len() && changes@[k].path == p;
                lemma_change_at(changes@, p, k);
                let at = plan@[k].index as int;
                lemma_moved_valid_iff_admits(self.buckets@[at].state, plan@[k].state, changes@[k].change);
            }
        }
        let outcome = ApplyOutcome {
            ledger_generation: next_generation,
            operation: match transition.operation {
                LedgerOperation::Reserve { .. } => AppliedOperation::Reserved,
                LedgerOperation::Charge { .. } => AppliedOperation::Charged,
                LedgerOperation::Release { .. } => AppliedOperation::Released,
                LedgerOperation::Expire { .. } => AppliedOperation::Expired,
                LedgerOperation::Transfer { .. } => AppliedOperation::Transferred,
                LedgerOperation::Adjust { .. } => AppliedOperation::Adjusted,
            },
            disposition: ApplyDisposition::Applied,
        };
        let ghost before = *self;
        let mut taken = ResourceLedger {
            identity: self.identity,
            generation: 0,
            buckets: Vec::new(),
            reservations: Vec::new(),
            charges: Vec::new(),
            used_reservation_ids: Vec::new(),
            used_charge_ids: Vec::new(),
            applied_transitions: Vec::new(),
        };
        std::mem::swap(self, &mut taken);
        *self = Self::commit(taken, &plan, edit, *transition, outcome, Ghost(changes@));
        proof {
            assert forall|p: QuotaPath| #[trigger] change_at(changes@, p) == operation_change(
                before,
                *transition,
                p,
            ) by {}
        }
        Ok(outcome)
    }
}


/// Exact retry idempotence: once a transition is recorded with its outcome,
/// resubmitting the identical transition answers that outcome, marked as a
/// replay.
pub proof fn lemma_exact_retry_replays(
    ledger: ResourceLedger,
    transition: ResourceLedgerTransition,
    outcome: ApplyOutcome,
)
    requires
        ledger.applied_of(transition.header.transition_id) == Some((transition, outcome)),
    ensures
        ({
            let recorded = ledger.applied_of(transition.header.transition_id)->0;
            replay_answer(recorded.0, recorded.1, transition) == Ok::<ApplyOutcome, LedgerError>(
                ApplyOutcome {
                    ledger_generation: outcome.ledger_generation,
                    operation: outcome.operation,
                    disposition: ApplyDisposition::Replayed,
                },
            )
        }),
{
}

/// A retry that reuses a recorded transition identifier with a different
/// body digest is refused as body drift, naming both digests.
pub proof fn lemma_drifted_body_is_refused(
    ledger: ResourceLedger,
    recorded: ResourceLedgerTransition,
    outcome: ApplyOutcome,
    retry: ResourceLedgerTransition,
)
    requires
        ledger.applied_of(retry.header.transition_id) == Some((recorded, outcome)),
        recorded.body_digest != retry.body_digest,
    ensures
        ({
            let found = ledger.applied_of(retry.header.transition_id)->0;
            replay_answer(found.0, found.1, retry) == Err::<ApplyOutcome, LedgerError>(
                LedgerError::IdempotencyBodyDrift {
                    transition_id: retry.header.transition_id,
                    recorded: recorded.body_digest,
                    supplied: retry.body_digest,
                },
            )
        }),
{
}

/// Identifiers once used stay used: no applied transition retires a
/// reservation or charge identifier, so none can be issued twice.
pub proof fn lemma_used_ids_stay_used(
    before: ResourceLedger,
    after: ResourceLedger,
    transition: ResourceLedgerTransition,
)
    requires
        entries_updated(before, after, transition),
    ensures
        forall|id: ReservationId| #[trigger] before.reservation_id_used(id) ==> after.reservation_id_used(id),
        forall|id: ChargeId| #[trigger] before.charge_id_used(id) ==> after.charge_id_used(id),
{
}

proof fn lemma_vector_round_trip(x: DurableChargeVector, v: DurableChargeVector)
    requires
        x.sum_fits(v),
    ensures
        vector_minus(vector_plus(x, v), v) == x,
        v.spec_fits_within(vector_plus(x, v)),
{
    assert(x.spec_axis(durable_axis_at(0)) + v.spec_axis(durable_axis_at(0)) <= u64::MAX);
    assert(x.spec_axis(durable_axis_at(1)) + v.spec_axis(durable_axis_at(1)) <= u64::MAX);
    assert(x.spec_axis(durable_axis_at(2)) + v.spec_axis(durable_axis_at(2)) <= u64::MAX);
    assert(x.spec_axis(durable_axis_at(3)) + v.spec_axis(durable_axis_at(3)) <= u64::MAX);
    assert(x.spec_axis(durable_axis_at(4)) + v.spec_axis(durable_axis_at(4)) <= u64::MAX);
    assert(x.spec_axis(durable_axis_at(5)) + v.spec_axis(durable_axis_at(5)) <= u64::MAX);
}

proof fn lemma_vector_zero_identity(x: DurableChargeVector)
    ensures
        vector_plus(vector_minus(x, DurableChargeVector::spec_zero()), DurableChargeVector::spec_zero()) == x,
        vector_plus(x, DurableChargeVector::spec_zero()) == x,
        vector_minus(x, DurableChargeVector::spec_zero()) == x,
{
}

proof fn lemma_vector_net_zero(x: DurableChargeVector, v: DurableChargeVector)
    requires
        v.spec_fits_within(x),
    ensures
        vector_plus(vector_minus(x, v), v) == x,
{
    assert(v.spec_axis(durable_axis_at(0)) <= x.spec_axis(durable_axis_at(0)));
    assert(v.spec_axis(durable_axis_at(1)) <= x.spec_axis(durable_axis_at(1)));
    assert(v.spec_axis(durable_axis_at(2)) <= x.spec_axis(durable_axis_at(2)));
    assert(v.spec_axis(durable_axis_at(3)) <= x.spec_axis(durable_axis_at(3)));
    assert(v.spec_axis(durable_axis_at(4)) <= x.spec_axis(durable_axis_at(4)));
    assert(v.spec_axis(durable_axis_at(5)) <= x.spec_axis(durable_axis_at(5)));
}

/// A bucket whose every lane moves by nothing keeps its state.
proof fn lemma_unchanged_bucket(before: BucketState, after: BucketState)
    requires
        bucket_moved(before, after, no_change()),
    ensures
        after == before,
{
    lemma_vector_zero_identity(before.ordinary_reserved);
    lemma_vector_zero_identity(before.maintenance_reserved);
    lemma_vector_zero_identity(before.committed);
}

/// Releasing a reservation right after reserving it puts every bucket back
/// as it was: ancestor aggregation adds and removes the same vector along
/// the same path, in the same lane.
pub proof fn lemma_release_undoes_reserve(
    first: ResourceLedger,
    reserved: ResourceLedger,
    released: ResourceLedger,
    reserve: ResourceLedgerTransition,
    release: ResourceLedgerTransition,
)
    requires
        reserve.operation is Reserve,
        buckets_moved(first, reserved, reserve),
        entries_updated(first, reserved, reserve),
        release.operation is Release,
        release.operation->Release_subject == LedgerSubject::Reservation(reserve.operation->Reserve_reservation_id),
        buckets_moved(reserved, released, release),
    ensures
        forall|p: QuotaPath| #[trigger] released.bucket_of(p) == first.bucket_of(p),
{
    let rid = reserve.operation->Reserve_reservation_id;
    let entry = reserved.reservation_of(rid)->0;
    let class = reserve.header.resource_class;
    let v = reserve.operation->Reserve_vector;
    assert(subject_fields(reserved, release.operation->Release_subject) == Some(
        (entry.spec_owner(), entry.spec_path(), entry.spec_class(), entry.spec_generation(), entry.spec_vector(), true),
    ));
    assert forall|p: QuotaPath| #[trigger] released.bucket_of(p) == first.bucket_of(p) by {
        assert(reserved.bucket_of(p) is Some == first.bucket_of(p) is Some);
        assert(released.bucket_of(p) is Some == reserved.bucket_of(p) is Some);
        if first.bucket_of(p) is Some {
            let s0 = first.bucket_of(p)->0;
            let s1 = reserved.bucket_of(p)->0;
            let s2 = released.bucket_of(p)->0;
            if ancestor_of(p, reserve.header.quota_path) {
                assert(bucket_moved(s0, s1, lane_change(no_change(), class, true, v)));
                assert(bucket_moved(s1, s2, lane_change(no_change(), class, false, v)));
                lemma_vector_zero_identity(s0.ordinary_reserved);
                lemma_vector_zero_identity(s0.maintenance_reserved);
                lemma_vector_zero_identity(s0.committed);
                lemma_vector_zero_identity(s1.ordinary_reserved);
                lemma_vector_zero_identity(s1.maintenance_reserved);
                lemma_vector_zero_identity(s1.committed);
                lemma_vector_zero_identity(v);
                match class {
                    ResourceClass::Ordinary => {
                        lemma_vector_round_trip(s0.ordinary_reserved, v);
                    },
                    ResourceClass::RegisteredMaintenance => {
                        lemma_vector_round_trip(s0.maintenance_reserved, v);
                    },
                }
                assert(s2 == s0);
            } else {
                lemma_unchanged_bucket(s0, s1);
                lemma_unchanged_bucket(s1, s2);
            }
        }
    }
}

/// A transfer nets out at every bucket that is an ancestor of both its
/// source and its target path: the same vector leaves and re-enters the
/// same lane, so the bucket keeps its state.
pub proof fn lemma_transfer_nets_shared_ancestors(
    before: ResourceLedger,
    after: ResourceLedger,
    transfer: ResourceLedgerTransition,
    p: QuotaPath,
)
    requires
        transfer.operation is Transfer,
        subject_fields(before, transfer.operation->Transfer_subject) is Some,
        buckets_moved(before, after, transfer),
        ancestor_of(p, (subject_fields(before, transfer.operation->Transfer_subject)->0).1),
        ancestor_of(p, transfer.operation->Transfer_target_path),
    ensures
        after.bucket_of(p) == before.bucket_of(p),
{
    let f = subject_fields(before, transfer.operation->Transfer_subject)->0;
    assert(after.bucket_of(p) is Some == before.bucket_of(p) is Some);
    if before.bucket_of(p) is Some {
        let s0 = before.bucket_of(p)->0;
        let s1 = after.bucket_of(p)->0;
        assert(bucket_moved(s0, s1, entry_change(entry_change(no_change(), f.5, f.2, false, f.4), f.5, f.2, true, f.4)));
        lemma_vector_zero_identity(s0.ordinary_reserved);
        lemma_vector_zero_identity(s0.maintenance_reserved);
        lemma_vector_zero_identity(s0.committed);
        lemma_vector_zero_identity(f.4);
        if f.5 {
            match f.2 {
                ResourceClass::Ordinary => lemma_vector_net_zero(s0.ordinary_reserved, f.4),
                ResourceClass::RegisteredMaintenance => lemma_vector_net_zero(s0.maintenance_reserved, f.4),
            }
        } else {
            lemma_vector_net_zero(s0.committed, f.4);
        }
        assert(s1 == s0);
    }
}

/// The `Debug` name of an axis.
pub open spec fn axis_debug_name(axis: DurableChargeAxis) -> Seq<char> {
    match axis {
        DurableChargeAxis::CanonicalDurableBytes => "CanonicalDurableBytes"@,
        DurableChargeAxis::RetainedHistoryBytes => "RetainedHistoryBytes"@,
        DurableChargeAxis::BranchCount => "BranchCount"@,
        DurableChargeAxis::IndexCount => "IndexCount"@,
        DurableChargeAxis::ViewCount => "ViewCount"@,
        DurableChargeAxis::SubscriptionCount => "SubscriptionCount"@,
    }
}

fn push_axis_debug(out: &mut String, axis: DurableChargeAxis)
    ensures
        final(out)@ == old(out)@ + axis_debug_name(axis),
{
    match axis {
        DurableChargeAxis::CanonicalDurableBytes => push_text(out, "CanonicalDurableBytes"),
        DurableChargeAxis::RetainedHistoryBytes => push_text(out, "RetainedHistoryBytes"),
        DurableChargeAxis::BranchCount => push_text(out, "BranchCount"),
        DurableChargeAxis::IndexCount => push_text(out, "IndexCount"),
        DurableChargeAxis::ViewCount => push_text(out, "ViewCount"),
        DurableChargeAxis::SubscriptionCount => push_text(out, "SubscriptionCount"),
    }
}

/// Diagnostic text of a vector failure.
pub open spec fn vector_error_text(error: DurableVectorError) -> Seq<char> {
    match error {
        DurableVectorError::Overflow { axis, lhs, rhs } => durable_axis_name(axis) + " overflow: "@
            + decimal(lhs as nat) + " + "@ + decimal(rhs as nat),
        DurableVectorError::Underflow { axis, held, released } => durable_axis_name(axis)
            + " underflow: held "@ + decimal(held as nat) + ", released "@ + decimal(released as nat),
    }
}

impl DurableVectorError {
    /// Human-readable diagnostic.
    pub fn message(&self) -> (text: String)
        ensures
            text@ == vector_error_text(*self),
    {
        match *self {
            DurableVectorError::Overflow { axis, lhs, rhs } => {
                let mut out = axis.name().to_owned();
                push_text(&mut out, " overflow: ");
                push_decimal(&mut out, lhs);
                push_text(&mut out, " + ");
                push_decimal(&mut out, rhs);
                out
            },
            DurableVectorError::Underflow { axis, held, released } => {
                let mut out = axis.name().to_owned();
                push_text(&mut out, " underflow: held ");
                push_decimal(&mut out, held);
                push_text(&mut out, ", released ");
                push_decimal(&mut out, released);
                out
            },
        }
    }
}

/// Diagnostic text of a malformed path: the error as `Debug` prints it.
pub open spec fn quota_path_error_text(error: QuotaPathError) -> Seq<char> {
    "invalid quota path: "@ + match error {
        QuotaPathError::Empty => "Empty"@,
        QuotaPathError::TooDeep { depth, maximum } => "TooDeep { depth: "@ + decimal(depth as nat)
            + ", maximum: "@ + decimal(maximum as nat) + " }"@,
        QuotaPathError::MissingDatabaseRoot { first_rank } => "MissingDatabaseRoot { first_rank: "@
            + decimal(first_rank as nat) + " }"@,
        QuotaPathError::NonCanonicalLevel { index, expected_rank, actual_rank } =>
            "NonCanonicalLevel { index: "@ + decimal(index as nat) + ", expected_rank: "@ + decimal(
            expected_rank as nat,
        ) + ", actual_rank: "@ + decimal(actual_rank as nat) + " }"@,
    }
}

impl QuotaPathError {
    /// Human-readable diagnostic.
    pub fn message(&self) -> (text: String)
        ensures
            text@ == quota_path_error_text(*self),
    {
        let mut out = "invalid quota path: ".to_owned();
        let ghost start = out@;
        match *self {
            QuotaPathError::Empty => push_text(&mut out, "Empty"),
            QuotaPathError::TooDeep { depth, maximum } => {
                push_text(&mut out, "TooDeep { depth: ");
                push_decimal(&mut out, depth as u64);
                push_text(&mut out, ", maximum: ");
                push_decimal(&mut out, maximum as u64);
                push_text(&mut out, " }");
            },
            QuotaPathError::MissingDatabaseRoot { first_rank } => {
                push_text(&mut out, "MissingDatabaseRoot { first_rank: ");
                push_decimal(&mut out, first_rank as u64);
                push_text(&mut out, " }");
            },
            QuotaPathError::NonCanonicalLevel { index, expected_rank, actual_rank } => {
                push_text(&mut out, "NonCanonicalLevel { index: ");
                push_decimal(&mut out, index as u64);
                push_text(&mut out, ", expected_rank: ");
                push_decimal(&mut out, expected_rank as u64);
                push_text(&mut out, ", actual_rank: ");
                push_decimal(&mut out, actual_rank as u64);
                push_text(&mut out, " }");
            },
        }
        proof {
            assert(out@ =~= quota_path_error_text(*self));
        }
        out
    }
}

/// The `Debug` rendering of a variant with an axis and two named integers.
pub open spec fn axis_record_text(
    variant: Seq<char>,
    axis: DurableChargeAxis,
    first_name: Seq<char>,
    first: u64,
    second_name: Seq<char>,
    second: u64,
) -> Seq<char> {
    variant + " { axis: "@ + axis_debug_name(axis) + ", "@ + first_name + ": "@ + decimal(first as nat)
        + ", "@ + second_name + ": "@ + decimal(second as nat) + " }"@
}

fn push_axis_record(
    out: &mut String,
    variant: &str,
    axis: DurableChargeAxis,
    first_name: &str,
    first: u64,
    second_name: &str,
    second: u64,
)
    ensures
        final(out)@ == old(out)@ + axis_record_text(variant@, axis, first_name@, first, second_name@, second),
{
    push_text(out, variant);
    push_text(out, " { axis: ");
    push_axis_debug(out, axis);
    push_text(out, ", ");
    push_text(out, first_name);
    push_text(out, ": ");
    push_decimal(out, first);
    push_text(out, ", ");
    push_text(out, second_name);
    push_text(out, ": ");
    push_decimal(out, second);
    push_text(out, " }");
    proof {
        assert(out@ =~= old(out)@ + axis_record_text(variant@, axis, first_name@, first, second_name@, second));
    }
}

/// Diagnostic text of a bucket that breaks a capacity law: the error as
/// `Debug` prints it.
pub open spec fn bucket_state_error_text(error: BucketStateError) -> Seq<char> {
    "invalid resource bucket: "@ + match error {
        BucketStateError::ReserveExceedsHardLimit { axis, reserve, hard_limit } => axis_record_text(
            "ReserveExceedsHardLimit"@,
            axis,
            "reserve"@,
            reserve,
            "hard_limit"@,
            hard_limit,
        ),
        BucketStateError::UsageOverflow { axis, first, second } => axis_record_text(
            "UsageOverflow"@,
            axis,
            "first"@,
            first,
            "second"@,
            second,
        ),
        BucketStateError::OrdinaryCapacityExceeded { axis, usage, limit } => axis_record_text(
            "OrdinaryCapacityExceeded"@,
            axis,
            "usage"@,
            usage,
            "limit"@,
            limit,
        ),
        BucketStateError::MaintenanceReserveExceeded { axis, usage, reserve } => axis_record_text(
            "MaintenanceReserveExceeded"@,
            axis,
            "usage"@,
            usage,
            "reserve"@,
            reserve,
        ),
        BucketStateError::HardLimitExceeded { axis, usage, hard_limit } => axis_record_text(
            "HardLimitExceeded"@,
            axis,
            "usage"@,
            usage,
            "hard_limit"@,
            hard_limit,
        ),
    }
}

impl BucketStateError {
    /// Human-readable diagnostic.
    pub fn message(&self) -> (text: String)
        ensures
            text@ == bucket_state_error_text(*self),
    {
        let mut out = "invalid resource bucket: ".to_owned();
        match *self {
            BucketStateError::ReserveExceedsHardLimit { axis, reserve, hard_limit } => push_axis_record(
                &mut out,
                "ReserveExceedsHardLimit",
                axis,
                "reserve",
                reserve,
                "hard_limit",
                hard_limit,
            ),
            BucketStateError::UsageOverflow { axis, first, second } => push_axis_record(
                &mut out,
                "UsageOverflow",
                axis,
                "first",
                first,
                "second",
                second,
            ),
            BucketStateError::OrdinaryCapacityExceeded { axis, usage, limit } => push_axis_record(
                &mut out,
                "OrdinaryCapacityExceeded",
                axis,
                "usage",
                usage,
                "limit",
                limit,
            ),
            BucketStateError::MaintenanceReserveExceeded { axis, usage, reserve } => push_axis_record(
                &mut out,
                "MaintenanceReserveExceeded",
                axis,
                "usage",
                usage,
                "reserve",
                reserve,
            ),
            BucketStateError::HardLimitExceeded { axis, usage, hard_limit } => push_axis_record(
                &mut out,
                "HardLimitExceeded",
                axis,
                "usage",
                usage,
                "hard_limit",
                hard_limit,
            ),
        }
        out
    }
}

/// The `Debug` rendering of a `TransitionId`.
pub open spec fn transition_id_debug(value: TransitionId) -> Seq<char> {
    "TransitionId("@ + "["@ + byte_list(value.0@) + "]"@ + ")"@
}

fn push_transition_id_debug(out: &mut String, value: TransitionId)
    ensures
        final(out)@ == old(out)@ + transition_id_debug(value),
{
    push_text(out, "TransitionId(");
    push_byte_list(out, value.0.as_slice());
    push_text(out, ")");
    proof {
        assert(out@ =~= old(out)@ + transition_id_debug(value));
    }
}
/// The `Debug` rendering of a `ReservationId`.
pub open spec fn reservation_id_debug(value: ReservationId) -> Seq<char> {
    "ReservationId("@ + "["@ + byte_list(value.0@) + "]"@ + ")"@
}

fn push_reservation_id_debug(out: &mut String, value: ReservationId)
    ensures
        final(out)@ == old(out)@ + reservation_id_debug(value),
{
    push_text(out, "ReservationId(");
    push_byte_list(out, value.0.as_slice());
    push_text(out, ")");
    proof {
        assert(out@ =~= old(out)@ + reservation_id_debug(value));
    }
}
/// The `Debug` rendering of a `ChargeId`.
pub open spec fn charge_id_debug(value: ChargeId) -> Seq<char> {
    "ChargeId("@ + "["@ + byte_list(value.0@) + "]"@ + ")"@
}

fn push_charge_id_debug(out: &mut String, value: ChargeId)
    ensures
        final(out)@ == old(out)@ + charge_id_debug(value),
{
    push_text(out, "ChargeId(");
    push_byte_list(out, value.0.as_slice());
    push_text(out, ")");
    proof {
        assert(out@ =~= old(out)@ + charge_id_debug(value));
    }
}
/// The `Debug` rendering of a `StableSubjectKey`.
pub open spec fn stable_subject_key_debug(value: StableSubjectKey) -> Seq<char> {
    "StableSubjectKey("@ + "["@ + byte_list(value.0@) + "]"@ + ")"@
}

fn push_stable_subject_key_debug(out: &mut String, value: StableSubjectKey)
    ensures
        final(out)@ == old(out)@ + stable_subject_key_debug(value),
{
    push_text(out, "StableSubjectKey(");
    push_byte_list(out, value.0.as_slice());
    push_text(out, ")");
    proof {
        assert(out@ =~= old(out)@ + stable_subject_key_debug(value));
    }
}
/// The `Debug` rendering of a `DatabaseId`.
pub open spec fn database_id_debug(value: DatabaseId) -> Seq<char> {
    "DatabaseId("@ + "["@ + byte_list(value.0@) + "]"@ + ")"@
}

fn push_database_id_debug(out: &mut String, value: DatabaseId)
    ensures
        final(out)@ == old(out)@ + database_id_debug(value),
{
    push_text(out, "DatabaseId(");
    push_byte_list(out, value.0.as_slice());
    push_text(out, ")");
    proof {
        assert(out@ =~= old(out)@ + database_id_debug(value));
    }
}
/// The `Debug` rendering of a `DatabaseSecurityNamespaceId`.
pub open spec fn database_security_namespace_id_debug(value: DatabaseSecurityNamespaceId) -> Seq<char> {
    "DatabaseSecurityNamespaceId("@ + "["@ + byte_list(value.0@) + "]"@ + ")"@
}

fn push_database_security_namespace_id_debug(out: &mut String, value: DatabaseSecurityNamespaceId)
    ensures
        final(out)@ == old(out)@ + database_security_namespace_id_debug(value),
{
    push_text(out, "DatabaseSecurityNamespaceId(");
    push_byte_list(out, value.0.as_slice());
    push_text(out, ")");
    proof {
        assert(out@ =~= old(out)@ + database_security_namespace_id_debug(value));
    }
}
/// The `Debug` rendering of a `ObjectId`.
pub open spec fn object_id_debug(value: ObjectId) -> Seq<char> {
    "ObjectId("@ + "["@ + byte_list(value.0@) + "]"@ + ")"@
}

fn push_object_id_debug(out: &mut String, value: ObjectId)
    ensures
        final(out)@ == old(out)@ + object_id_debug(value),
{
    push_text(out, "ObjectId(");
    push_byte_list(out, value.0.as_slice());
    push_text(out, ")");
    proof {
        assert(out@ =~= old(out)@ + object_id_debug(value));
    }
}
/// The `Debug` rendering of a `GraphId`.
pub open spec fn graph_id_debug(value: GraphId) -> Seq<char> {
    "GraphId("@ + decimal(value.0 as nat) + ")"@
}

fn push_graph_id_debug(out: &mut String, value: GraphId)
    ensures
        final(out)@ == old(out)@ + graph_id_debug(value),
{
    push_text(out, "GraphId(");
    push_decimal(out, value.0 as u64);
    push_text(out, ")");
    proof {
        assert(out@ =~= old(out)@ + graph_id_debug(value));
    }
}
/// The `Debug` rendering of a `BranchId`.
pub open spec fn branch_id_debug(value: BranchId) -> Seq<char> {
    "BranchId("@ + decimal(value.0 as nat) + ")"@
}

fn push_branch_id_debug(out: &mut String, value: BranchId)
    ensures
        final(out)@ == old(out)@ + branch_id_debug(value),
{
    push_text(out, "BranchId(");
    push_decimal128(out, value.0);
    push_text(out, ")");
    proof {
        assert(out@ =~= old(out)@ + branch_id_debug(value));
    }
}
/// The `Debug` rendering of a path segment.
pub open spec fn segment_debug(value: QuotaSegment) -> Seq<char> {
    match value {
        QuotaSegment::Database(id) => "Database("@ + database_id_debug(id) + ")"@,
        QuotaSegment::Tenant(tenant) => "Tenant("@ + decimal(tenant as nat) + ")"@,
        QuotaSegment::Graph(graph) => "Graph("@ + graph_id_debug(graph) + ")"@,
        QuotaSegment::Branch(branch) => "Branch("@ + branch_id_debug(branch) + ")"@,
        QuotaSegment::Feature(feature) => "Feature("@ + decimal(feature as nat) + ")"@,
    }
}

fn push_segment_debug(out: &mut String, value: QuotaSegment)
    ensures
        final(out)@ == old(out)@ + segment_debug(value),
{
    match value {
        QuotaSegment::Database(id) => {
            push_text(out, "Database(");
            push_database_id_debug(out, id);
            push_text(out, ")");
        },
        QuotaSegment::Tenant(tenant) => {
            push_text(out, "Tenant(");
            push_decimal128(out, tenant);
            push_text(out, ")");
        },
        QuotaSegment::Graph(graph) => {
            push_text(out, "Graph(");
            push_graph_id_debug(out, graph);
            push_text(out, ")");
        },
        QuotaSegment::Branch(branch) => {
            push_text(out, "Branch(");
            push_branch_id_debug(out, branch);
            push_text(out, ")");
        },
        QuotaSegment::Feature(feature) => {
            push_text(out, "Feature(");
            push_decimal128(out, feature);
            push_text(out, ")");
        },
    }
    proof {
        assert(out@ =~= old(out)@ + segment_debug(value));
    }
}
/// The `Debug` renderings of segments, separated by `", "`.
pub open spec fn segment_list(segments: Seq<QuotaSegment>) -> Seq<char>
    decreases segments.len(),
{
    if segments.len() == 0 {
        Seq::empty()
    } else if segments.len() == 1 {
        segment_debug(segments[0])
    } else {
        segment_list(segments.drop_last()) + ", "@ + segment_debug(segments.last())
    }
}

/// The `Debug` rendering of a path: its segments in a list.
pub open spec fn path_debug(path: QuotaPath) -> Seq<char> {
    "QuotaPath(["@ + segment_list(path@) + "])"@
}

fn push_path_debug(out: &mut String, path: QuotaPath)
    ensures
        final(out)@ == old(out)@ + path_debug(path),
{
    let segments = path.segments();
    push_text(out, "QuotaPath([");
    let ghost start = out@;
    let mut index: usize = 0;
    while index < segments.len()
        invariant
            index <= segments@.len(),
            out@ == start + segment_list(segments@.take(index as int)),
        decreases segments@.len() - index,
    {
        if index > 0 {
            push_text(out, ", ");
        }
        push_segment_debug(out, segments[index]);
        proof {
            let next = segments@.take(index + 1);
            assert(next.drop_last() =~= segments@.take(index as int));
            assert(next.last() == segments@[index as int]);
            if index == 0 {
                assert(segments@.take(0) =~= Seq::<QuotaSegment>::empty());
            }
            assert(out@ =~= start + segment_list(next));
        }
        index = index + 1;
    }
    push_text(out, "])");
    proof {
        assert(segments@.take(segments@.len() as int) =~= segments@);
        assert(out@ =~= old(out)@ + path_debug(path));
    }
}

/// The `Debug` rendering of a role.
pub open spec fn role_debug(value: ResourceAccountingRole) -> Seq<char> {
    match value {
        ResourceAccountingRole::Local => "Local"@,
        ResourceAccountingRole::Meta => "Meta"@,
    }
}

fn push_role_debug(out: &mut String, value: ResourceAccountingRole)
    ensures
        final(out)@ == old(out)@ + role_debug(value),
{
    match value {
        ResourceAccountingRole::Local => push_text(out, "Local"),
        ResourceAccountingRole::Meta => push_text(out, "Meta"),
    }
    proof {
        assert(out@ =~= old(out)@ + role_debug(value));
    }
}
/// The `Debug` rendering of a capacity lane.
pub open spec fn class_debug(value: ResourceClass) -> Seq<char> {
    match value {
        ResourceClass::Ordinary => "Ordinary"@,
        ResourceClass::RegisteredMaintenance => "RegisteredMaintenance"@,
    }
}

fn push_class_debug(out: &mut String, value: ResourceClass)
    ensures
        final(out)@ == old(out)@ + class_debug(value),
{
    match value {
        ResourceClass::Ordinary => push_text(out, "Ordinary"),
        ResourceClass::RegisteredMaintenance => push_text(out, "RegisteredMaintenance"),
    }
    proof {
        assert(out@ =~= old(out)@ + class_debug(value));
    }
}
/// The `Debug` rendering of a hold, with the absence of a hold printed as `None`.
pub open spec fn hold_debug(value: OwnerHold) -> Seq<char> {
    match value {
        OwnerHold::Unheld => "None"@,
        OwnerHold::PreparedOwnership => "PreparedOwnership"@,
        OwnerHold::FinalCertification => "FinalCertification"@,
        OwnerHold::ResultDelivery => "ResultDelivery"@,
        OwnerHold::Backup => "Backup"@,
        OwnerHold::RemoteGrant => "RemoteGrant"@,
    }
}

fn push_hold_debug(out: &mut String, value: OwnerHold)
    ensures
        final(out)@ == old(out)@ + hold_debug(value),
{
    match value {
        OwnerHold::Unheld => push_text(out, "None"),
        OwnerHold::PreparedOwnership => push_text(out, "PreparedOwnership"),
        OwnerHold::FinalCertification => push_text(out, "FinalCertification"),
        OwnerHold::ResultDelivery => push_text(out, "ResultDelivery"),
        OwnerHold::Backup => push_text(out, "Backup"),
        OwnerHold::RemoteGrant => push_text(out, "RemoteGrant"),
    }
    proof {
        assert(out@ =~= old(out)@ + hold_debug(value));
    }
}
/// The `Debug` rendering of a charge vector.
pub open spec fn vector_debug(value: DurableChargeVector) -> Seq<char> {
    "DurableChargeVector { canonical_durable_bytes: "@ + decimal(value.canonical_durable_bytes as nat) + ", retained_history_bytes: "@ + decimal(value.retained_history_bytes as nat) + ", branch_count: "@ + decimal(value.branch_count as nat) + ", index_count: "@ + decimal(value.index_count as nat) + ", view_count: "@ + decimal(value.view_count as nat) + ", subscription_count: "@ + decimal(value.subscription_count as nat) + " }"@
}

fn push_vector_debug(out: &mut String, value: DurableChargeVector)
    ensures
        final(out)@ == old(out)@ + vector_debug(value),
{
    push_text(out, "DurableChargeVector { canonical_durable_bytes: ");
    push_decimal(out, value.canonical_durable_bytes as u64);
    push_text(out, ", retained_history_bytes: ");
    push_decimal(out, value.retained_history_bytes as u64);
    push_text(out, ", branch_count: ");
    push_decimal(out, value.branch_count as u64);
    push_text(out, ", index_count: ");
    push_decimal(out, value.index_count as u64);
    push_text(out, ", view_count: ");
    push_decimal(out, value.view_count as u64);
    push_text(out, ", subscription_count: ");
    push_decimal(out, value.subscription_count as u64);
    push_text(out, " }");
    proof {
        assert(out@ =~= old(out)@ + vector_debug(value));
    }
}
/// The `Debug` rendering of an identity mismatch.
pub open spec fn mismatch_debug(value: LedgerIdentityMismatch) -> Seq<char> {
    match value {
        LedgerIdentityMismatch::DatabaseSecurityNamespace { expected, actual } => "DatabaseSecurityNamespace { expected: "@ + database_security_namespace_id_debug(expected) + ", actual: "@ + database_security_namespace_id_debug(actual) + " }"@,
        LedgerIdentityMismatch::ClusterIncarnation { expected, actual } => "ClusterIncarnation { expected: "@ + "["@ + byte_list(expected@) + "]"@ + ", actual: "@ + "["@ + byte_list(actual@) + "]"@ + " }"@,
        LedgerIdentityMismatch::LimitPolicy { expected, actual } => "LimitPolicy { expected: "@ + object_id_debug(expected) + ", actual: "@ + object_id_debug(actual) + " }"@,
        LedgerIdentityMismatch::LimitPolicyEpoch { expected, actual } => "LimitPolicyEpoch { expected: "@ + decimal(expected as nat) + ", actual: "@ + decimal(actual as nat) + " }"@,
    }
}

fn push_mismatch_debug(out: &mut String, value: LedgerIdentityMismatch)
    ensures
        final(out)@ == old(out)@ + mismatch_debug(value),
{
    match value {
        LedgerIdentityMismatch::DatabaseSecurityNamespace { expected, actual } => {
            push_text(out, "DatabaseSecurityNamespace { expected: ");
            push_database_security_namespace_id_debug(out, expected);
            push_text(out, ", actual: ");
            push_database_security_namespace_id_debug(out, actual);
            push_text(out, " }");
        },
        LedgerIdentityMismatch::ClusterIncarnation { expected, actual } => {
            push_text(out, "ClusterIncarnation { expected: ");
            push_byte_list(out, expected.as_slice());
            push_text(out, ", actual: ");
            push_byte_list(out, actual.as_slice());
            push_text(out, " }");
        },
        LedgerIdentityMismatch::LimitPolicy { expected, actual } => {
            push_text(out, "LimitPolicy { expected: ");
            push_object_id_debug(out, expected);
            push_text(out, ", actual: ");
            push_object_id_debug(out, actual);
            push_text(out, " }");
        },
        LedgerIdentityMismatch::LimitPolicyEpoch { expected, actual } => {
            push_text(out, "LimitPolicyEpoch { expected: ");
            push_decimal(out, expected as u64);
            push_text(out, ", actual: ");
            push_decimal(out, actual as u64);
            push_text(out, " }");
        },
    }
    proof {
        assert(out@ =~= old(out)@ + mismatch_debug(value));
    }
}
/// The `Debug` rendering of a vector failure.
pub open spec fn vector_error_debug(value: DurableVectorError) -> Seq<char> {
    match value {
        DurableVectorError::Overflow { axis, lhs, rhs } => "Overflow { axis: "@ + axis_debug_name(axis) + ", lhs: "@ + decimal(lhs as nat) + ", rhs: "@ + decimal(rhs as nat) + " }"@,
        DurableVectorError::Underflow { axis, held, released } => "Underflow { axis: "@ + axis_debug_name(axis) + ", held: "@ + decimal(held as nat) + ", released: "@ + decimal(released as nat) + " }"@,
    }
}

fn push_vector_error_debug(out: &mut String, value: DurableVectorError)
    ensures
        final(out)@ == old(out)@ + vector_error_debug(value),
{
    match value {
        DurableVectorError::Overflow { axis, lhs, rhs } => {
            push_text(out, "Overflow { axis: ");
            push_axis_debug(out, axis);
            push_text(out, ", lhs: ");
            push_decimal(out, lhs as u64);
            push_text(out, ", rhs: ");
            push_decimal(out, rhs as u64);
            push_text(out, " }");
        },
        DurableVectorError::Underflow { axis, held, released } => {
            push_text(out, "Underflow { axis: ");
            push_axis_debug(out, axis);
            push_text(out, ", held: ");
            push_decimal(out, held as u64);
            push_text(out, ", released: ");
            push_decimal(out, released as u64);
            push_text(out, " }");
        },
    }
    proof {
        assert(out@ =~= old(out)@ + vector_error_debug(value));
    }
}
/// The `Debug` rendering of a capacity-law failure.
pub open spec fn bucket_error_debug(value: BucketStateError) -> Seq<char> {
    match value {
        BucketStateError::ReserveExceedsHardLimit { axis, reserve, hard_limit } => "ReserveExceedsHardLimit { axis: "@ + axis_debug_name(axis) + ", reserve: "@ + decimal(reserve as nat) + ", hard_limit: "@ + decimal(hard_limit as nat) + " }"@,
        BucketStateError::UsageOverflow { axis, first, second } => "UsageOverflow { axis: "@ + axis_debug_name(axis) + ", first: "@ + decimal(first as nat) + ", second: "@ + decimal(second as nat) + " }"@,
        BucketStateError::OrdinaryCapacityExceeded { axis, usage, limit } => "OrdinaryCapacityExceeded { axis: "@ + axis_debug_name(axis) + ", usage: "@ + decimal(usage as nat) + ", limit: "@ + decimal(limit as nat) + " }"@,
        BucketStateError::MaintenanceReserveExceeded { axis, usage, reserve } => "MaintenanceReserveExceeded { axis: "@ + axis_debug_name(axis) + ", usage: "@ + decimal(usage as nat) + ", reserve: "@ + decimal(reserve as nat) + " }"@,
        BucketStateError::HardLimitExceeded { axis, usage, hard_limit } => "HardLimitExceeded { axis: "@ + axis_debug_name(axis) + ", usage: "@ + decimal(usage as nat) + ", hard_limit: "@ + decimal(hard_limit as nat) + " }"@,
    }
}

fn push_bucket_error_debug(out: &mut String, value: BucketStateError)
    ensures
        final(out)@ == old(out)@ + bucket_error_debug(value),
{
    match value {
        BucketStateError::ReserveExceedsHardLimit { axis, reserve, hard_limit } => {
            push_text(out, "ReserveExceedsHardLimit { axis: ");
            push_axis_debug(out, axis);
            push_text(out, ", reserve: ");
            push_decimal(out, reserve as u64);
            push_text(out, ", hard_limit: ");
            push_decimal(out, hard_limit as u64);
            push_text(out, " }");
        },
        BucketStateError::UsageOverflow { axis, first, second } => {
            push_text(out, "UsageOverflow { axis: ");
            push_axis_debug(out, axis);
            push_text(out, ", first: ");
            push_decimal(out, first as u64);
            push_text(out, ", second: ");
            push_decimal(out, second as u64);
            push_text(out, " }");
        },
        BucketStateError::OrdinaryCapacityExceeded { axis, usage, limit } => {
            push_text(out, "OrdinaryCapacityExceeded { axis: ");
            push_axis_debug(out, axis);
            push_text(out, ", usage: ");
            push_decimal(out, usage as u64);
            push_text(out, ", limit: ");
            push_decimal(out, limit as u64);
            push_text(out, " }");
        },
        BucketStateError::MaintenanceReserveExceeded { axis, usage, reserve } => {
            push_text(out, "MaintenanceReserveExceeded { axis: ");
            push_axis_debug(out, axis);
            push_text(out, ", usage: ");
            push_decimal(out, usage as u64);
            push_text(out, ", reserve: ");
            push_decimal(out, reserve as u64);
            push_text(out, " }");
        },
        BucketStateError::HardLimitExceeded { axis, usage, hard_limit } => {
            push_text(out, "HardLimitExceeded { axis: ");
            push_axis_debug(out, axis);
            push_text(out, ", usage: ");
            push_decimal(out, usage as u64);
            push_text(out, ", hard_limit: ");
            push_decimal(out, hard_limit as u64);
            push_text(out, " }");
        },
    }
    proof {
        assert(out@ =~= old(out)@ + bucket_error_debug(value));
    }
}
/// The `Debug` rendering of a refused transition.
pub open spec fn ledger_error_debug(value: LedgerError) -> Seq<char> {
    match value {
        LedgerError::NoBuckets => "NoBuckets"@,
        LedgerError::DuplicateBucket { path } => "DuplicateBucket { path: "@ + path_debug(path) + " }"@,
        LedgerError::MissingAncestorBucket { path, missing } => "MissingAncestorBucket { path: "@ + path_debug(path) + ", missing: "@ + path_debug(missing) + " }"@,
        LedgerError::UnknownBucket { path } => "UnknownBucket { path: "@ + path_debug(path) + " }"@,
        LedgerError::BucketRejected { path, cause } => "BucketRejected { path: "@ + path_debug(path) + ", cause: "@ + bucket_error_debug(cause) + " }"@,
        LedgerError::BucketPlanAllocationFailed { requested_buckets } => "BucketPlanAllocationFailed { requested_buckets: "@ + decimal(requested_buckets as nat) + " }"@,
        LedgerError::NonemptyGenesisBucket { path } => "NonemptyGenesisBucket { path: "@ + path_debug(path) + " }"@,
        LedgerError::Vector(error) => "Vector("@ + vector_error_debug(error) + ")"@,
        LedgerError::WrongAuthorityRole { expected, actual } => "WrongAuthorityRole { expected: "@ + role_debug(expected) + ", actual: "@ + role_debug(actual) + " }"@,
        LedgerError::WrongLedgerIdentity { mismatch } => "WrongLedgerIdentity { mismatch: "@ + mismatch_debug(mismatch) + " }"@,
        LedgerError::StaleLedgerGeneration { expected, actual } => "StaleLedgerGeneration { expected: "@ + decimal(expected as nat) + ", actual: "@ + decimal(actual as nat) + " }"@,
        LedgerError::LedgerGenerationOverflow => "LedgerGenerationOverflow"@,
        LedgerError::EntryGenerationOverflow => "EntryGenerationOverflow"@,
        LedgerError::IdempotencyBodyDrift { transition_id, recorded, supplied } => "IdempotencyBodyDrift { transition_id: "@ + transition_id_debug(transition_id) + ", recorded: "@ + "["@ + byte_list(recorded@) + "]"@ + ", supplied: "@ + "["@ + byte_list(supplied@) + "]"@ + " }"@,
        LedgerError::IdempotencySemanticDrift { transition_id } => "IdempotencySemanticDrift { transition_id: "@ + transition_id_debug(transition_id) + " }"@,
        LedgerError::ZeroVector => "ZeroVector"@,
        LedgerError::ReservationIdAlreadyUsed { reservation_id } => "ReservationIdAlreadyUsed { reservation_id: "@ + reservation_id_debug(reservation_id) + " }"@,
        LedgerError::ChargeIdAlreadyUsed { charge_id } => "ChargeIdAlreadyUsed { charge_id: "@ + charge_id_debug(charge_id) + " }"@,
        LedgerError::MaintenanceReserveRequiresRegisteredOwner => "MaintenanceReserveRequiresRegisteredOwner"@,
        LedgerError::UnknownReservation { reservation_id } => "UnknownReservation { reservation_id: "@ + reservation_id_debug(reservation_id) + " }"@,
        LedgerError::UnknownCharge { charge_id } => "UnknownCharge { charge_id: "@ + charge_id_debug(charge_id) + " }"@,
        LedgerError::OwnerMismatch => "OwnerMismatch"@,
        LedgerError::QuotaPathMismatch { expected, actual } => "QuotaPathMismatch { expected: "@ + path_debug(expected) + ", actual: "@ + path_debug(actual) + " }"@,
        LedgerError::ResourceClassMismatch { expected, actual } => "ResourceClassMismatch { expected: "@ + class_debug(expected) + ", actual: "@ + class_debug(actual) + " }"@,
        LedgerError::StaleEntryGeneration { expected, actual } => "StaleEntryGeneration { expected: "@ + decimal(expected as nat) + ", actual: "@ + decimal(actual as nat) + " }"@,
        LedgerError::ExactVectorMismatch { expected, actual } => "ExactVectorMismatch { expected: "@ + vector_debug(expected) + ", actual: "@ + vector_debug(actual) + " }"@,
        LedgerError::ChargeExceedsReservation { reservation_id, axis, reserved, charged } => "ChargeExceedsReservation { reservation_id: "@ + reservation_id_debug(reservation_id) + ", axis: "@ + axis_debug_name(axis) + ", reserved: "@ + decimal(reserved as nat) + ", charged: "@ + decimal(charged as nat) + " }"@,
        LedgerError::ExpiryEvidenceSubjectMismatch { expected, actual } => "ExpiryEvidenceSubjectMismatch { expected: "@ + reservation_id_debug(expected) + ", actual: "@ + reservation_id_debug(actual) + " }"@,
        LedgerError::ExpiryEvidenceGenerationMismatch { expected, actual } => "ExpiryEvidenceGenerationMismatch { expected: "@ + decimal(expected as nat) + ", actual: "@ + decimal(actual as nat) + " }"@,
        LedgerError::ExpiryTimeNotExpired { reservation_id } => "ExpiryTimeNotExpired { reservation_id: "@ + reservation_id_debug(reservation_id) + " }"@,
        LedgerError::ExpiryNotQuiescent { reservation_id } => "ExpiryNotQuiescent { reservation_id: "@ + reservation_id_debug(reservation_id) + " }"@,
        LedgerError::ProtectedOwnerCannotExpire { reservation_id, hold } => "ProtectedOwnerCannotExpire { reservation_id: "@ + reservation_id_debug(reservation_id) + ", hold: "@ + hold_debug(hold) + " }"@,
        LedgerError::NoopTransfer => "NoopTransfer"@,
        LedgerError::NoopAdjust { charge_id } => "NoopAdjust { charge_id: "@ + charge_id_debug(charge_id) + " }"@,
        LedgerError::StableSubjectKeyMismatch { charge_id, expected, actual } => "StableSubjectKeyMismatch { charge_id: "@ + charge_id_debug(charge_id) + ", expected: "@ + stable_subject_key_debug(expected) + ", actual: "@ + stable_subject_key_debug(actual) + " }"@,
        LedgerError::WholeChargeMustUseRelease { charge_id } => "WholeChargeMustUseRelease { charge_id: "@ + charge_id_debug(charge_id) + " }"@,
    }
}

fn push_ledger_error_debug_duplicate_bucket(out: &mut String, path: QuotaPath)
    ensures
        final(out)@ == old(out)@ + ("DuplicateBucket { path: "@ + path_debug(path) + " }"@),
{
    push_text(out, "DuplicateBucket { path: ");
    push_path_debug(out, path);
    push_text(out, " }");
    proof {
        assert(out@ =~= old(out)@ + ("DuplicateBucket { path: "@ + path_debug(path) + " }"@));
    }
}

fn push_ledger_error_debug_missing_ancestor_bucket(out: &mut String, path: QuotaPath, missing: QuotaPath)
    ensures
        final(out)@ == old(out)@ + ("MissingAncestorBucket { path: "@ + path_debug(path) + ", missing: "@ + path_debug(missing) + " }"@),
{
    push_text(out, "MissingAncestorBucket { path: ");
    push_path_debug(out, path);
    push_text(out, ", missing: ");
    push_path_debug(out, missing);
    push_text(out, " }");
    proof {
        assert(out@ =~= old(out)@ + ("MissingAncestorBucket { path: "@ + path_debug(path) + ", missing: "@ + path_debug(missing) + " }"@));
    }
}

fn push_ledger_error_debug_unknown_bucket(out: &mut String, path: QuotaPath)
    ensures
        final(out)@ == old(out)@ + ("UnknownBucket { path: "@ + path_debug(path) + " }"@),
{
    push_text(out, "UnknownBucket { path: ");
    push_path_debug(out, path);
    push_text(out, " }");
    proof {
        assert(out@ =~= old(out)@ + ("UnknownBucket { path: "@ + path_debug(path) + " }"@));
    }
}

fn push_ledger_error_debug_bucket_rejected(out: &mut String, path: QuotaPath, cause: BucketStateError)
    ensures
        final(out)@ == old(out)@ + ("BucketRejected { path: "@ + path_debug(path) + ", cause: "@ + bucket_error_debug(cause) + " }"@),
{
    push_text(out, "BucketRejected { path: ");
    push_path_debug(out, path);
    push_text(out, ", cause: ");
    push_bucket_error_debug(out, cause);
    push_text(out, " }");
    proof {
        assert(out@ =~= old(out)@ + ("BucketRejected { path: "@ + path_debug(path) + ", cause: "@ + bucket_error_debug(cause) + " }"@));
    }
}

fn push_ledger_error_debug_bucket_plan_allocation_failed(out: &mut String, requested_buckets: usize)
    ensures
        final(out)@ == old(out)@ + ("BucketPlanAllocationFailed { requested_buckets: "@ + decimal(requested_buckets as nat) + " }"@),
{
    push_text(out, "BucketPlanAllocationFailed { requested_buckets: ");
    push_decimal(out, requested_buckets as u64);
    push_text(out, " }");
    proof {
        assert(out@ =~= old(out)@ + ("BucketPlanAllocationFailed { requested_buckets: "@ + decimal(requested_buckets as nat) + " }"@));
    }
}

fn push_ledger_error_debug_nonempty_genesis_bucket(out: &mut String, path: QuotaPath)
    ensures
        final(out)@ == old(out)@ + ("NonemptyGenesisBucket { path: "@ + path_debug(path) + " }"@),
{
    push_text(out, "NonemptyGenesisBucket { path: ");
    push_path_debug(out, path);
    push_text(out, " }");
    proof {
        assert(out@ =~= old(out)@ + ("NonemptyGenesisBucket { path: "@ + path_debug(path) + " }"@));
    }
}

fn push_ledger_error_debug_vector(out: &mut String, error: DurableVectorError)
    ensures
        final(out)@ == old(out)@ + ("Vector("@ + vector_error_debug(error) + ")"@),
{
    push_text(out, "Vector(");
    push_vector_error_debug(out, error);
    push_text(out, ")");
    proof {
        assert(out@ =~= old(out)@ + ("Vector("@ + vector_error_debug(error) + ")"@));
    }
}

fn push_ledger_error_debug_wrong_authority_role(out: &mut String, expected: ResourceAccountingRole, actual: ResourceAccountingRole)
    ensures
        final(out)@ == old(out)@ + ("WrongAuthorityRole { expected: "@ + role_debug(expected) + ", actual: "@ + role_debug(actual) + " }"@),
{
    push_text(out, "WrongAuthorityRole { expected: ");
    push_role_debug(out, expected);
    push_text(out, ", actual: ");
    push_role_debug(out, actual);
    push_text(out, " }");
    proof {
        assert(out@ =~= old(out)@ + ("WrongAuthorityRole { expected: "@ + role_debug(expected) + ", actual: "@ + role_debug(actual) + " }"@));
    }
}

fn push_ledger_error_debug_wrong_ledger_identity(out: &mut String, mismatch: LedgerIdentityMismatch)
    ensures
        final(out)@ == old(out)@ + ("WrongLedgerIdentity { mismatch: "@ + mismatch_debug(mismatch) + " }"@),
{
    push_text(out, "WrongLedgerIdentity { mismatch: ");
    push_mismatch_debug(out, mismatch);
    push_text(out, " }");
    proof {
        assert(out@ =~= old(out)@ + ("WrongLedgerIdentity { mismatch: "@ + mismatch_debug(mismatch) + " }"@));
    }
}

fn push_ledger_error_debug_stale_ledger_generation(out: &mut String, expected: u64, actual: u64)
    ensures
        final(out)@ == old(out)@ + ("StaleLedgerGeneration { expected: "@ + decimal(expected as nat) + ", actual: "@ + decimal(actual as nat) + " }"@),
{
    push_text(out, "StaleLedgerGeneration { expected: ");
    push_decimal(out, expected as u64);
    push_text(out, ", actual: ");
    push_decimal(out, actual as u64);
    push_text(out, " }");
    proof {
        assert(out@ =~= old(out)@ + ("StaleLedgerGeneration { expected: "@ + decimal(expected as nat) + ", actual: "@ + decimal(actual as nat) + " }"@));
    }
}

fn push_ledger_error_debug_idempotency_body_drift(out: &mut String, transition_id: TransitionId, recorded: [u8; 32], supplied: [u8; 32])
    ensures
        final(out)@ == old(out)@ + ("IdempotencyBodyDrift { transition_id: "@ + transition_id_debug(transition_id) + ", recorded: "@ + "["@ + byte_list(recorded@) + "]"@ + ", supplied: "@ + "["@ + byte_list(supplied@) + "]"@ + " }"@),
{
    push_text(out, "IdempotencyBodyDrift { transition_id: ");
    push_transition_id_debug(out, transition_id);
    push_text(out, ", recorded: ");
    push_byte_list(out, recorded.as_slice());
    push_text(out, ", supplied: ");
    push_byte_list(out, supplied.as_slice());
    push_text(out, " }");
    proof {
        assert(out@ =~= old(out)@ + ("IdempotencyBodyDrift { transition_id: "@ + transition_id_debug(transition_id) + ", recorded: "@ + "["@ + byte_list(recorded@) + "]"@ + ", supplied: "@ + "["@ + byte_list(supplied@) + "]"@ + " }"@));
    }
}

fn push_ledger_error_debug_idempotency_semantic_drift(out: &mut String, transition_id: TransitionId)
    ensures
        final(out)@ == old(out)@ + ("IdempotencySemanticDrift { transition_id: "@ + transition_id_debug(transition_id) + " }"@),
{
    push_text(out, "IdempotencySemanticDrift { transition_id: ");
    push_transition_id_debug(out, transition_id);
    push_text(out, " }");
    proof {
        assert(out@ =~= old(out)@ + ("IdempotencySemanticDrift { transition_id: "@ + transition_id_debug(transition_id) + " }"@));
    }
}

fn push_ledger_error_debug_reservation_id_already_used(out: &mut String, reservation_id: ReservationId)
    ensures
        final(out)@ == old(out)@ + ("ReservationIdAlreadyUsed { reservation_id: "@ + reservation_id_debug(reservation_id) + " }"@),
{
    push_text(out, "ReservationIdAlreadyUsed { reservation_id: ");
    push_reservation_id_debug(out, reservation_id);
    push_text(out, " }");
    proof {
        assert(out@ =~= old(out)@ + ("ReservationIdAlreadyUsed { reservation_id: "@ + reservation_id_debug(reservation_id) + " }"@));
    }
}

fn push_ledger_error_debug_charge_id_already_used(out: &mut String, charge_id: ChargeId)
    ensures
        final(out)@ == old(out)@ + ("ChargeIdAlreadyUsed { charge_id: "@ + charge_id_debug(charge_id) + " }"@),
{
    push_text(out, "ChargeIdAlreadyUsed { charge_id: ");
    push_charge_id_debug(out, charge_id);
    push_text(out, " }");
    proof {
        assert(out@ =~= old(out)@ + ("ChargeIdAlreadyUsed { charge_id: "@ + charge_id_debug(charge_id) + " }"@));
    }
}

fn push_ledger_error_debug_unknown_reservation(out: &mut String, reservation_id: ReservationId)
    ensures
        final(out)@ == old(out)@ + ("UnknownReservation { reservation_id: "@ + reservation_id_debug(reservation_id) + " }"@),
{
    push_text(out, "UnknownReservation { reservation_id: ");
    push_reservation_id_debug(out, reservation_id);
    push_text(out, " }");
    proof {
        assert(out@ =~= old(out)@ + ("UnknownReservation { reservation_id: "@ + reservation_id_debug(reservation_id) + " }"@));
    }
}

fn push_ledger_error_debug_unknown_charge(out: &mut String, charge_id: ChargeId)
    ensures
        final(out)@ == old(out)@ + ("UnknownCharge { charge_id: "@ + charge_id_debug(charge_id) + " }"@),
{
    push_text(out, "UnknownCharge { charge_id: ");
    push_charge_id_debug(out, charge_id);
    push_text(out, " }");
    proof {
        assert(out@ =~= old(out)@ + ("UnknownCharge { charge_id: "@ + charge_id_debug(charge_id) + " }"@));
    }
}

fn push_ledger_error_debug_quota_path_mismatch(out: &mut String, expected: QuotaPath, actual: QuotaPath)
    ensures
        final(out)@ == old(out)@ + ("QuotaPathMismatch { expected: "@ + path_debug(expected) + ", actual: "@ + path_debug(actual) + " }"@),
{
    push_text(out, "QuotaPathMismatch { expected: ");
    push_path_debug(out, expected);
    push_text(out, ", actual: ");
    push_path_debug(out, actual);
    push_text(out, " }");
    proof {
        assert(out@ =~= old(out)@ + ("QuotaPathMismatch { expected: "@ + path_debug(expected) + ", actual: "@ + path_debug(actual) + " }"@));
    }
}

fn push_ledger_error_debug_resource_class_mismatch(out: &mut String, expected: ResourceClass, actual: ResourceClass)
    ensures
        final(out)@ == old(out)@ + ("ResourceClassMismatch { expected: "@ + class_debug(expected) + ", actual: "@ + class_debug(actual) + " }"@),
{
    push_text(out, "ResourceClassMismatch { expected: ");
    push_class_debug(out, expected);
    push_text(out, ", actual: ");
    push_class_debug(out, actual);
    push_text(out, " }");
    proof {
        assert(out@ =~= old(out)@ + ("ResourceClassMismatch { expected: "@ + class_debug(expected) + ", actual: "@ + class_debug(actual) + " }"@));
    }
}

fn push_ledger_error_debug_stale_entry_generation(out: &mut String, expected: u64, actual: u64)
    ensures
        final(out)@ == old(out)@ + ("StaleEntryGeneration { expected: "@ + decimal(expected as nat) + ", actual: "@ + decimal(actual as nat) + " }"@),
{
    push_text(out, "StaleEntryGeneration { expected: ");
    push_decimal(out, expected as u64);
    push_text(out, ", actual: ");
    push_decimal(out, actual as u64);
    push_text(out, " }");
    proof {
        assert(out@ =~= old(out)@ + ("StaleEntryGeneration { expected: "@ + decimal(expected as nat) + ", actual: "@ + decimal(actual as nat) + " }"@));
    }
}

fn push_ledger_error_debug_exact_vector_mismatch(out: &mut String, expected: DurableChargeVector, actual: DurableChargeVector)
    ensures
        final(out)@ == old(out)@ + ("ExactVectorMismatch { expected: "@ + vector_debug(expected) + ", actual: "@ + vector_debug(actual) + " }"@),
{
    push_text(out, "ExactVectorMismatch { expected: ");
    push_vector_debug(out, expected);
    push_text(out, ", actual: ");
    push_vector_debug(out, actual);
    push_text(out, " }");
    proof {
        assert(out@ =~= old(out)@ + ("ExactVectorMismatch { expected: "@ + vector_debug(expected) + ", actual: "@ + vector_debug(actual) + " }"@));
    }
}

fn push_ledger_error_debug_charge_exceeds_reservation(out: &mut String, reservation_id: ReservationId, axis: DurableChargeAxis, reserved: u64, charged: u64)
    ensures
        final(out)@ == old(out)@ + ("ChargeExceedsReservation { reservation_id: "@ + reservation_id_debug(reservation_id) + ", axis: "@ + axis_debug_name(axis) + ", reserved: "@ + decimal(reserved as nat) + ", charged: "@ + decimal(charged as nat) + " }"@),
{
    push_text(out, "ChargeExceedsReservation { reservation_id: ");
    push_reservation_id_debug(out, reservation_id);
    push_text(out, ", axis: ");
    push_axis_debug(out, axis);
    push_text(out, ", reserved: ");
    push_decimal(out, reserved as u64);
    push_text(out, ", charged: ");
    push_decimal(out, charged as u64);
    push_text(out, " }");
    proof {
        assert(out@ =~= old(out)@ + ("ChargeExceedsReservation { reservation_id: "@ + reservation_id_debug(reservation_id) + ", axis: "@ + axis_debug_name(axis) + ", reserved: "@ + decimal(reserved as nat) + ", charged: "@ + decimal(charged as nat) + " }"@));
    }
}

fn push_ledger_error_debug_expiry_evidence_subject_mismatch(out: &mut String, expected: ReservationId, actual: ReservationId)
    ensures
        final(out)@ == old(out)@ + ("ExpiryEvidenceSubjectMismatch { expected: "@ + reservation_id_debug(expected) + ", actual: "@ + reservation_id_debug(actual) + " }"@),
{
    push_text(out, "ExpiryEvidenceSubjectMismatch { expected: ");
    push_reservation_id_debug(out, expected);
    push_text(out, ", actual: ");
    push_reservation_id_debug(out, actual);
    push_text(out, " }");
    proof {
        assert(out@ =~= old(out)@ + ("ExpiryEvidenceSubjectMismatch { expected: "@ + reservation_id_debug(expected) + ", actual: "@ + reservation_id_debug(actual) + " }"@));
    }
}

fn push_ledger_error_debug_expiry_evidence_generation_mismatch(out: &mut String, expected: u64, actual: u64)
    ensures
        final(out)@ == old(out)@ + ("ExpiryEvidenceGenerationMismatch { expected: "@ + decimal(expected as nat) + ", actual: "@ + decimal(actual as nat) + " }"@),
{
    push_text(out, "ExpiryEvidenceGenerationMismatch { expected: ");
    push_decimal(out, expected as u64);
    push_text(out, ", actual: ");
    push_decimal(out, actual as u64);
    push_text(out, " }");
    proof {
        assert(out@ =~= old(out)@ + ("ExpiryEvidenceGenerationMismatch { expected: "@ + decimal(expected as nat) + ", actual: "@ + decimal(actual as nat) + " }"@));
    }
}

fn push_ledger_error_debug_expiry_time_not_expired(out: &mut String, reservation_id: ReservationId)
    ensures
        final(out)@ == old(out)@ + ("ExpiryTimeNotExpired { reservation_id: "@ + reservation_id_debug(reservation_id) + " }"@),
{
    push_text(out, "ExpiryTimeNotExpired { reservation_id: ");
    push_reservation_id_debug(out, reservation_id);
    push_text(out, " }");
    proof {
        assert(out@ =~= old(out)@ + ("ExpiryTimeNotExpired { reservation_id: "@ + reservation_id_debug(reservation_id) + " }"@));
    }
}

fn push_ledger_error_debug_expiry_not_quiescent(out: &mut String, reservation_id: ReservationId)
    ensures
        final(out)@ == old(out)@ + ("ExpiryNotQuiescent { reservation_id: "@ + reservation_id_debug(reservation_id) + " }"@),
{
    push_text(out, "ExpiryNotQuiescent { reservation_id: ");
    push_reservation_id_debug(out, reservation_id);
    push_text(out, " }");
    proof {
        assert(out@ =~= old(out)@ + ("ExpiryNotQuiescent { reservation_id: "@ + reservation_id_debug(reservation_id) + " }"@));
    }
}

fn push_ledger_error_debug_protected_owner_cannot_expire(out: &mut String, reservation_id: ReservationId, hold: OwnerHold)
    ensures
        final(out)@ == old(out)@ + ("ProtectedOwnerCannotExpire { reservation_id: "@ + reservation_id_debug(reservation_id) + ", hold: "@ + hold_debug(hold) + " }"@),
{
    push_text(out, "ProtectedOwnerCannotExpire { reservation_id: ");
    push_reservation_id_debug(out, reservation_id);
    push_text(out, ", hold: ");
    push_hold_debug(out, hold);
    push_text(out, " }");
    proof {
        assert(out@ =~= old(out)@ + ("ProtectedOwnerCannotExpire { reservation_id: "@ + reservation_id_debug(reservation_id) + ", hold: "@ + hold_debug(hold) + " }"@));
    }
}

fn push_ledger_error_debug_noop_adjust(out: &mut String, charge_id: ChargeId)
    ensures
        final(out)@ == old(out)@ + ("NoopAdjust { charge_id: "@ + charge_id_debug(charge_id) + " }"@),
{
    push_text(out, "NoopAdjust { charge_id: ");
    push_charge_id_debug(out, charge_id);
    push_text(out, " }");
    proof {
        assert(out@ =~= old(out)@ + ("NoopAdjust { charge_id: "@ + charge_id_debug(charge_id) + " }"@));
    }
}

fn push_ledger_error_debug_stable_subject_key_mismatch(out: &mut String, charge_id: ChargeId, expected: StableSubjectKey, actual: StableSubjectKey)
    ensures
        final(out)@ == old(out)@ + ("StableSubjectKeyMismatch { charge_id: "@ + charge_id_debug(charge_id) + ", expected: "@ + stable_subject_key_debug(expected) + ", actual: "@ + stable_subject_key_debug(actual) + " }"@),
{
    push_text(out, "StableSubjectKeyMismatch { charge_id: ");
    push_charge_id_debug(out, charge_id);
    push_text(out, ", expected: ");
    push_stable_subject_key_debug(out, expected);
    push_text(out, ", actual: ");
    push_stable_subject_key_debug(out, actual);
    push_text(out, " }");
    proof {
        assert(out@ =~= old(out)@ + ("StableSubjectKeyMismatch { charge_id: "@ + charge_id_debug(charge_id) + ", expected: "@ + stable_subject_key_debug(expected) + ", actual: "@ + stable_subject_key_debug(actual) + " }"@));
    }
}

fn push_ledger_error_debug_whole_charge_must_use_release(out: &mut String, charge_id: ChargeId)
    ensures
        final(out)@ == old(out)@ + ("WholeChargeMustUseRelease { charge_id: "@ + charge_id_debug(charge_id) + " }"@),
{
    push_text(out, "WholeChargeMustUseRelease { charge_id: ");
    push_charge_id_debug(out, charge_id);
    push_text(out, " }");
    proof {
        assert(out@ =~= old(out)@ + ("WholeChargeMustUseRelease { charge_id: "@ + charge_id_debug(charge_id) + " }"@));
    }
}

fn push_ledger_error_debug(out: &mut String, value: LedgerError)
    ensures
        final(out)@ == old(out)@ + ledger_error_debug(value),
{
    match value {
        LedgerError::NoBuckets => push_text(out, "NoBuckets"),
        LedgerError::DuplicateBucket { path } => push_ledger_error_debug_duplicate_bucket(out, path),
        LedgerError::MissingAncestorBucket { path, missing } => push_ledger_error_debug_missing_ancestor_bucket(out, path, missing),
        LedgerError::UnknownBucket { path } => push_ledger_error_debug_unknown_bucket(out, path),
        LedgerError::BucketRejected { path, cause } => push_ledger_error_debug_bucket_rejected(out, path, cause),
        LedgerError::BucketPlanAllocationFailed { requested_buckets } => push_ledger_error_debug_bucket_plan_allocation_failed(out, requested_buckets),
        LedgerError::NonemptyGenesisBucket { path } => push_ledger_error_debug_nonempty_genesis_bucket(out, path),
        LedgerError::Vector(error) => push_ledger_error_debug_vector(out, error),
        LedgerError::WrongAuthorityRole { expected, actual } => push_ledger_error_debug_wrong_authority_role(out, expected, actual),
        LedgerError::WrongLedgerIdentity { mismatch } => push_ledger_error_debug_wrong_ledger_identity(out, mismatch),
        LedgerError::StaleLedgerGeneration { expected, actual } => push_ledger_error_debug_stale_ledger_generation(out, expected, actual),
        LedgerError::LedgerGenerationOverflow => push_text(out, "LedgerGenerationOverflow"),
        LedgerError::EntryGenerationOverflow => push_text(out, "EntryGenerationOverflow"),
        LedgerError::IdempotencyBodyDrift { transition_id, recorded, supplied } => push_ledger_error_debug_idempotency_body_drift(out, transition_id, recorded, supplied),
        LedgerError::IdempotencySemanticDrift { transition_id } => push_ledger_error_debug_idempotency_semantic_drift(out, transition_id),
        LedgerError::ZeroVector => push_text(out, "ZeroVector"),
        LedgerError::ReservationIdAlreadyUsed { reservation_id } => push_ledger_error_debug_reservation_id_already_used(out, reservation_id),
        LedgerError::ChargeIdAlreadyUsed { charge_id } => push_ledger_error_debug_charge_id_already_used(out, charge_id),
        LedgerError::MaintenanceReserveRequiresRegisteredOwner => push_text(out, "MaintenanceReserveRequiresRegisteredOwner"),
        LedgerError::UnknownReservation { reservation_id } => push_ledger_error_debug_unknown_reservation(out, reservation_id),
        LedgerError::UnknownCharge { charge_id } => push_ledger_error_debug_unknown_charge(out, charge_id),
        LedgerError::OwnerMismatch => push_text(out, "OwnerMismatch"),
        LedgerError::QuotaPathMismatch { expected, actual } => push_ledger_error_debug_quota_path_mismatch(out, expected, actual),
        LedgerError::ResourceClassMismatch { expected, actual } => push_ledger_error_debug_resource_class_mismatch(out, expected, actual),
        LedgerError::StaleEntryGeneration { expected, actual } => push_ledger_error_debug_stale_entry_generation(out, expected, actual),
        LedgerError::ExactVectorMismatch { expected, actual } => push_ledger_error_debug_exact_vector_mismatch(out, expected, actual),
        LedgerError::ChargeExceedsReservation { reservation_id, axis, reserved, charged } => push_ledger_error_debug_charge_exceeds_reservation(out, reservation_id, axis, reserved, charged),
        LedgerError::ExpiryEvidenceSubjectMismatch { expected, actual } => push_ledger_error_debug_expiry_evidence_subject_mismatch(out, expected, actual),
        LedgerError::ExpiryEvidenceGenerationMismatch { expected, actual } => push_ledger_error_debug_expiry_evidence_generation_mismatch(out, expected, actual),
        LedgerError::ExpiryTimeNotExpired { reservation_id } => push_ledger_error_debug_expiry_time_not_expired(out, reservation_id),
        LedgerError::ExpiryNotQuiescent { reservation_id } => push_ledger_error_debug_expiry_not_quiescent(out, reservation_id),
        LedgerError::ProtectedOwnerCannotExpire { reservation_id, hold } => push_ledger_error_debug_protected_owner_cannot_expire(out, reservation_id, hold),
        LedgerError::NoopTransfer => push_text(out, "NoopTransfer"),
        LedgerError::NoopAdjust { charge_id } => push_ledger_error_debug_noop_adjust(out, charge_id),
        LedgerError::StableSubjectKeyMismatch { charge_id, expected, actual } => push_ledger_error_debug_stable_subject_key_mismatch(out, charge_id, expected, actual),
        LedgerError::WholeChargeMustUseRelease { charge_id } => push_ledger_error_debug_whole_charge_must_use_release(out, charge_id),
    }
}
/// Diagnostic text of a refused transition: the error as `Debug` prints
/// it, after a fixed prefix.
pub open spec fn ledger_error_text(error: LedgerError) -> Seq<char> {
    "resource-ledger transition rejected: "@ + ledger_error_debug(error)
}

impl LedgerError {
    /// Human-readable diagnostic.
    pub fn message(&self) -> (text: String)
        ensures
            text@ == ledger_error_text(*self),
    {
        let mut out = "resource-ledger transition rejected: ".to_owned();
        push_ledger_error_debug(&mut out, *self);
        out
    }
}


} // verus!
