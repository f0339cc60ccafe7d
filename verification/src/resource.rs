//! Typed resource vectors and ceilings.
//!
//! A [`ResourceVector`] is a point in the five-axis resource space and a
//! [`ResourceCeiling`] is an inclusive upper bound. Every combining operation
//! is checked: overflow and ceiling violations are typed rejections naming
//! the exact axis, never saturation or wraparound.

use vstd::prelude::*;
use crate::text::{decimal, push_decimal, push_text};

verus! {

/// The five accounting axes.
#[derive(Clone, Copy, PartialEq, Eq, Hash, Debug, Structural)]
pub enum ResourceAxis {
    CpuMicros,
    MemoryBytes,
    IoBytes,
    IoOps,
    NetworkBytes,
}

/// Position of an axis in the declared diagnostic order.
pub open spec fn axis_ordinal(axis: ResourceAxis) -> int {
    match axis {
        ResourceAxis::CpuMicros => 0,
        ResourceAxis::MemoryBytes => 1,
        ResourceAxis::IoBytes => 2,
        ResourceAxis::IoOps => 3,
        ResourceAxis::NetworkBytes => 4,
    }
}

/// The axis at a position of the declared order.
pub open spec fn axis_at(index: int) -> ResourceAxis {
    if index == 0 {
        ResourceAxis::CpuMicros
    } else if index == 1 {
        ResourceAxis::MemoryBytes
    } else if index == 2 {
        ResourceAxis::IoBytes
    } else if index == 3 {
        ResourceAxis::IoOps
    } else {
        ResourceAxis::NetworkBytes
    }
}

/// Stable lowercase name of an axis.
pub open spec fn axis_name(axis: ResourceAxis) -> Seq<char> {
    match axis {
        ResourceAxis::CpuMicros => "cpu_micros"@,
        ResourceAxis::MemoryBytes => "memory_bytes"@,
        ResourceAxis::IoBytes => "io_bytes"@,
        ResourceAxis::IoOps => "io_ops"@,
        ResourceAxis::NetworkBytes => "network_bytes"@,
    }
}

impl ResourceAxis {
    /// Every axis, in the declared diagnostic order.
    pub const ALL: [ResourceAxis; 5] = [
        ResourceAxis::CpuMicros,
        ResourceAxis::MemoryBytes,
        ResourceAxis::IoBytes,
        ResourceAxis::IoOps,
        ResourceAxis::NetworkBytes,
    ];

    /// Stable lowercase name.
    pub fn name(self) -> (name: &'static str)
        ensures
            name@ == axis_name(self),
    {
        match self {
            ResourceAxis::CpuMicros => "cpu_micros",
            ResourceAxis::MemoryBytes => "memory_bytes",
            ResourceAxis::IoBytes => "io_bytes",
            ResourceAxis::IoOps => "io_ops",
            ResourceAxis::NetworkBytes => "network_bytes",
        }
    }
}

/// A point in resource space. `ZERO` is the additive identity.
#[derive(Clone, Copy, PartialEq, Eq, Hash, Debug, Default, Structural)]
pub struct ResourceVector {
    pub cpu_micros: u64,
    pub memory_bytes: u64,
    pub io_bytes: u64,
    pub io_ops: u64,
    pub network_bytes: u64,
}

/// Typed accounting failure: which axis, which operation, and both operands.
#[derive(Clone, Copy, PartialEq, Eq, Debug, Structural)]
pub enum ResourceError {
    /// Checked addition overflowed an axis.
    Overflow { axis: ResourceAxis, lhs: u64, rhs: u64 },
    /// Checked subtraction underflowed an axis (releasing more than held).
    Underflow { axis: ResourceAxis, held: u64, released: u64 },
    /// A vector exceeded a ceiling on an axis.
    CeilingExceeded { axis: ResourceAxis, requested: u64, ceiling: u64 },
}

impl ResourceVector {
    /// The component on one axis.
    pub open spec fn spec_axis(self, axis: ResourceAxis) -> u64 {
        match axis {
            ResourceAxis::CpuMicros => self.cpu_micros,
            ResourceAxis::MemoryBytes => self.memory_bytes,
            ResourceAxis::IoBytes => self.io_bytes,
            ResourceAxis::IoOps => self.io_ops,
            ResourceAxis::NetworkBytes => self.network_bytes,
        }
    }

    /// The vector whose every component is zero.
    pub open spec fn spec_zero() -> ResourceVector {
        ResourceVector { cpu_micros: 0, memory_bytes: 0, io_bytes: 0, io_ops: 0, network_bytes: 0 }
    }

    /// Exact component-wise sum over the integers.
    pub open spec fn sum_fits(self, other: ResourceVector) -> bool {
        forall|i: int| 0 <= i < 5 ==> self.spec_axis(axis_at(i)) + other.spec_axis(axis_at(i)) <= u64::MAX
    }

    /// Component-wise partial order.
    pub open spec fn spec_fits_within(self, other: ResourceVector) -> bool {
        forall|i: int| 0 <= i < 5 ==> self.spec_axis(axis_at(i)) <= other.spec_axis(axis_at(i))
    }

    /// The additive identity.
    pub fn zero() -> (zero: ResourceVector)
        ensures
            zero == Self::spec_zero(),
            forall|axis: ResourceAxis| zero.spec_axis(axis) == 0,
    {
        ResourceVector { cpu_micros: 0, memory_bytes: 0, io_bytes: 0, io_ops: 0, network_bytes: 0 }
    }

    /// The component on one axis.
    pub fn axis(&self, axis: ResourceAxis) -> (value: u64)
        ensures
            value == self.spec_axis(axis),
    {
        match axis {
            ResourceAxis::CpuMicros => self.cpu_micros,
            ResourceAxis::MemoryBytes => self.memory_bytes,
            ResourceAxis::IoBytes => self.io_bytes,
            ResourceAxis::IoOps => self.io_ops,
            ResourceAxis::NetworkBytes => self.network_bytes,
        }
    }

    /// Checked component-wise addition. The error names the first axis, in
    /// declared order, whose sum overflows.
    pub fn checked_add(self, other: ResourceVector) -> (result: Result<ResourceVector, ResourceError>)
        ensures
            match result {
                Ok(sum) => forall|i: int| 0 <= i < 5 ==>
                    sum.spec_axis(axis_at(i)) == self.spec_axis(axis_at(i)) + other.spec_axis(axis_at(i)),
                Err(ResourceError::Overflow { axis, lhs, rhs }) => {
                    let k = axis_ordinal(axis);
                    &&& lhs == self.spec_axis(axis)
                    &&& rhs == other.spec_axis(axis)
                    &&& lhs + rhs > u64::MAX
                    &&& forall|i: int| 0 <= i < k ==>
                        self.spec_axis(axis_at(i)) + other.spec_axis(axis_at(i)) <= u64::MAX
                },
                Err(_) => false,
            },
            result is Ok <==> self.sum_fits(other),
    {
        let mut out = ResourceVector::zero();
        let mut index: usize = 0;
        while index < 5
            invariant
                0 <= index <= 5,
                forall|i: int| 0 <= i < index ==>
                    out.spec_axis(axis_at(i)) == self.spec_axis(axis_at(i)) + other.spec_axis(axis_at(i)),
            decreases 5 - index,
        {
            let axis = axis_from_index(index);
            let lhs = self.axis(axis);
            let rhs = other.axis(axis);
            match lhs.checked_add(rhs) {
                Some(value) => {
                    out.set_axis(axis, value);
                },
                None => {
                    return Err(ResourceError::Overflow { axis, lhs, rhs });
                },
            }
            index = index + 1;
        }
        Ok(out)
    }

    /// Checked component-wise subtraction (releasing charges). The error names
    /// the first axis, in declared order, that would underflow.
    pub fn checked_sub(self, other: ResourceVector) -> (result: Result<ResourceVector, ResourceError>)
        ensures
            match result {
                Ok(diff) => forall|i: int| 0 <= i < 5 ==>
                    diff.spec_axis(axis_at(i)) == self.spec_axis(axis_at(i)) - other.spec_axis(axis_at(i)),
                Err(ResourceError::Underflow { axis, held, released }) => {
                    let k = axis_ordinal(axis);
                    &&& held == self.spec_axis(axis)
                    &&& released == other.spec_axis(axis)
                    &&& held < released
                    &&& forall|i: int| 0 <= i < k ==>
                        other.spec_axis(axis_at(i)) <= self.spec_axis(axis_at(i))
                },
                Err(_) => false,
            },
            result is Ok <==> other.spec_fits_within(self),
    {
        let mut out = ResourceVector::zero();
        let mut index: usize = 0;
        while index < 5
            invariant
                0 <= index <= 5,
                forall|i: int| 0 <= i < index ==>
                    out.spec_axis(axis_at(i)) == self.spec_axis(axis_at(i)) - other.spec_axis(axis_at(i)),
                forall|i: int| 0 <= i < index ==>
                    other.spec_axis(axis_at(i)) <= self.spec_axis(axis_at(i)),
            decreases 5 - index,
        {
            let axis = axis_from_index(index);
            let held = self.axis(axis);
            let released = other.axis(axis);
            match held.checked_sub(released) {
                Some(value) => {
                    out.set_axis(axis, value);
                },
                None => {
                    return Err(ResourceError::Underflow { axis, held, released });
                },
            }
            index = index + 1;
        }
        Ok(out)
    }

    /// True iff every axis of `self` is at most the same axis of `other`.
    pub fn fits_within(&self, other: &ResourceVector) -> (fits: bool)
        ensures
            fits == self.spec_fits_within(*other),
    {
        let mut index: usize = 0;
        while index < 5
            invariant
                0 <= index <= 5,
                forall|i: int| 0 <= i < index ==> self.spec_axis(axis_at(i)) <= other.spec_axis(axis_at(i)),
            decreases 5 - index,
        {
            let axis = axis_from_index(index);
            if self.axis(axis) > other.axis(axis) {
                return false;
            }
            index = index + 1;
        }
        true
    }

    fn set_axis(&mut self, axis: ResourceAxis, value: u64)
        ensures
            final(self).spec_axis(axis) == value,
            forall|other: ResourceAxis| other != axis ==> final(self).spec_axis(other) == old(self).spec_axis(other),
    {
        match axis {
            ResourceAxis::CpuMicros => self.cpu_micros = value,
            ResourceAxis::MemoryBytes => self.memory_bytes = value,
            ResourceAxis::IoBytes => self.io_bytes = value,
            ResourceAxis::IoOps => self.io_ops = value,
            ResourceAxis::NetworkBytes => self.network_bytes = value,
        }
    }
}

fn axis_from_index(index: usize) -> (axis: ResourceAxis)
    requires
        index < 5,
    ensures
        axis == axis_at(index as int),
        axis_ordinal(axis) == index,
{
    if index == 0 {
        ResourceAxis::CpuMicros
    } else if index == 1 {
        ResourceAxis::MemoryBytes
    } else if index == 2 {
        ResourceAxis::IoBytes
    } else if index == 3 {
        ResourceAxis::IoOps
    } else {
        ResourceAxis::NetworkBytes
    }
}

/// An inclusive upper bound in resource space.
#[derive(Clone, Copy, PartialEq, Eq, Hash, Debug, Structural)]
pub struct ResourceCeiling(ResourceVector);

/// Proof token that a vector was admitted under some ceiling; constructible
/// only through [`ResourceCeiling::try_admit`].
#[derive(Clone, Copy, PartialEq, Eq, Debug, Structural)]
pub struct Admitted {
    vector: ResourceVector,
}

impl ResourceCeiling {
    /// The bound this ceiling was built from.
    pub closed spec fn spec_bound(self) -> ResourceVector {
        self.0
    }

    /// Wraps an inclusive bound.
    pub fn new(bound: ResourceVector) -> (ceiling: Self)
        ensures
            ceiling.spec_bound() == bound,
    {
        ResourceCeiling(bound)
    }

    /// The inclusive bound.
    pub fn bound(&self) -> (bound: &ResourceVector)
        ensures
            *bound == self.spec_bound(),
    {
        &self.0
    }

    /// Admits `requested` iff it fits; the rejection names the first violated
    /// axis in declared order.
    pub fn try_admit(&self, requested: ResourceVector) -> (result: Result<Admitted, ResourceError>)
        ensures
            result is Ok <==> requested.spec_fits_within(self.spec_bound()),
            match result {
                Ok(token) => token.spec_vector() == requested,
                Err(ResourceError::CeilingExceeded { axis, requested: r, ceiling: c }) => {
                    &&& r == requested.spec_axis(axis)
                    &&& c == self.spec_bound().spec_axis(axis)
                    &&& r > c
                    &&& forall|i: int| 0 <= i < axis_ordinal(axis) ==>
                        requested.spec_axis(axis_at(i)) <= self.spec_bound().spec_axis(axis_at(i))
                },
                Err(_) => false,
            },
    {
        let mut index: usize = 0;
        while index < 5
            invariant
                0 <= index <= 5,
                forall|i: int| 0 <= i < index ==>
                    requested.spec_axis(axis_at(i)) <= self.0.spec_axis(axis_at(i)),
            decreases 5 - index,
        {
            let axis = axis_from_index(index);
            let req = requested.axis(axis);
            let ceil = self.0.axis(axis);
            if req > ceil {
                return Err(ResourceError::CeilingExceeded { axis, requested: req, ceiling: ceil });
            }
            index = index + 1;
        }
        Ok(Admitted { vector: requested })
    }
}

impl Admitted {
    /// The admitted vector.
    pub closed spec fn spec_vector(self) -> ResourceVector {
        self.vector
    }

    /// The admitted vector.
    pub fn vector(&self) -> (vector: &ResourceVector)
        ensures
            *vector == self.spec_vector(),
    {
        &self.vector
    }
}

/// Diagnostic text of an accounting failure.
pub open spec fn resource_error_text(error: ResourceError) -> Seq<char> {
    match error {
        ResourceError::Overflow { axis, lhs, rhs } => "resource overflow on "@ + axis_name(axis)
            + ": "@ + decimal(lhs as nat) + " + "@ + decimal(rhs as nat),
        ResourceError::Underflow { axis, held, released } => "resource underflow on "@ + axis_name(
            axis,
        ) + ": held "@ + decimal(held as nat) + ", released "@ + decimal(released as nat),
        ResourceError::CeilingExceeded { axis, requested, ceiling } =>
            "resource ceiling exceeded on "@ + axis_name(axis) + ": requested "@ + decimal(
            requested as nat,
        ) + ", ceiling "@ + decimal(ceiling as nat),
    }
}

impl ResourceError {
    /// Human-readable diagnostic.
    pub fn message(&self) -> (text: String)
        ensures
            text@ == resource_error_text(*self),
    {
        match *self {
            ResourceError::Overflow { axis, lhs, rhs } => {
                let mut out = "resource overflow on ".to_owned();
                push_text(&mut out, axis.name());
                push_text(&mut out, ": ");
                push_decimal(&mut out, lhs);
                push_text(&mut out, " + ");
                push_decimal(&mut out, rhs);
                out
            },
            ResourceError::Underflow { axis, held, released } => {
                let mut out = "resource underflow on ".to_owned();
                push_text(&mut out, axis.name());
                push_text(&mut out, ": held ");
                push_decimal(&mut out, held);
                push_text(&mut out, ", released ");
                push_decimal(&mut out, released);
                out
            },
            ResourceError::CeilingExceeded { axis, requested, ceiling } => {
                let mut out = "resource ceiling exceeded on ".to_owned();
                push_text(&mut out, axis.name());
                push_text(&mut out, ": requested ");
                push_decimal(&mut out, requested);
                push_text(&mut out, ", ceiling ");
                push_decimal(&mut out, ceiling);
                out
            },
        }
    }
}

} // verus!
