//! Exact bounded quantile summaries for small statistics windows.
//!
//! This profile stores a canonical sorted multiset until its explicit ceiling.
//! Reaching that ceiling is a typed escalation signal; it never silently swaps
//! to an approximate representation with a different error contract.

use vstd::prelude::*;
use crate::text::{byte_list, decimal, push_bytes8, push_decimal, push_text};
use vstd::relations::{sorted_by, total_ordering};
use vstd::multiset::Multiset;
use vstd::seq_lib::{lemma_sorted_unique, lemma_multiset_commutative};
use crate::codec::{
    be_u16, be_u64, be_u64_seq, lemma_be_u64_seq_layout, lemma_be_u64_round_trip, lemma_be_u16_round_trip,
    lemma_be_u64_bytes_round_trip, lemma_be_u16_bytes_round_trip, push_u16, push_u64, read_u16_at, read_u64_at,
    field_u16, field_u64, leading_eight, bytes_equal, extend_bytes, u64_to_usize,
};

verus! {

const CANONICAL_VERSION: u16 = 1;

const CANONICAL_HEADER_BYTES: usize = 26;

const VALUE_BYTES: usize = 8;

/// The eight-byte format discriminator `FGDBEQS1`.
pub open spec fn exact_quantile_magic() -> Seq<u8> {
    seq![0x46u8, 0x47u8, 0x44u8, 0x42u8, 0x45u8, 0x51u8, 0x53u8, 0x31u8]
}

fn magic_bytes() -> (magic: [u8; 8])
    ensures
        magic@ == exact_quantile_magic(),
{
    let magic = [0x46u8, 0x47u8, 0x44u8, 0x42u8, 0x45u8, 0x51u8, 0x53u8, 0x31u8];
    assert(magic@ =~= exact_quantile_magic());
    magic
}

/// Caller-owned admission bounds for a canonical exact-quantile value.
///
/// The encoded ceiling remains part of merge identity, while these limits
/// independently cap work and memory before any decoded state is allocated.
#[derive(Clone, Copy, Debug, Eq, PartialEq, Structural)]
pub struct ExactQuantileDecodeLimits {
    /// Largest accepted profile or concrete multiset length.
    pub max_observations: usize,
    /// Largest complete canonical value.
    pub max_encoded_bytes: usize,
}

impl ExactQuantileDecodeLimits {
    /// Conservative crate-level admission policy for small statistics
    /// windows: `2^20` observations and the bytes of their encoding.
    pub fn conservative() -> (limits: Self)
        ensures
            limits.max_observations == 1048576,
            limits.max_encoded_bytes == 26 + 8 * 1048576,
    {
        ExactQuantileDecodeLimits { max_observations: 1048576, max_encoded_bytes: 8388634 }
    }
}

/// Typed exact-summary transition failure.
#[derive(Clone, Copy, Debug, Eq, PartialEq, Structural)]
pub enum ExactQuantileError {
    /// Adding observations would exceed the immutable profile ceiling.
    ObservationLimitExceeded {
        /// Attempted completed length.
        attempted: usize,
        /// Immutable profile ceiling.
        maximum: usize,
    },
    /// Length arithmetic exceeded the platform index domain.
    LengthOverflow,
    /// The allocator rejected a checked reservation.
    AllocationFailed {
        /// Values requested for the replacement representation.
        requested: usize,
    },
    /// Merge operands have different ceilings.
    ProfileMismatch {
        /// Receiver ceiling.
        left_maximum: usize,
        /// Other ceiling.
        right_maximum: usize,
    },
    /// The requested value does not occur in the multiset.
    MissingObservation {
        /// Value the caller attempted to remove.
        value: u64,
    },
    /// A rational quantile must satisfy `denominator > 0` and
    /// `numerator <= denominator`.
    InvalidQuantile {
        /// Requested numerator.
        numerator: u64,
        /// Requested denominator.
        denominator: u64,
    },
}

/// Strict canonical-codec failure.
#[derive(Clone, Copy, Debug, Eq, PartialEq)]
pub enum ExactQuantileCodecError {
    /// A platform-sized field cannot be represented canonically.
    IntegerUnrepresentable,
    /// Exact encoded-size arithmetic overflowed.
    LengthOverflow,
    /// The allocator rejected the exact value or byte reservation.
    AllocationFailed {
        /// Requested element or byte count.
        requested: usize,
    },
    /// The eight-byte format discriminator did not match.
    MagicMismatch {
        /// Bytes found at the format discriminator.
        actual: [u8; 8],
    },
    /// The encoded version is unsupported.
    UnsupportedVersion {
        /// Version found in the input.
        actual: u16,
    },
    /// Input ended before a complete field could be read.
    Truncated {
        /// Byte offset of the field.
        offset: usize,
        /// Bytes needed for the field.
        needed: usize,
        /// Bytes remaining at the offset.
        remaining: usize,
    },
    /// Input contains bytes after the one canonical value.
    TrailingBytes {
        /// First trailing byte.
        offset: usize,
        /// Number of trailing bytes.
        remaining: usize,
    },
    /// The encoded multiset exceeds its immutable profile ceiling.
    ObservationLimitExceeded {
        /// Encoded multiset length.
        actual: usize,
        /// Encoded profile ceiling.
        maximum: usize,
    },
    /// Values are not in canonical nondecreasing order.
    ValuesOutOfOrder {
        /// First invalid index.
        index: usize,
        /// Preceding value.
        previous: u64,
        /// Current value.
        current: u64,
    },
    /// The complete encoded value exceeds the caller-owned byte budget.
    EncodedByteLimitExceeded {
        /// Input byte length.
        actual: usize,
        /// Caller-owned byte ceiling.
        maximum: usize,
    },
    /// The encoded profile or multiset exceeds the caller-owned value budget.
    DecodeObservationLimitExceeded {
        /// Encoded ceiling or concrete multiset length.
        actual: usize,
        /// Caller-owned observation ceiling.
        maximum: usize,
    },
    /// The encoded profile is not the registry-selected profile.
    ProfileMismatch {
        /// Ceiling selected by trusted metadata.
        expected_max_observations: usize,
        /// Ceiling found in the canonical value.
        actual_max_observations: usize,
    },
}

/// Values in nondecreasing order.
pub open spec fn nondecreasing(s: Seq<u64>) -> bool {
    forall|i: int, j: int| 0 <= i <= j < s.len() ==> s[i] <= s[j]
}

/// `result` is the sorted multiset union of `a` and `b`.
pub open spec fn is_sorted_merge(result: Seq<u64>, a: Seq<u64>, b: Seq<u64>) -> bool {
    &&& nondecreasing(result)
    &&& result.to_multiset() == a.to_multiset().add(b.to_multiset())
}

/// Number of values not above `value`: where it is inserted.
pub open spec fn insertion_point(s: Seq<u64>, value: u64) -> int {
    s.filter(|x: u64| x <= value).len() as int
}

/// Canonical encoding of a summary with the given ceiling and values.
pub open spec fn exact_quantile_canonical_bytes(max_observations: usize, values: Seq<u64>) -> Seq<u8> {
    exact_quantile_magic() + be_u16(1) + be_u64(max_observations as u64) + be_u64(values.len() as u64)
        + be_u64_seq(values)
}

/// The `count` values a byte string holds after its 26-byte header.
pub open spec fn payload_values(bytes: Seq<u8>, count: nat) -> Seq<u64> {
    Seq::new(count, |i: int| field_u64(bytes, 26 + 8 * i))
}

/// Index of the first value below its predecessor, or the length when the
/// values are in order.
pub open spec fn first_descent(s: Seq<u64>) -> int
    decreases s.len(),
{
    if s.len() <= 1 {
        s.len() as int
    } else if first_descent(s.drop_last()) < s.len() - 1 {
        first_descent(s.drop_last())
    } else if s[s.len() - 2] > s[s.len() - 1] {
        s.len() - 1
    } else {
        s.len() as int
    }
}

/// Index of the rational lower quantile `numerator / denominator` among
/// `count > 0` ordered observations.
pub open spec fn quantile_index(numerator: u64, denominator: u64, count: nat) -> int {
    (numerator * (count - 1)) / (denominator as int)
}

proof fn lemma_leq_total_ordering()
    ensures
        total_ordering(|a: u64, b: u64| a <= b),
{
}

/// Two nondecreasing sequences with the same multiset of values are equal:
/// a summary's state is determined by the multiset it holds, whatever order
/// the values arrived in.
pub proof fn law_canonical_order(a: Seq<u64>, b: Seq<u64>)
    requires
        nondecreasing(a),
        nondecreasing(b),
        a.to_multiset() == b.to_multiset(),
    ensures
        a == b,
{
    let leq = |x: u64, y: u64| x <= y;
    lemma_leq_total_ordering();
    assert(sorted_by(a, leq));
    assert(sorted_by(b, leq));
    lemma_sorted_unique(a, b, leq);
}

/// Merging is commutative.
pub proof fn law_merge_commutes(a: Seq<u64>, b: Seq<u64>, ab: Seq<u64>, ba: Seq<u64>)
    requires
        is_sorted_merge(ab, a, b),
        is_sorted_merge(ba, b, a),
    ensures
        ab == ba,
{
    assert(a.to_multiset().add(b.to_multiset()) =~= b.to_multiset().add(a.to_multiset()));
    law_canonical_order(ab, ba);
}

/// Merging is associative.
pub proof fn law_merge_associates(
    a: Seq<u64>,
    b: Seq<u64>,
    c: Seq<u64>,
    ab: Seq<u64>,
    ab_c: Seq<u64>,
    bc: Seq<u64>,
    a_bc: Seq<u64>,
)
    requires
        is_sorted_merge(ab, a, b),
        is_sorted_merge(ab_c, ab, c),
        is_sorted_merge(bc, b, c),
        is_sorted_merge(a_bc, a, bc),
    ensures
        ab_c == a_bc,
{
    assert(a.to_multiset().add(b.to_multiset()).add(c.to_multiset()) =~= a.to_multiset().add(
        b.to_multiset().add(c.to_multiset()),
    ));
    law_canonical_order(ab_c, a_bc);
}

/// Removing a value right after observing it restores the summary.
pub proof fn law_remove_undoes_observe(before: Seq<u64>, observed: Seq<u64>, after: Seq<u64>, value: u64)
    requires
        nondecreasing(before),
        nondecreasing(after),
        observed.to_multiset() == before.to_multiset().insert(value),
        after.to_multiset() == observed.to_multiset().remove(value),
    ensures
        after == before,
{
    assert(before.to_multiset().insert(value).remove(value) =~= before.to_multiset());
    law_canonical_order(after, before);
}

/// The canonical encoding of a summary reads back its ceiling, length and
/// values: decoding an encoding gives the summary back.
pub proof fn law_canonical_round_trip(max_observations: usize, values: Seq<u64>)
    ensures
        exact_quantile_canonical_bytes(max_observations, values).len() == 26 + 8 * values.len(),
        exact_quantile_canonical_bytes(max_observations, values).subrange(0, 8) == exact_quantile_magic(),
        field_u16(exact_quantile_canonical_bytes(max_observations, values), 8) == 1,
        field_u64(exact_quantile_canonical_bytes(max_observations, values), 10) == max_observations as u64,
        field_u64(exact_quantile_canonical_bytes(max_observations, values), 18) == values.len() as u64,
        payload_values(exact_quantile_canonical_bytes(max_observations, values), values.len()) == values,
{
    let bytes = exact_quantile_canonical_bytes(max_observations, values);
    lemma_be_u64_seq_layout(values);
    lemma_be_u16_round_trip(1);
    lemma_be_u64_round_trip(max_observations as u64);
    lemma_be_u64_round_trip(values.len() as u64);
    assert(bytes.subrange(0, 8) =~= exact_quantile_magic());
    assert(bytes.subrange(8, 10) =~= be_u16(1));
    assert(bytes.subrange(10, 18) =~= be_u64(max_observations as u64));
    assert(bytes.subrange(18, 26) =~= be_u64(values.len() as u64));
    let payload = be_u64_seq(values);
    assert forall|i: int| 0 <= i < values.len() implies #[trigger] payload_values(bytes, values.len())[i]
        == values[i] by {
        assert(bytes.subrange(26 + 8 * i, 26 + 8 * i + 8) =~= payload.subrange(8 * i, 8 * i + 8));
        lemma_be_u64_round_trip(values[i]);
    }
    assert(payload_values(bytes, values.len()) =~= values);
}

proof fn lemma_first_descent(s: Seq<u64>)
    ensures
        0 <= first_descent(s) <= s.len(),
        s.len() > 0 ==> first_descent(s) >= 1,
        forall|k: int| 1 <= k < first_descent(s) ==> #[trigger] s[k - 1] <= s[k],
        first_descent(s) < s.len() ==> s[first_descent(s) - 1] > s[first_descent(s)],
    decreases s.len(),
{
    if s.len() > 1 {
        lemma_first_descent(s.drop_last());
        let p = s.drop_last();
        assert forall|k: int| 1 <= k < first_descent(s) implies #[trigger] s[k - 1] <= s[k] by {
            if k < s.len() - 1 {
                assert(s[k - 1] == p[k - 1] && s[k] == p[k]);
            }
        }
    }
}

proof fn lemma_adjacent_sorted(s: Seq<u64>)
    requires
        forall|k: int| 1 <= k < s.len() ==> #[trigger] s[k - 1] <= s[k],
    ensures
        nondecreasing(s),
    decreases s.len(),
{
    if s.len() > 1 {
        let p = s.drop_last();
        assert forall|k: int| 1 <= k < p.len() implies #[trigger] p[k - 1] <= p[k] by {
            assert(s[k - 1] <= s[k]);
        }
        lemma_adjacent_sorted(p);
        assert forall|i: int, j: int| 0 <= i <= j < s.len() implies s[i] <= s[j] by {
            if j == s.len() - 1 && i < j {
                assert(p[i] <= p[j - 1]);
                assert(s[j - 1] <= s[j]);
            } else if i < j {
                assert(p[i] <= p[j]);
            }
        }
    }
}

proof fn lemma_sorted_filter_len(s: Seq<u64>, value: u64, p: int)
    requires
        0 <= p <= s.len(),
        forall|i: int| 0 <= i < p ==> #[trigger] s[i] <= value,
        forall|i: int| p <= i < s.len() ==> #[trigger] s[i] > value,
    ensures
        s.filter(|x: u64| x <= value).len() == p,
    decreases s.len(),
{
    let f = |x: u64| x <= value;
    reveal(Seq::filter);
    if s.len() > 0 {
        if p == s.len() {
            lemma_sorted_filter_len(s.drop_last(), value, p - 1);
        } else {
            lemma_sorted_filter_len(s.drop_last(), value, p);
        }
    }
}

/// Canonical sorted multiset with exact selection and deletion.
#[derive(Debug, Eq, PartialEq)]
pub struct ExactQuantileSketch {
    max_observations: usize,
    values: Vec<u64>,
}

impl Clone for ExactQuantileSketch {
    fn clone(&self) -> (copy: Self)
        ensures
            copy.spec_max() == self.spec_max(),
            copy.spec_values() == self.spec_values(),
    {
        proof {
            use_type_invariant(self);
        }
        let values = self.values.clone();
        proof {
            assert(values@ =~= self.values@);
        }
        ExactQuantileSketch { max_observations: self.max_observations, values }
    }
}

impl ExactQuantileSketch {
    #[verifier::type_invariant]
    spec fn well_formed(self) -> bool {
        &&& nondecreasing(self.values@)
        &&& self.values@.len() <= self.max_observations
    }

    /// Immutable observation ceiling.
    pub closed spec fn spec_max(self) -> usize {
        self.max_observations
    }

    /// Canonical nondecreasing multiset state.
    pub closed spec fn spec_values(self) -> Seq<u64> {
        self.values@
    }

    /// Every summary holds a nondecreasing sequence within its ceiling.
    pub fn lemma_canonical(&self)
        ensures
            nondecreasing(self.spec_values()),
            self.spec_values().len() <= self.spec_max(),
    {
        proof {
            use_type_invariant(self);
        }
    }

    /// Creates an empty exact summary.
    pub fn new(max_observations: usize) -> (sketch: Self)
        ensures
            sketch.spec_max() == max_observations,
            sketch.spec_values() == Seq::<u64>::empty(),
    {
        ExactQuantileSketch { max_observations, values: Vec::new() }
    }

    /// Creates an empty summary with a checked allocation hint.
    ///
    /// The allocator may refuse the reservation; that is the only failure
    /// within the ceiling.
    pub fn try_with_capacity(max_observations: usize, capacity: usize) -> (result: Result<Self, ExactQuantileError>)
        ensures
            capacity > max_observations ==> result == Err::<Self, ExactQuantileError>(
                ExactQuantileError::ObservationLimitExceeded { attempted: capacity, maximum: max_observations },
            ),
            capacity <= max_observations ==> match result {
                Ok(s) => s.spec_max() == max_observations && s.spec_values() == Seq::<u64>::empty(),
                Err(e) => e == ExactQuantileError::AllocationFailed { requested: capacity },
            },
    {
        if capacity > max_observations {
            return Err(ExactQuantileError::ObservationLimitExceeded { attempted: capacity, maximum: max_observations });
        }
        let mut values: Vec<u64> = Vec::new();
        match values.try_reserve(capacity) {
            Ok(()) => {},
            Err(_) => {
                return Err(ExactQuantileError::AllocationFailed { requested: capacity });
            },
        }
        Ok(ExactQuantileSketch { max_observations, values })
    }

    /// Immutable observation ceiling.
    pub fn max_observations(&self) -> (maximum: usize)
        ensures
            maximum == self.spec_max(),
    {
        self.max_observations
    }

    /// Current multiset cardinality, including duplicates.
    pub fn len(&self) -> (count: usize)
        ensures
            count == self.spec_values().len(),
    {
        self.values.len()
    }

    /// Whether the multiset is empty.
    pub fn is_empty(&self) -> (empty: bool)
        ensures
            empty == (self.spec_values().len() == 0),
    {
        self.values.len() == 0
    }

    /// Canonical nondecreasing multiset state.
    pub fn canonical_values(&self) -> (values: &[u64])
        ensures
            values@ == self.spec_values(),
    {
        self.values.as_slice()
    }

    /// Encodes the complete ceiling and sorted multiset into canonical bytes.
    pub fn try_to_canonical_bytes(&self) -> (result: Result<Vec<u8>, ExactQuantileCodecError>)
        ensures
            26 + 8 * self.spec_values().len() > usize::MAX ==> result == Err::<Vec<u8>, ExactQuantileCodecError>(
                ExactQuantileCodecError::LengthOverflow,
            ),
            26 + 8 * self.spec_values().len() <= usize::MAX ==> match result {
                Ok(bytes) => bytes@ == exact_quantile_canonical_bytes(self.spec_max(), self.spec_values()),
                Err(e) => e == ExactQuantileCodecError::AllocationFailed {
                    requested: (26 + 8 * self.spec_values().len()) as usize,
                },
            },
    {
        proof {
            use_type_invariant(self);
        }
        let payload_bytes = match self.values.len().checked_mul(VALUE_BYTES) {
            Some(v) => v,
            None => {
                return Err(ExactQuantileCodecError::LengthOverflow);
            },
        };
        let encoded_len = match CANONICAL_HEADER_BYTES.checked_add(payload_bytes) {
            Some(v) => v,
            None => {
                return Err(ExactQuantileCodecError::LengthOverflow);
            },
        };
        let mut bytes: Vec<u8> = Vec::new();
        match bytes.try_reserve(encoded_len) {
            Ok(()) => {},
            Err(_) => {
                return Err(ExactQuantileCodecError::AllocationFailed { requested: encoded_len });
            },
        }
        let magic = magic_bytes();
        extend_bytes(&mut bytes, &magic);
        push_u16(&mut bytes, CANONICAL_VERSION);
        push_u64(&mut bytes, self.max_observations as u64);
        push_u64(&mut bytes, self.values.len() as u64);
        let ghost header = bytes@;
        let mut index: usize = 0;
        while index < self.values.len()
            invariant
                index <= self.values@.len(),
                bytes@ == header + be_u64_seq(self.values@.subrange(0, index as int)),
            decreases self.values@.len() - index,
        {
            push_u64(&mut bytes, self.values[index]);
            proof {
                let s = self.values@.subrange(0, index + 1);
                assert(s.drop_last() =~= self.values@.subrange(0, index as int));
                assert(bytes@ =~= header + be_u64_seq(s));
            }
            index = index + 1;
        }
        proof {
            assert(self.values@.subrange(0, self.values@.len() as int) =~= self.values@);
        }
        Ok(bytes)
    }

    /// Decodes exactly one canonical sorted multiset.
    ///
    /// The checks run in a fixed order and the first that fails names the
    /// error; the byte length and immutable ceiling are checked before any
    /// storage for decoded observations is reserved.
    pub fn try_from_canonical_bytes(
        bytes: &[u8],
        expected_max_observations: usize,
        limits: ExactQuantileDecodeLimits,
    ) -> (result: Result<Self, ExactQuantileCodecError>)
        ensures
            ({
                let n = bytes@.len();
                let maximum = field_u64(bytes@, 10);
                let count = field_u64(bytes@, 18);
                if n > limits.max_encoded_bytes {
                    result == Err::<Self, ExactQuantileCodecError>(
                        ExactQuantileCodecError::EncodedByteLimitExceeded {
                            actual: n as usize,
                            maximum: limits.max_encoded_bytes,
                        },
                    )
                } else if n < 8 {
                    result == Err::<Self, ExactQuantileCodecError>(
                        ExactQuantileCodecError::Truncated { offset: 0, needed: 8, remaining: n as usize },
                    )
                } else if bytes@.subrange(0, 8) != exact_quantile_magic() {
                    result matches Err(ExactQuantileCodecError::MagicMismatch { actual }) && actual@ == bytes@.subrange(
                        0,
                        8,
                    )
                } else if n < 10 {
                    result == Err::<Self, ExactQuantileCodecError>(
                        ExactQuantileCodecError::Truncated { offset: 8, needed: 2, remaining: (n - 8) as usize },
                    )
                } else if field_u16(bytes@, 8) != 1 {
                    result == Err::<Self, ExactQuantileCodecError>(
                        ExactQuantileCodecError::UnsupportedVersion { actual: field_u16(bytes@, 8) },
                    )
                } else if n < 18 {
                    result == Err::<Self, ExactQuantileCodecError>(
                        ExactQuantileCodecError::Truncated { offset: 10, needed: 8, remaining: (n - 10) as usize },
                    )
                } else if maximum > usize::MAX {
                    result == Err::<Self, ExactQuantileCodecError>(ExactQuantileCodecError::IntegerUnrepresentable)
                } else if n < 26 {
                    result == Err::<Self, ExactQuantileCodecError>(
                        ExactQuantileCodecError::Truncated { offset: 18, needed: 8, remaining: (n - 18) as usize },
                    )
                } else if count > usize::MAX {
                    result == Err::<Self, ExactQuantileCodecError>(ExactQuantileCodecError::IntegerUnrepresentable)
                } else if maximum != expected_max_observations {
                    result == Err::<Self, ExactQuantileCodecError>(
                        ExactQuantileCodecError::ProfileMismatch {
                            expected_max_observations,
                            actual_max_observations: maximum as usize,
                        },
                    )
                } else if maximum > limits.max_observations {
                    result == Err::<Self, ExactQuantileCodecError>(
                        ExactQuantileCodecError::DecodeObservationLimitExceeded {
                            actual: maximum as usize,
                            maximum: limits.max_observations,
                        },
                    )
                } else if count > limits.max_observations {
                    result == Err::<Self, ExactQuantileCodecError>(
                        ExactQuantileCodecError::DecodeObservationLimitExceeded {
                            actual: count as usize,
                            maximum: limits.max_observations,
                        },
                    )
                } else if count > maximum {
                    result == Err::<Self, ExactQuantileCodecError>(
                        ExactQuantileCodecError::ObservationLimitExceeded {
                            actual: count as usize,
                            maximum: maximum as usize,
                        },
                    )
                } else if 26 + 8 * count > usize::MAX {
                    result == Err::<Self, ExactQuantileCodecError>(ExactQuantileCodecError::LengthOverflow)
                } else if n < 26 + 8 * count {
                    result == Err::<Self, ExactQuantileCodecError>(
                        ExactQuantileCodecError::Truncated {
                            offset: 26,
                            needed: (8 * count) as usize,
                            remaining: (n - 26) as usize,
                        },
                    )
                } else if n > 26 + 8 * count {
                    result == Err::<Self, ExactQuantileCodecError>(
                        ExactQuantileCodecError::TrailingBytes {
                            offset: (26 + 8 * count) as usize,
                            remaining: (n - 26 - 8 * count) as usize,
                        },
                    )
                } else {
                    let values = payload_values(bytes@, count as nat);
                    let d = first_descent(values);
                    if d < count {
                        result == Err::<Self, ExactQuantileCodecError>(
                            ExactQuantileCodecError::ValuesOutOfOrder {
                                index: d as usize,
                                previous: values[d - 1],
                                current: values[d],
                            },
                        )
                    } else {
                        match result {
                            Ok(s) => s.spec_max() == maximum && s.spec_values() == values && bytes@
                                == exact_quantile_canonical_bytes(s.spec_max(), s.spec_values()),
                            Err(e) => e == ExactQuantileCodecError::AllocationFailed { requested: count as usize },
                        }
                    }
                }
            }),
    {
        let n = bytes.len();
        if n > limits.max_encoded_bytes {
            return Err(ExactQuantileCodecError::EncodedByteLimitExceeded { actual: n, maximum: limits.max_encoded_bytes });
        }
        if n < 8 {
            return Err(ExactQuantileCodecError::Truncated { offset: 0, needed: 8, remaining: n });
        }
        let magic = leading_eight(bytes);
        let expected_magic = magic_bytes();
        if !bytes_equal(&magic, &expected_magic) {
            return Err(ExactQuantileCodecError::MagicMismatch { actual: magic });
        }
        if n < 10 {
            return Err(ExactQuantileCodecError::Truncated { offset: 8, needed: 2, remaining: n - 8 });
        }
        let version = read_u16_at(bytes, 8);
        if version != CANONICAL_VERSION {
            return Err(ExactQuantileCodecError::UnsupportedVersion { actual: version });
        }
        if n < 18 {
            return Err(ExactQuantileCodecError::Truncated { offset: 10, needed: 8, remaining: n - 10 });
        }
        let max_observations = match u64_to_usize(read_u64_at(bytes, 10)) {
            Some(v) => v,
            None => {
                return Err(ExactQuantileCodecError::IntegerUnrepresentable);
            },
        };
        if n < 26 {
            return Err(ExactQuantileCodecError::Truncated { offset: 18, needed: 8, remaining: n - 18 });
        }
        let value_count = match u64_to_usize(read_u64_at(bytes, 18)) {
            Some(v) => v,
            None => {
                return Err(ExactQuantileCodecError::IntegerUnrepresentable);
            },
        };
        if max_observations != expected_max_observations {
            return Err(
                ExactQuantileCodecError::ProfileMismatch {
                    expected_max_observations,
                    actual_max_observations: max_observations,
                },
            );
        }
        if max_observations > limits.max_observations {
            return Err(
                ExactQuantileCodecError::DecodeObservationLimitExceeded {
                    actual: max_observations,
                    maximum: limits.max_observations,
                },
            );
        }
        if value_count > limits.max_observations {
            return Err(
                ExactQuantileCodecError::DecodeObservationLimitExceeded {
                    actual: value_count,
                    maximum: limits.max_observations,
                },
            );
        }
        if value_count > max_observations {
            return Err(ExactQuantileCodecError::ObservationLimitExceeded { actual: value_count, maximum: max_observations });
        }
        let payload_bytes = match value_count.checked_mul(VALUE_BYTES) {
            Some(v) => v,
            None => {
                return Err(ExactQuantileCodecError::LengthOverflow);
            },
        };
        let expected_len = match CANONICAL_HEADER_BYTES.checked_add(payload_bytes) {
            Some(v) => v,
            None => {
                return Err(ExactQuantileCodecError::LengthOverflow);
            },
        };
        if n < expected_len {
            return Err(ExactQuantileCodecError::Truncated { offset: 26, needed: payload_bytes, remaining: n - 26 });
        }
        if n > expected_len {
            return Err(ExactQuantileCodecError::TrailingBytes { offset: expected_len, remaining: n - expected_len });
        }
        let values = match read_sorted_payload(bytes, value_count) {
            Ok(values) => values,
            Err(e) => {
                return Err(e);
            },
        };
        proof {
            lemma_be_u16_bytes_round_trip(bytes@.subrange(8, 10));
            lemma_be_u64_bytes_round_trip(bytes@.subrange(10, 18));
            lemma_be_u64_bytes_round_trip(bytes@.subrange(18, 26));
            assert(bytes@ =~= exact_quantile_canonical_bytes(max_observations, values@));
        }
        Ok(ExactQuantileSketch { max_observations, values })
    }

    /// Inserts one value while preserving canonical order.
    ///
    /// Limit and allocation failures occur before the multiset changes.
    pub fn try_observe(&mut self, value: u64) -> (result: Result<(), ExactQuantileError>)
        ensures
            old(self).spec_values().len() == usize::MAX ==> result == Err::<(), ExactQuantileError>(
                ExactQuantileError::LengthOverflow,
            ),
            old(self).spec_values().len() < usize::MAX && old(self).spec_values().len() + 1 > old(self).spec_max()
                ==> result == Err::<(), ExactQuantileError>(
                ExactQuantileError::ObservationLimitExceeded {
                    attempted: (old(self).spec_values().len() + 1) as usize,
                    maximum: old(self).spec_max(),
                },
            ),
            old(self).spec_values().len() + 1 <= old(self).spec_max() ==> match result {
                Ok(()) => {
                    &&& final(self).spec_max() == old(self).spec_max()
                    &&& final(self).spec_values() == old(self).spec_values().insert(
                        insertion_point(old(self).spec_values(), value),
                        value,
                    )
                    &&& final(self).spec_values().to_multiset() == old(self).spec_values().to_multiset().insert(value)
                    &&& nondecreasing(final(self).spec_values())
                },
                Err(e) => e == ExactQuantileError::AllocationFailed {
                    requested: (old(self).spec_values().len() + 1) as usize,
                },
            },
            result is Err ==> *final(self) == *old(self),
    {
        proof {
            use_type_invariant(&*self);
        }
        let attempted = match self.values.len().checked_add(1) {
            Some(v) => v,
            None => {
                return Err(ExactQuantileError::LengthOverflow);
            },
        };
        if attempted > self.max_observations {
            return Err(ExactQuantileError::ObservationLimitExceeded { attempted, maximum: self.max_observations });
        }
        let mut values = self.values.clone();
        proof {
            assert(values@ =~= self.values@);
        }
        match values.try_reserve(1) {
            Ok(()) => {},
            Err(_) => {
                return Err(ExactQuantileError::AllocationFailed { requested: attempted });
            },
        }
        let insertion = partition_point(values.as_slice(), value);
        let ghost old_values = values@;
        let ghost inserted = old_values.insert(insertion as int, value);
        proof {
            lemma_sorted_filter_len(old_values, value, insertion as int);
            vstd::seq_lib::to_multiset_insert(old_values, insertion as int, value);
            assert forall|i: int, j: int| 0 <= i <= j < inserted.len() implies inserted[i] <= inserted[j] by {
                if i < insertion && j > insertion {
                    assert(old_values[i] <= old_values[j - 1]);
                } else if j > insertion && i > insertion {
                    assert(old_values[i - 1] <= old_values[j - 1]);
                } else if i < insertion && j < insertion {
                    assert(old_values[i] <= old_values[j]);
                }
            }
        }
        values.insert(insertion, value);
        *self = ExactQuantileSketch { max_observations: self.max_observations, values };
        Ok(())
    }

    /// Removes one occurrence of `value`.
    pub fn try_remove(&mut self, value: u64) -> (result: Result<(), ExactQuantileError>)
        ensures
            result is Ok <==> old(self).spec_values().contains(value),
            result is Ok ==> {
                &&& final(self).spec_max() == old(self).spec_max()
                &&& final(self).spec_values().to_multiset() == old(self).spec_values().to_multiset().remove(value)
                &&& nondecreasing(final(self).spec_values())
                &&& exists|i: int|
                    0 <= i < old(self).spec_values().len() && old(self).spec_values()[i] == value && final(self).spec_values()
                        == old(self).spec_values().remove(i)
            },
            result is Err ==> *final(self) == *old(self) && result == Err::<(), ExactQuantileError>(
                ExactQuantileError::MissingObservation { value },
            ),
    {
        proof {
            use_type_invariant(&*self);
        }
        let index = lower_bound(self.values.as_slice(), value);
        if index >= self.values.len() || self.values[index] != value {
            proof {
                if self.values@.contains(value) {
                    let i = choose|i: int| 0 <= i < self.values@.len() && self.values@[i] == value;
                    if i < index {
                    } else {
                        assert(self.values@[index as int] <= self.values@[i]);
                    }
                }
            }
            return Err(ExactQuantileError::MissingObservation { value });
        }
        let mut values = self.values.clone();
        proof {
            assert(values@ =~= self.values@);
        }
        let ghost old_values = values@;
        let ghost removed = old_values.remove(index as int);
        proof {
            vstd::seq_lib::to_multiset_remove(old_values, index as int);
            assert forall|i: int, j: int| 0 <= i <= j < removed.len() implies removed[i] <= removed[j] by {
                if i < index && j >= index {
                    assert(old_values[i] <= old_values[j + 1]);
                } else if i >= index {
                    assert(old_values[i + 1] <= old_values[j + 1]);
                } else {
                    assert(old_values[i] <= old_values[j]);
                }
            }
        }
        values.remove(index);
        proof {
            assert(old_values[index as int] == value && values@ == old_values.remove(index as int));
            assert(values@.to_multiset() == old_values.to_multiset().remove(value));
            assert(nondecreasing(values@));
            assert(exists|i: int| 0 <= i < old_values.len() && old_values[i] == value && values@ == old_values.remove(i));
        }
        *self = ExactQuantileSketch { max_observations: self.max_observations, values };
        Ok(())
    }

    /// Atomically merges another summary with the identical ceiling.
    pub fn try_merge(&mut self, other: &Self) -> (result: Result<(), ExactQuantileError>)
        ensures
            old(self).spec_max() != other.spec_max() ==> result == Err::<(), ExactQuantileError>(
                ExactQuantileError::ProfileMismatch {
                    left_maximum: old(self).spec_max(),
                    right_maximum: other.spec_max(),
                },
            ),
            old(self).spec_max() == other.spec_max() && old(self).spec_values().len() + other.spec_values().len()
                > usize::MAX ==> result == Err::<(), ExactQuantileError>(ExactQuantileError::LengthOverflow),
            old(self).spec_max() == other.spec_max() && old(self).spec_values().len() + other.spec_values().len()
                <= usize::MAX && old(self).spec_values().len() + other.spec_values().len() > old(self).spec_max()
                ==> result == Err::<(), ExactQuantileError>(
                ExactQuantileError::ObservationLimitExceeded {
                    attempted: (old(self).spec_values().len() + other.spec_values().len()) as usize,
                    maximum: old(self).spec_max(),
                },
            ),
            old(self).spec_max() == other.spec_max() && old(self).spec_values().len() + other.spec_values().len()
                <= old(self).spec_max() ==> match result {
                Ok(()) => {
                    &&& final(self).spec_max() == old(self).spec_max()
                    &&& is_sorted_merge(final(self).spec_values(), old(self).spec_values(), other.spec_values())
                },
                Err(e) => e == ExactQuantileError::AllocationFailed {
                    requested: (old(self).spec_values().len() + other.spec_values().len()) as usize,
                },
            },
            result is Err ==> *final(self) == *old(self),
    {
        proof {
            use_type_invariant(&*self);
            use_type_invariant(other);
        }
        if self.max_observations != other.max_observations {
            return Err(
                ExactQuantileError::ProfileMismatch {
                    left_maximum: self.max_observations,
                    right_maximum: other.max_observations,
                },
            );
        }
        let merged_len = match self.values.len().checked_add(other.values.len()) {
            Some(v) => v,
            None => {
                return Err(ExactQuantileError::LengthOverflow);
            },
        };
        if merged_len > self.max_observations {
            return Err(ExactQuantileError::ObservationLimitExceeded { attempted: merged_len, maximum: self.max_observations });
        }
        let mut merged: Vec<u64> = Vec::new();
        match merged.try_reserve(merged_len) {
            Ok(()) => {},
            Err(_) => {
                return Err(ExactQuantileError::AllocationFailed { requested: merged_len });
            },
        }
        merge_sorted_into(&mut merged, self.values.as_slice(), other.values.as_slice());
        *self = ExactQuantileSketch { max_observations: self.max_observations, values: merged };
        Ok(())
    }

    /// Returns the zero-based ordered observation.
    pub fn select(&self, ordinal: usize) -> (value: Option<u64>)
        ensures
            ordinal < self.spec_values().len() ==> value == Some(self.spec_values()[ordinal as int]),
            ordinal >= self.spec_values().len() ==> value is None,
    {
        if ordinal < self.values.len() {
            Some(self.values[ordinal])
        } else {
            None
        }
    }

    /// Returns the deterministic lower rational quantile.
    ///
    /// For `n` observations the selected index is
    /// `floor(numerator * (n - 1) / denominator)`, making `0/denominator` the
    /// minimum and `denominator/denominator` the maximum.
    pub fn quantile(&self, numerator: u64, denominator: u64) -> (result: Result<Option<u64>, ExactQuantileError>)
        ensures
            denominator == 0 || numerator > denominator ==> result == Err::<Option<u64>, ExactQuantileError>(
                ExactQuantileError::InvalidQuantile { numerator, denominator },
            ),
            denominator > 0 && numerator <= denominator && self.spec_values().len() == 0 ==> result == Ok::<
                Option<u64>,
                ExactQuantileError,
            >(None),
            denominator > 0 && numerator <= denominator && self.spec_values().len() > 0 ==> {
                &&& 0 <= quantile_index(numerator, denominator, self.spec_values().len()) < self.spec_values().len()
                &&& result == Ok::<Option<u64>, ExactQuantileError>(
                    Some(self.spec_values()[quantile_index(numerator, denominator, self.spec_values().len())]),
                )
            },
    {
        if denominator == 0 || numerator > denominator {
            return Err(ExactQuantileError::InvalidQuantile { numerator, denominator });
        }
        if self.values.len() == 0 {
            return Ok(None);
        }
        let last_index = self.values.len() - 1;
        proof {
            let l = last_index as int;
            let num = numerator as int;
            let den = denominator as int;
            assert(num * l <= u64::MAX * usize::MAX) by (nonlinear_arith)
                requires
                    0 <= num <= u64::MAX,
                    0 <= l <= usize::MAX,
            ;
            assert(0 <= (num * l) / den <= l) by (nonlinear_arith)
                requires
                    0 <= num <= den,
                    den > 0,
                    0 <= l,
            ;
        }
        let scaled = (numerator as u128) * (last_index as u128);
        let index = (scaled / (denominator as u128)) as usize;
        Ok(Some(self.values[index]))
    }
}

/// Index of the first out-of-order value among the `count` values after
/// the header, or `count` when they are in order.
fn payload_descent(bytes: &[u8], count: usize) -> (index: usize)
    requires
        bytes@.len() == 26 + 8 * count,
        26 + 8 * count <= usize::MAX,
    ensures
        index == first_descent(payload_values(bytes@, count as nat)),
{
    let ghost payload = payload_values(bytes@, count as nat);
    proof {
        lemma_first_descent(payload);
    }
    if count == 0 {
        return 0;
    }
    let mut index: usize = 1;
    let mut previous: u64 = read_u64_at(bytes, 26);
    while index < count
        invariant
            bytes@.len() == 26 + 8 * count,
            26 + 8 * count <= usize::MAX,
            payload == payload_values(bytes@, count as nat),
            1 <= index <= count,
            previous == payload[index - 1],
            forall|k: int| 1 <= k < index ==> #[trigger] payload[k - 1] <= payload[k],
        decreases count - index,
    {
        let current = read_u64_at(bytes, 26 + 8 * index);
        if previous > current {
            proof {
                lemma_first_descent(payload);
                let d = first_descent(payload);
                if d < index {
                    assert(payload[d - 1] <= payload[d]);
                }
                if d > index {
                    assert(payload[index - 1] <= payload[index as int]);
                }
            }
            return index;
        }
        previous = current;
        index = index + 1;
    }
    proof {
        let d = first_descent(payload);
        if d < count {
            assert(payload[d - 1] <= payload[d]);
        }
    }
    count
}

/// Reads the `count` values after the header, in canonical order, into
/// fresh storage.
fn read_sorted_payload(bytes: &[u8], count: usize) -> (result: Result<Vec<u64>, ExactQuantileCodecError>)
    requires
        bytes@.len() == 26 + 8 * count,
        26 + 8 * count <= usize::MAX,
    ensures
        ({
            let values = payload_values(bytes@, count as nat);
            let d = first_descent(values);
            if d < count {
                result == Err::<Vec<u64>, ExactQuantileCodecError>(
                    ExactQuantileCodecError::ValuesOutOfOrder { index: d as usize, previous: values[d - 1], current: values[d] },
                )
            } else {
                match result {
                    Ok(v) => v@ == values && nondecreasing(v@) && bytes@.subrange(26, bytes@.len() as int) == be_u64_seq(v@),
                    Err(e) => e == ExactQuantileCodecError::AllocationFailed { requested: count },
                }
            }
        }),
{
    let ghost payload = payload_values(bytes@, count as nat);
    let descent = payload_descent(bytes, count);
    proof {
        lemma_first_descent(payload);
    }
    if descent < count {
        let previous = read_u64_at(bytes, 26 + 8 * (descent - 1));
        let current = read_u64_at(bytes, 26 + 8 * descent);
        return Err(ExactQuantileCodecError::ValuesOutOfOrder { index: descent, previous, current });
    }
    proof {
        lemma_adjacent_sorted(payload);
    }
    let mut values: Vec<u64> = Vec::new();
    match values.try_reserve(count) {
        Ok(()) => {},
        Err(_) => {
            return Err(ExactQuantileCodecError::AllocationFailed { requested: count });
        },
    }
    let mut k: usize = 0;
    while k < count
        invariant
            bytes@.len() == 26 + 8 * count,
            26 + 8 * count <= usize::MAX,
            payload == payload_values(bytes@, count as nat),
            k <= count,
            values@ == payload.subrange(0, k as int),
            bytes@.subrange(26, 26 + 8 * k) == be_u64_seq(values@),
        decreases count - k,
    {
        let offset = 26 + 8 * k;
        let value = read_u64_at(bytes, offset);
        let ghost before = values@;
        values.push(value);
        proof {
            lemma_be_u64_bytes_round_trip(bytes@.subrange(offset as int, offset + 8));
            assert(values@ =~= payload.subrange(0, k + 1));
            assert(values@.drop_last() =~= before);
            assert(bytes@.subrange(26, 26 + 8 * (k + 1)) =~= bytes@.subrange(26, 26 + 8 * k) + bytes@.subrange(
                offset as int,
                offset + 8,
            ));
        }
        k = k + 1;
    }
    proof {
        assert(values@ =~= payload);
    }
    Ok(values)
}

/// Number of leading values not above `value` in a nondecreasing slice.
fn partition_point(values: &[u64], value: u64) -> (point: usize)
    requires
        nondecreasing(values@),
    ensures
        point <= values@.len(),
        forall|i: int| 0 <= i < point ==> #[trigger] values@[i] <= value,
        forall|i: int| point <= i < values@.len() ==> #[trigger] values@[i] > value,
{
    let mut low: usize = 0;
    let mut high: usize = values.len();
    while low < high
        invariant
            nondecreasing(values@),
            low <= high <= values@.len(),
            forall|i: int| 0 <= i < low ==> #[trigger] values@[i] <= value,
            forall|i: int| high <= i < values@.len() ==> #[trigger] values@[i] > value,
        decreases high - low,
    {
        let middle = low + (high - low) / 2;
        if values[middle] <= value {
            proof {
                assert forall|i: int| 0 <= i < middle + 1 implies #[trigger] values@[i] <= value by {
                    assert(values@[i] <= values@[middle as int]);
                }
            }
            low = middle + 1;
        } else {
            proof {
                assert forall|i: int| middle <= i < values@.len() implies #[trigger] values@[i] > value by {
                    assert(values@[middle as int] <= values@[i]);
                }
            }
            high = middle;
        }
    }
    low
}

/// Index of the first value not below `value` in a nondecreasing slice.
fn lower_bound(values: &[u64], value: u64) -> (point: usize)
    requires
        nondecreasing(values@),
    ensures
        point <= values@.len(),
        forall|i: int| 0 <= i < point ==> #[trigger] values@[i] < value,
        forall|i: int| point <= i < values@.len() ==> #[trigger] values@[i] >= value,
{
    let mut low: usize = 0;
    let mut high: usize = values.len();
    while low < high
        invariant
            nondecreasing(values@),
            low <= high <= values@.len(),
            forall|i: int| 0 <= i < low ==> #[trigger] values@[i] < value,
            forall|i: int| high <= i < values@.len() ==> #[trigger] values@[i] >= value,
        decreases high - low,
    {
        let middle = low + (high - low) / 2;
        if values[middle] < value {
            proof {
                assert forall|i: int| 0 <= i < middle + 1 implies #[trigger] values@[i] < value by {
                    assert(values@[i] <= values@[middle as int]);
                }
            }
            low = middle + 1;
        } else {
            proof {
                assert forall|i: int| middle <= i < values@.len() implies #[trigger] values@[i] >= value by {
                    assert(values@[middle as int] <= values@[i]);
                }
            }
            high = middle;
        }
    }
    low
}

/// Merges two nondecreasing slices into one nondecreasing vector holding
/// both multisets; on ties the left value comes first.
fn merge_sorted_into(merged: &mut Vec<u64>, left: &[u64], right: &[u64])
    requires
        old(merged)@ == Seq::<u64>::empty(),
        nondecreasing(left@),
        nondecreasing(right@),
    ensures
        is_sorted_merge(final(merged)@, left@, right@),
        final(merged)@.len() == left@.len() + right@.len(),
{
    let mut i: usize = 0;
    let mut j: usize = 0;
    proof {
        assert(merged@ =~= left@.subrange(0, 0) + right@.subrange(0, 0));
    }
    while i < left.len() || j < right.len()
        invariant
            nondecreasing(left@),
            nondecreasing(right@),
            i <= left@.len(),
            j <= right@.len(),
            nondecreasing(merged@),
            merged@.len() == i + j,
            merged@.len() > 0 && i < left@.len() ==> merged@.last() <= left@[i as int],
            merged@.len() > 0 && j < right@.len() ==> merged@.last() <= right@[j as int],
            merged@.to_multiset() == (left@.subrange(0, i as int) + right@.subrange(0, j as int)).to_multiset(),
        decreases left@.len() + right@.len() - i - j,
    {
        let take_left = j >= right.len() || (i < left.len() && left[i] <= right[j]);
        let ghost before = merged@;
        if take_left {
            let value = left[i];
            merged.push(value);
            proof {
                let l0 = left@.subrange(0, i as int);
                let l1 = left@.subrange(0, i + 1);
                let r0 = right@.subrange(0, j as int);
                vstd::seq_lib::to_multiset_build(before, value);
                vstd::seq_lib::to_multiset_build(r0 + l0, value);
                assert(l1 =~= l0.push(value));
                assert(r0 + l1 =~= (r0 + l0).push(value));
                vstd::seq_lib::lemma_seq_union_to_multiset_commutative(l1, r0);
                vstd::seq_lib::lemma_seq_union_to_multiset_commutative(l0, r0);
                assert(merged@.to_multiset() =~= (l1 + r0).to_multiset());
                assert forall|a: int, b: int| 0 <= a <= b < merged@.len() implies merged@[a] <= merged@[b] by {
                    if b == merged@.len() - 1 && a < b {
                        assert(before[a] <= before.last());
                    } else if a < b {
                        assert(before[a] <= before[b]);
                    }
                }
            }
            i = i + 1;
        } else {
            let value = right[j];
            merged.push(value);
            proof {
                let l0 = left@.subrange(0, i as int);
                let r0 = right@.subrange(0, j as int);
                let r1 = right@.subrange(0, j + 1);
                vstd::seq_lib::to_multiset_build(before, value);
                vstd::seq_lib::to_multiset_build(l0 + r0, value);
                assert(l0 + r1 =~= (l0 + r0).push(value));
                assert(merged@.to_multiset() =~= (l0 + r1).to_multiset());
                assert forall|a: int, b: int| 0 <= a <= b < merged@.len() implies merged@[a] <= merged@[b] by {
                    if b == merged@.len() - 1 && a < b {
                        assert(before[a] <= before.last());
                    } else if a < b {
                        assert(before[a] <= before[b]);
                    }
                }
            }
            j = j + 1;
        }
    }
    proof {
        assert(left@.subrange(0, left@.len() as int) =~= left@);
        assert(right@.subrange(0, right@.len() as int) =~= right@);
        lemma_multiset_commutative(left@, right@);
    }
}

/// Diagnostic text of a quantile-summary failure.
pub open spec fn exact_quantile_error_text(error: ExactQuantileError) -> Seq<char> {
    match error {
        ExactQuantileError::ObservationLimitExceeded { attempted, maximum } => "exact quantile summary would contain "@ + decimal(attempted as nat) + " observations, maximum is "@ + decimal(maximum as nat),
        ExactQuantileError::LengthOverflow => "exact quantile summary length overflow"@,
        ExactQuantileError::AllocationFailed { requested } => "could not reserve "@ + decimal(requested as nat) + " exact quantile observations"@,
        ExactQuantileError::ProfileMismatch { left_maximum, right_maximum } => "exact quantile ceilings differ: "@ + decimal(left_maximum as nat) + " versus "@ + decimal(right_maximum as nat),
        ExactQuantileError::MissingObservation { value } => "exact quantile summary does not contain value "@ + decimal(value as nat),
        ExactQuantileError::InvalidQuantile { numerator, denominator } => "invalid quantile "@ + decimal(numerator as nat) + "/"@ + decimal(denominator as nat) + "; require 0 <= numerator <= denominator and denominator > 0"@,
    }
}

impl ExactQuantileError {
    /// Human-readable diagnostic.
    pub fn message(&self) -> (text: String)
        ensures
            text@ == exact_quantile_error_text(*self),
    {
        let mut out = String::new();
        match *self {
            ExactQuantileError::ObservationLimitExceeded { attempted, maximum } => {
                push_text(&mut out, "exact quantile summary would contain ");
                push_decimal(&mut out, attempted as u64);
                push_text(&mut out, " observations, maximum is ");
                push_decimal(&mut out, maximum as u64);
            },
            ExactQuantileError::LengthOverflow => {
                push_text(&mut out, "exact quantile summary length overflow");
            },
            ExactQuantileError::AllocationFailed { requested } => {
                push_text(&mut out, "could not reserve ");
                push_decimal(&mut out, requested as u64);
                push_text(&mut out, " exact quantile observations");
            },
            ExactQuantileError::ProfileMismatch { left_maximum, right_maximum } => {
                push_text(&mut out, "exact quantile ceilings differ: ");
                push_decimal(&mut out, left_maximum as u64);
                push_text(&mut out, " versus ");
                push_decimal(&mut out, right_maximum as u64);
            },
            ExactQuantileError::MissingObservation { value } => {
                push_text(&mut out, "exact quantile summary does not contain value ");
                push_decimal(&mut out, value as u64);
            },
            ExactQuantileError::InvalidQuantile { numerator, denominator } => {
                push_text(&mut out, "invalid quantile ");
                push_decimal(&mut out, numerator as u64);
                push_text(&mut out, "/");
                push_decimal(&mut out, denominator as u64);
                push_text(&mut out, "; require 0 <= numerator <= denominator and denominator > 0");
            },
        }
        proof {
            assert(out@ =~= exact_quantile_error_text(*self));
        }
        out
    }
}

/// Diagnostic text of a codec failure: the error as `Debug` prints it.
pub open spec fn codec_error_text(value: ExactQuantileCodecError) -> Seq<char> {
    match value {
        ExactQuantileCodecError::IntegerUnrepresentable => "IntegerUnrepresentable"@,
        ExactQuantileCodecError::LengthOverflow => "LengthOverflow"@,
        ExactQuantileCodecError::AllocationFailed { requested } => "AllocationFailed { requested: "@ + decimal(requested as nat) + " }"@,
        ExactQuantileCodecError::MagicMismatch { actual } => "MagicMismatch { actual: "@ + "["@ + byte_list(actual@) + "]"@ + " }"@,
        ExactQuantileCodecError::UnsupportedVersion { actual } => "UnsupportedVersion { actual: "@ + decimal(actual as nat) + " }"@,
        ExactQuantileCodecError::Truncated { offset, needed, remaining } => "Truncated { offset: "@ + decimal(offset as nat) + ", needed: "@ + decimal(needed as nat) + ", remaining: "@ + decimal(remaining as nat) + " }"@,
        ExactQuantileCodecError::TrailingBytes { offset, remaining } => "TrailingBytes { offset: "@ + decimal(offset as nat) + ", remaining: "@ + decimal(remaining as nat) + " }"@,
        ExactQuantileCodecError::ObservationLimitExceeded { actual, maximum } => "ObservationLimitExceeded { actual: "@ + decimal(actual as nat) + ", maximum: "@ + decimal(maximum as nat) + " }"@,
        ExactQuantileCodecError::ValuesOutOfOrder { index, previous, current } => "ValuesOutOfOrder { index: "@ + decimal(index as nat) + ", previous: "@ + decimal(previous as nat) + ", current: "@ + decimal(current as nat) + " }"@,
        ExactQuantileCodecError::EncodedByteLimitExceeded { actual, maximum } => "EncodedByteLimitExceeded { actual: "@ + decimal(actual as nat) + ", maximum: "@ + decimal(maximum as nat) + " }"@,
        ExactQuantileCodecError::DecodeObservationLimitExceeded { actual, maximum } => "DecodeObservationLimitExceeded { actual: "@ + decimal(actual as nat) + ", maximum: "@ + decimal(maximum as nat) + " }"@,
        ExactQuantileCodecError::ProfileMismatch { expected_max_observations, actual_max_observations } => "ProfileMismatch { expected_max_observations: "@ + decimal(expected_max_observations as nat) + ", actual_max_observations: "@ + decimal(actual_max_observations as nat) + " }"@,
    }
}

fn push_codec_error_text(out: &mut String, value: ExactQuantileCodecError)
    ensures
        final(out)@ == old(out)@ + codec_error_text(value),
{
    match value {
        ExactQuantileCodecError::IntegerUnrepresentable => push_text(out, "IntegerUnrepresentable"),
        ExactQuantileCodecError::LengthOverflow => push_text(out, "LengthOverflow"),
        ExactQuantileCodecError::AllocationFailed { requested } => {
            push_text(out, "AllocationFailed { requested: ");
            push_decimal(out, requested as u64);
            push_text(out, " }");
        },
        ExactQuantileCodecError::MagicMismatch { actual } => {
            push_text(out, "MagicMismatch { actual: ");
            push_bytes8(out, actual);
            push_text(out, " }");
        },
        ExactQuantileCodecError::UnsupportedVersion { actual } => {
            push_text(out, "UnsupportedVersion { actual: ");
            push_decimal(out, actual as u64);
            push_text(out, " }");
        },
        ExactQuantileCodecError::Truncated { offset, needed, remaining } => {
            push_text(out, "Truncated { offset: ");
            push_decimal(out, offset as u64);
            push_text(out, ", needed: ");
            push_decimal(out, needed as u64);
            push_text(out, ", remaining: ");
            push_decimal(out, remaining as u64);
            push_text(out, " }");
        },
        ExactQuantileCodecError::TrailingBytes { offset, remaining } => {
            push_text(out, "TrailingBytes { offset: ");
            push_decimal(out, offset as u64);
            push_text(out, ", remaining: ");
            push_decimal(out, remaining as u64);
            push_text(out, " }");
        },
        ExactQuantileCodecError::ObservationLimitExceeded { actual, maximum } => {
            push_text(out, "ObservationLimitExceeded { actual: ");
            push_decimal(out, actual as u64);
            push_text(out, ", maximum: ");
            push_decimal(out, maximum as u64);
            push_text(out, " }");
        },
        ExactQuantileCodecError::ValuesOutOfOrder { index, previous, current } => {
            push_text(out, "ValuesOutOfOrder { index: ");
            push_decimal(out, index as u64);
            push_text(out, ", previous: ");
            push_decimal(out, previous as u64);
            push_text(out, ", current: ");
            push_decimal(out, current as u64);
            push_text(out, " }");
        },
        ExactQuantileCodecError::EncodedByteLimitExceeded { actual, maximum } => {
            push_text(out, "EncodedByteLimitExceeded { actual: ");
            push_decimal(out, actual as u64);
            push_text(out, ", maximum: ");
            push_decimal(out, maximum as u64);
            push_text(out, " }");
        },
        ExactQuantileCodecError::DecodeObservationLimitExceeded { actual, maximum } => {
            push_text(out, "DecodeObservationLimitExceeded { actual: ");
            push_decimal(out, actual as u64);
            push_text(out, ", maximum: ");
            push_decimal(out, maximum as u64);
            push_text(out, " }");
        },
        ExactQuantileCodecError::ProfileMismatch { expected_max_observations, actual_max_observations } => {
            push_text(out, "ProfileMismatch { expected_max_observations: ");
            push_decimal(out, expected_max_observations as u64);
            push_text(out, ", actual_max_observations: ");
            push_decimal(out, actual_max_observations as u64);
            push_text(out, " }");
        },
    }
    proof {
        assert(out@ =~= old(out)@ + codec_error_text(value));
    }
}

impl ExactQuantileCodecError {
    /// Human-readable diagnostic: the error as `Debug` prints it.
    pub fn message(&self) -> (text: String)
        ensures
            text@ == codec_error_text(*self),
    {
        let mut out = String::new();
        push_codec_error_text(&mut out, *self);
        proof {
            assert(out@ =~= codec_error_text(*self));
        }
        out
    }
}

} // verus!
