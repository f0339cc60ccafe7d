//! Mergeable logarithmic histograms for authorized graph degrees.
//!
//! The 65 buckets are fixed and canonical: bucket zero contains degree zero;
//! bucket `b > 0` contains the values whose unsigned bit length is `b`, that
//! is `2^(b-1) ..= 2^b - 1`. Unlike an insertion-only frequency sketch, this
//! summary supports exact deletion at its declared bucket resolution.

use vstd::prelude::*;
use crate::text::{byte_list, decimal, push_bytes8, push_decimal, push_text};
use vstd::arithmetic::power2::{pow2, lemma_pow2_unfold, lemma_pow2_strictly_increases, lemma2_to64, lemma2_to64_rest};
use vstd::bits::lemma_u64_shl_is_mul;
use vstd::std_specs::bits::u64_leading_zeros;
use crate::codec::{
    be_u16, be_u64, be_u64_seq, decode_be_u16, decode_be_u64, lemma_be_u64_seq_layout, lemma_be_u64_round_trip,
    lemma_be_u16_round_trip, lemma_be_u64_bytes_round_trip, push_u16, push_u64, read_u16_at, read_u64_at, field_u16, field_u64,
};
use crate::seq_sum::{seq_sum, pointwise_sum, lemma_sum_bounds, lemma_sum_update, lemma_sum_pointwise, lemma_prefix_sum_le, lemma_prefix_sum_step};

verus! {

/// Number of canonical degree buckets.
pub const DEGREE_BUCKETS: usize = 65;

/// Exact byte length of one canonical degree histogram: magic, version,
/// bucket count, ceiling, total, then one count per bucket.
pub const DEGREE_HISTOGRAM_CANONICAL_BYTES: usize = 548;

const CANONICAL_VERSION: u16 = 1;

/// The eight-byte format discriminator `FGDBDGH1`.
pub open spec fn degree_histogram_magic() -> Seq<u8> {
    seq![0x46u8, 0x47u8, 0x44u8, 0x42u8, 0x44u8, 0x47u8, 0x48u8, 0x31u8]
}

fn magic_bytes() -> (magic: [u8; 8])
    ensures
        magic@ == degree_histogram_magic(),
{
    let magic = [0x46u8, 0x47u8, 0x44u8, 0x42u8, 0x44u8, 0x47u8, 0x48u8, 0x31u8];
    assert(magic@ =~= degree_histogram_magic());
    magic
}

/// Number of significant bits of a value; zero has none.
pub open spec fn bit_length(value: nat) -> nat
    decreases value,
{
    if value == 0 {
        0
    } else {
        1 + bit_length(value / 2)
    }
}

/// Smallest degree of a bucket.
pub open spec fn bucket_lower(index: nat) -> nat {
    if index == 0 {
        0
    } else {
        pow2((index - 1) as nat)
    }
}

/// Largest degree of a bucket.
pub open spec fn bucket_upper(index: nat) -> nat {
    if index == 0 {
        0
    } else {
        (pow2(index) - 1) as nat
    }
}

/// A value of bit length `b > 0` lies in `2^(b-1) ..= 2^b - 1`.
pub proof fn lemma_bit_length_bounds(value: nat)
    requires
        value > 0,
    ensures
        bit_length(value) >= 1,
        pow2((bit_length(value) - 1) as nat) <= value < pow2(bit_length(value)),
    decreases value,
{
    let half = value / 2;
    if half == 0 {
        assert(value == 1);
        assert(bit_length(0) == 0);
        lemma2_to64();
    } else {
        lemma_bit_length_bounds(half);
        let b = bit_length(half);
        lemma_pow2_unfold(b + 1);
        lemma_pow2_unfold(b);
    }
}

/// Every bucket index of a `u64` is below 65, and the value lies inside its
/// bucket's interval.
pub proof fn lemma_bucket_contains(value: u64)
    ensures
        bit_length(value as nat) < 65,
        bucket_lower(bit_length(value as nat)) <= value <= bucket_upper(bit_length(value as nat)),
{
    if value > 0 {
        lemma_bit_length_bounds(value as nat);
        let b = bit_length(value as nat);
        lemma2_to64();
        if b > 64 {
            lemma_pow2_strictly_increases(64, (b - 1) as nat);
        }
    }
}

proof fn lemma_leading_zeros_bit_length(value: u64)
    ensures
        64 - u64_leading_zeros(value) == bit_length(value as nat),
    decreases value,
{
    reveal(u64_leading_zeros);
    if value != 0 {
        lemma_leading_zeros_bit_length(value / 2);
    }
}

/// Canonical bucket index of a degree: its bit length.
pub fn bucket_index(degree: u64) -> (index: usize)
    ensures
        index == bit_length(degree as nat),
        index < DEGREE_BUCKETS,
        bucket_lower(index as nat) <= degree <= bucket_upper(index as nat),
{
    proof {
        lemma_leading_zeros_bit_length(degree);
        lemma_bucket_contains(degree);
    }
    if degree == 0 {
        0
    } else {
        let zeros = degree.leading_zeros();
        (64 - zeros) as usize
    }
}

/// Inclusive degree interval of one canonical bucket.
pub fn bucket_bounds(index: usize) -> (bounds: (u64, u64))
    requires
        index < DEGREE_BUCKETS,
    ensures
        bounds.0 == bucket_lower(index as nat),
        bounds.1 == bucket_upper(index as nat),
{
    proof {
        lemma2_to64();
        lemma2_to64_rest();
    }
    if index == 0 {
        (0, 0)
    } else if index == 64 {
        proof {
            lemma_u64_shl_is_mul(1, 63);
        }
        (1u64 << 63u64, u64::MAX)
    } else {
        let shift = (index - 1) as u64;
        proof {
            lemma_pow2_strictly_increases(shift as nat, 63);
            lemma_pow2_strictly_increases(shift as nat + 1, 64);
            lemma_u64_shl_is_mul(1, shift);
            lemma_pow2_unfold(shift as nat + 1);
        }
        let lower = 1u64 << shift;
        proof {
            lemma_u64_shl_is_mul(lower, 1);
        }
        (lower, (lower << 1u64) - 1)
    }
}

/// Inclusive value interval represented by one bucket.
#[derive(Clone, Copy, Debug, Eq, Hash, PartialEq, Structural)]
pub struct DegreeBucket {
    /// Canonical bucket index in `0..65`.
    pub index: u8,
    /// Smallest degree in this bucket.
    pub lower: u64,
    /// Largest degree in this bucket.
    pub upper: u64,
    /// Number of observations currently in this bucket.
    pub count: u64,
}

/// Typed histogram transition failure.
#[derive(Clone, Copy, Debug, Eq, PartialEq, Structural)]
pub enum DegreeHistogramError {
    /// The configured total-observation ceiling would be exceeded.
    ObservationLimitExceeded {
        /// Configured maximum observation count.
        maximum: u64,
    },
    /// A bucket or total-count addition overflowed.
    CountOverflow,
    /// A deletion named a bucket with no observations.
    MissingObservation {
        /// Degree whose bucket is empty.
        degree: u64,
        /// Canonical empty bucket.
        bucket: u8,
    },
    /// Merge operands use different observation ceilings.
    ProfileMismatch {
        /// Receiver ceiling.
        left_maximum: u64,
        /// Other ceiling.
        right_maximum: u64,
    },
}

/// Strict canonical-codec failure.
#[derive(Clone, Copy, Debug, Eq, PartialEq)]
pub enum DegreeHistogramCodecError {
    /// Input length is not the one fixed canonical histogram length.
    EncodedLengthMismatch {
        /// Required fixed canonical length.
        expected: usize,
        /// Actual input length.
        actual: usize,
    },
    /// The eight-byte format discriminator did not match.
    MagicMismatch {
        /// Bytes found at the format discriminator.
        actual: [u8; 8],
    },
    /// The encoded version is unsupported.
    UnsupportedVersion {
        /// Version found in the input.
        actual: u16,
    },
    /// The encoded bucket inventory is not the fixed canonical inventory.
    BucketCountMismatch {
        /// Bucket count found in the input.
        actual: u16,
    },
    /// The encoded observation ceiling does not equal the trusted expected ceiling.
    ProfileMismatch {
        /// Trusted observation ceiling supplied by the caller.
        expected_maximum: u64,
        /// Observation ceiling decoded from the canonical header.
        actual_maximum: u64,
    },
    /// Input ended before a complete field could be read.
    Truncated {
        /// Byte offset of the field.
        offset: usize,
        /// Bytes needed for the field.
        needed: usize,
        /// Bytes remaining at the offset.
        remaining: usize,
    },
    /// Input contains bytes after the one canonical value.
    TrailingBytes {
        /// First trailing byte.
        offset: usize,
        /// Number of trailing bytes.
        remaining: usize,
    },
    /// The encoded observation count exceeds its profile ceiling.
    ObservationLimitExceeded {
        /// Encoded observation count.
        actual: u64,
        /// Encoded ceiling.
        maximum: u64,
    },
    /// Adding canonical bucket counts overflowed.
    CountOverflow,
    /// Canonical bucket counts do not sum to the encoded total.
    TotalMismatch {
        /// Encoded total.
        expected: u64,
        /// Sum of bucket counts.
        actual: u64,
    },
}

/// Canonical encoding of a histogram with the given ceiling, total and
/// bucket counts.
pub open spec fn degree_histogram_canonical_bytes(max_observations: u64, total: u64, counts: Seq<u64>) -> Seq<u8> {
    degree_histogram_magic() + be_u16(1) + be_u16(65) + be_u64(max_observations) + be_u64(total) + be_u64_seq(
        counts,
    )
}

/// The 65 bucket counts a canonical value holds after its 28-byte header.
pub open spec fn payload_counts(bytes: Seq<u8>) -> Seq<u64> {
    Seq::new(65, |i: int| field_u64(bytes, 28 + 8 * i))
}

/// Counts after one observation of `degree`.
pub open spec fn observe_counts(counts: Seq<u64>, degree: u64) -> Seq<u64> {
    let b = bit_length(degree as nat) as int;
    counts.update(b, (counts[b] + 1) as u64)
}

/// Counts after one removal of `degree`.
pub open spec fn remove_counts(counts: Seq<u64>, degree: u64) -> Seq<u64> {
    let b = bit_length(degree as nat) as int;
    counts.update(b, (counts[b] - 1) as u64)
}

/// Number of observations in the buckets before `index`.
pub open spec fn preceding_count(counts: Seq<u64>, index: int) -> int {
    seq_sum(counts.subrange(0, index))
}

/// A well-formed histogram state: 65 buckets summing to a total within the
/// ceiling.
pub open spec fn valid_state(max_observations: u64, total: u64, counts: Seq<u64>) -> bool {
    &&& counts.len() == 65
    &&& seq_sum(counts) == total
    &&& total <= max_observations
}

/// Observations commute: the state depends only on the multiset of observed
/// degrees, so the canonical encoding is independent of observation order.
pub proof fn law_observations_commute(counts: Seq<u64>, a: u64, b: u64)
    requires
        counts.len() == 65,
        seq_sum(counts) + 2 <= u64::MAX,
    ensures
        observe_counts(observe_counts(counts, a), b) == observe_counts(observe_counts(counts, b), a),
{
    lemma_bucket_contains(a);
    lemma_bucket_contains(b);
    lemma_sum_bounds(counts);
    assert(observe_counts(observe_counts(counts, a), b) =~= observe_counts(observe_counts(counts, b), a));
}

/// Removing a degree right after observing it restores the counts.
pub proof fn law_remove_undoes_observe(counts: Seq<u64>, degree: u64)
    requires
        counts.len() == 65,
        seq_sum(counts) < u64::MAX,
    ensures
        remove_counts(observe_counts(counts, degree), degree) == counts,
{
    lemma_bucket_contains(degree);
    lemma_sum_bounds(counts);
    assert(remove_counts(observe_counts(counts, degree), degree) =~= counts);
}

/// Merging adds bucket counts, which is commutative.
pub proof fn law_merge_commutes(a: Seq<u64>, b: Seq<u64>)
    requires
        a.len() == b.len(),
        forall|i: int| 0 <= i < a.len() ==> a[i] + b[i] <= u64::MAX,
    ensures
        pointwise_sum(a, b) == pointwise_sum(b, a),
{
    assert(pointwise_sum(a, b) =~= pointwise_sum(b, a));
}

/// Merging is associative when no bucket overflows.
pub proof fn law_merge_associates(a: Seq<u64>, b: Seq<u64>, c: Seq<u64>)
    requires
        a.len() == b.len(),
        b.len() == c.len(),
        forall|i: int| 0 <= i < a.len() ==> a[i] + b[i] + c[i] <= u64::MAX,
    ensures
        pointwise_sum(pointwise_sum(a, b), c) == pointwise_sum(a, pointwise_sum(b, c)),
{
    assert(pointwise_sum(pointwise_sum(a, b), c) =~= pointwise_sum(a, pointwise_sum(b, c)));
}

/// The canonical encoding of a valid state is 548 bytes whose header and
/// payload fields read back the ceiling, total and counts: decoding an
/// encoding gives the histogram back.
pub proof fn law_canonical_round_trip(max_observations: u64, total: u64, counts: Seq<u64>)
    requires
        valid_state(max_observations, total, counts),
    ensures
        degree_histogram_canonical_bytes(max_observations, total, counts).len() == 548,
        degree_histogram_canonical_bytes(max_observations, total, counts).subrange(0, 8)
            == degree_histogram_magic(),
        field_u16(degree_histogram_canonical_bytes(max_observations, total, counts), 8) == 1,
        field_u16(degree_histogram_canonical_bytes(max_observations, total, counts), 10) == 65,
        field_u64(degree_histogram_canonical_bytes(max_observations, total, counts), 12) == max_observations,
        field_u64(degree_histogram_canonical_bytes(max_observations, total, counts), 20) == total,
        payload_counts(degree_histogram_canonical_bytes(max_observations, total, counts)) == counts,
{
    let bytes = degree_histogram_canonical_bytes(max_observations, total, counts);
    lemma_be_u64_seq_layout(counts);
    lemma_be_u16_round_trip(1);
    lemma_be_u16_round_trip(65);
    lemma_be_u64_round_trip(max_observations);
    lemma_be_u64_round_trip(total);
    assert(bytes.subrange(0, 8) =~= degree_histogram_magic());
    assert(bytes.subrange(8, 10) =~= be_u16(1));
    assert(bytes.subrange(10, 12) =~= be_u16(65));
    assert(bytes.subrange(12, 20) =~= be_u64(max_observations));
    assert(bytes.subrange(20, 28) =~= be_u64(total));
    let payload = be_u64_seq(counts);
    assert forall|i: int| 0 <= i < 65 implies #[trigger] payload_counts(bytes)[i] == counts[i] by {
        assert(bytes.subrange(28 + 8 * i, 28 + 8 * i + 8) =~= payload.subrange(8 * i, 8 * i + 8));
        lemma_be_u64_round_trip(counts[i]);
    }
    assert(payload_counts(bytes) =~= counts);
}

/// Exact-at-bucket-resolution histogram with checked merge and deletion.
#[derive(Debug, Eq, PartialEq)]
pub struct DegreeHistogram {
    counts: [u64; DEGREE_BUCKETS],
    total: u64,
    max_observations: u64,
}

impl Clone for DegreeHistogram {
    fn clone(&self) -> (copy: Self)
        ensures
            copy == *self,
    {
        proof {
            use_type_invariant(self);
        }
        DegreeHistogram { counts: self.counts, total: self.total, max_observations: self.max_observations }
    }
}

impl DegreeHistogram {
    #[verifier::type_invariant]
    spec fn well_formed(self) -> bool {
        valid_state(self.max_observations, self.total, self.counts@)
    }

    /// Bucket counts in increasing degree order.
    pub closed spec fn spec_counts(self) -> Seq<u64> {
        self.counts@
    }

    /// Number of observations.
    pub closed spec fn spec_total(self) -> u64 {
        self.total
    }

    /// Configured total-observation ceiling.
    pub closed spec fn spec_max(self) -> u64 {
        self.max_observations
    }

    /// Every histogram has 65 buckets summing to its total within its
    /// ceiling.
    pub fn lemma_valid(&self)
        ensures
            valid_state(self.spec_max(), self.spec_total(), self.spec_counts()),
    {
        proof {
            use_type_invariant(self);
        }
    }

    /// Creates an empty histogram with an explicit observation ceiling.
    pub fn new(max_observations: u64) -> (histogram: Self)
        ensures
            histogram.spec_counts() == Seq::new(65, |i: int| 0u64),
            histogram.spec_total() == 0,
            histogram.spec_max() == max_observations,
    {
        let counts = [0u64; 65];
        proof {
            assert(counts@ =~= Seq::new(65, |i: int| 0u64));
            lemma_zero_sum(counts@);
        }
        DegreeHistogram { counts, total: 0, max_observations }
    }

    /// Configured total-observation ceiling.
    pub fn max_observations(&self) -> (maximum: u64)
        ensures
            maximum == self.spec_max(),
    {
        self.max_observations
    }

    /// Number of observations.
    pub fn len(&self) -> (count: u64)
        ensures
            count == self.spec_total(),
    {
        self.total
    }

    /// Whether no degree is represented.
    pub fn is_empty(&self) -> (empty: bool)
        ensures
            empty == (self.spec_total() == 0),
    {
        self.total == 0
    }

    /// Canonical bucket counts in increasing degree order.
    pub fn canonical_counts(&self) -> (counts: &[u64; DEGREE_BUCKETS])
        ensures
            counts@ == self.spec_counts(),
    {
        &self.counts
    }

    /// Encodes the complete profile and buckets into fixed canonical bytes.
    ///
    /// Every histogram is valid, so encoding always succeeds.
    pub fn to_canonical_bytes(&self) -> (result: Result<[u8; DEGREE_HISTOGRAM_CANONICAL_BYTES], DegreeHistogramCodecError>)
        ensures
            result matches Ok(bytes) && bytes@ == degree_histogram_canonical_bytes(
                self.spec_max(),
                self.spec_total(),
                self.spec_counts(),
            ),
    {
        proof {
            use_type_invariant(self);
        }
        let mut encoded: Vec<u8> = Vec::new();
        let magic = magic_bytes();
        let mut m: usize = 0;
        while m < 8
            invariant
                m <= 8,
                magic@ == degree_histogram_magic(),
                encoded@ == magic@.subrange(0, m as int),
            decreases 8 - m,
        {
            encoded.push(magic[m]);
            proof {
                assert(encoded@ =~= magic@.subrange(0, m + 1));
            }
            m = m + 1;
        }
        push_u16(&mut encoded, CANONICAL_VERSION);
        push_u16(&mut encoded, 65);
        push_u64(&mut encoded, self.max_observations);
        push_u64(&mut encoded, self.total);
        let ghost header = encoded@;
        let mut index: usize = 0;
        while index < DEGREE_BUCKETS
            invariant
                index <= 65,
                self.counts@.len() == 65,
                encoded@ == header + be_u64_seq(self.counts@.subrange(0, index as int)),
            decreases 65 - index,
        {
            push_u64(&mut encoded, self.counts[index]);
            proof {
                let s = self.counts@.subrange(0, index + 1);
                assert(s.drop_last() =~= self.counts@.subrange(0, index as int));
                assert(encoded@ =~= header + be_u64_seq(s));
            }
            index = index + 1;
        }
        proof {
            assert(self.counts@.subrange(0, 65) =~= self.counts@);
            assert(magic@.subrange(0, 8) =~= magic@);
            lemma_be_u64_seq_layout(self.counts@);
            assert(encoded@ =~= degree_histogram_canonical_bytes(self.max_observations, self.total, self.counts@));
        }
        let mut bytes = [0u8; 548];
        let mut i: usize = 0;
        while i < DEGREE_HISTOGRAM_CANONICAL_BYTES
            invariant
                i <= 548,
                encoded@.len() == 548,
                bytes@.len() == 548,
                forall|j: int| 0 <= j < i ==> bytes@[j] == encoded@[j],
            decreases 548 - i,
        {
            bytes[i] = encoded[i];
            i = i + 1;
        }
        proof {
            assert(bytes@ =~= encoded@);
        }
        Ok(bytes)
    }

    /// Decodes exactly one fixed canonical histogram value.
    ///
    /// The checks run in a fixed order, and the first one that fails names
    /// the error.
    pub fn try_from_canonical_bytes(bytes: &[u8], expected_max_observations: u64) -> (result: Result<
        Self,
        DegreeHistogramCodecError,
    >)
        ensures
            bytes@.len() != 548 ==> result == Err::<Self, DegreeHistogramCodecError>(
                DegreeHistogramCodecError::EncodedLengthMismatch { expected: 548, actual: bytes@.len() as usize },
            ),
            bytes@.len() == 548 ==> {
                let magic = bytes@.subrange(0, 8);
                let version = field_u16(bytes@, 8);
                let buckets = field_u16(bytes@, 10);
                let maximum = field_u64(bytes@, 12);
                let total = field_u64(bytes@, 20);
                let counts = payload_counts(bytes@);
                if magic != degree_histogram_magic() {
                    result matches Err(DegreeHistogramCodecError::MagicMismatch { actual }) && actual@ == magic
                } else if version != 1 {
                    result == Err::<Self, DegreeHistogramCodecError>(
                        DegreeHistogramCodecError::UnsupportedVersion { actual: version },
                    )
                } else if buckets != 65 {
                    result == Err::<Self, DegreeHistogramCodecError>(
                        DegreeHistogramCodecError::BucketCountMismatch { actual: buckets },
                    )
                } else if maximum != expected_max_observations {
                    result == Err::<Self, DegreeHistogramCodecError>(
                        DegreeHistogramCodecError::ProfileMismatch {
                            expected_maximum: expected_max_observations,
                            actual_maximum: maximum,
                        },
                    )
                } else if total > maximum {
                    result == Err::<Self, DegreeHistogramCodecError>(
                        DegreeHistogramCodecError::ObservationLimitExceeded { actual: total, maximum },
                    )
                } else if seq_sum(counts) > u64::MAX {
                    result == Err::<Self, DegreeHistogramCodecError>(DegreeHistogramCodecError::CountOverflow)
                } else if seq_sum(counts) != total {
                    result == Err::<Self, DegreeHistogramCodecError>(
                        DegreeHistogramCodecError::TotalMismatch { expected: total, actual: seq_sum(counts) as u64 },
                    )
                } else {
                    result matches Ok(h) && h.spec_counts() == counts && h.spec_total() == total && h.spec_max()
                        == maximum && bytes@ == degree_histogram_canonical_bytes(maximum, total, counts)
                }
            },
    {
        if bytes.len() != DEGREE_HISTOGRAM_CANONICAL_BYTES {
            return Err(
                DegreeHistogramCodecError::EncodedLengthMismatch {
                    expected: DEGREE_HISTOGRAM_CANONICAL_BYTES,
                    actual: bytes.len(),
                },
            );
        }
        let mut magic = [0u8; 8];
        let mut m: usize = 0;
        while m < 8
            invariant
                m <= 8,
                bytes@.len() == 548,
                magic@.len() == 8,
                forall|i: int| 0 <= i < m ==> magic@[i] == bytes@[i],
            decreases 8 - m,
        {
            magic[m] = bytes[m];
            m = m + 1;
        }
        proof {
            assert(magic@ =~= bytes@.subrange(0, 8));
        }
        let expected_magic = magic_bytes();
        let mut same = true;
        let mut k: usize = 0;
        while k < 8
            invariant
                k <= 8,
                magic@.len() == 8,
                expected_magic@.len() == 8,
                same == (forall|i: int| 0 <= i < k ==> magic@[i] == expected_magic@[i]),
            decreases 8 - k,
        {
            if magic[k] != expected_magic[k] {
                same = false;
            }
            k = k + 1;
        }
        if !same {
            proof {
                assert(magic@ != expected_magic@);
            }
            return Err(DegreeHistogramCodecError::MagicMismatch { actual: magic });
        }
        proof {
            assert(magic@ =~= expected_magic@);
        }
        let version = read_u16_at(bytes, 8);
        if version != CANONICAL_VERSION {
            return Err(DegreeHistogramCodecError::UnsupportedVersion { actual: version });
        }
        let bucket_count = read_u16_at(bytes, 10);
        if bucket_count != 65 {
            return Err(DegreeHistogramCodecError::BucketCountMismatch { actual: bucket_count });
        }
        let max_observations = read_u64_at(bytes, 12);
        if max_observations != expected_max_observations {
            return Err(
                DegreeHistogramCodecError::ProfileMismatch {
                    expected_maximum: expected_max_observations,
                    actual_maximum: max_observations,
                },
            );
        }
        let total = read_u64_at(bytes, 20);
        let mut counts = [0u64; 65];
        let mut index: usize = 0;
        while index < DEGREE_BUCKETS
            invariant
                index <= 65,
                bytes@.len() == 548,
                counts@.len() == 65,
                forall|i: int| 0 <= i < index ==> counts@[i] == payload_counts(bytes@)[i],
                bytes@.subrange(28, 28 + 8 * index) == be_u64_seq(counts@.subrange(0, index as int)),
            decreases 65 - index,
        {
            let offset = 28 + 8 * index;
            let value = read_u64_at(bytes, offset);
            let ghost before = counts@;
            counts[index] = value;
            proof {
                lemma_be_u64_bytes_round_trip(bytes@.subrange(offset as int, offset + 8));
                assert(counts@.subrange(0, index + 1).drop_last() =~= before.subrange(0, index as int));
                assert(bytes@.subrange(28, 28 + 8 * (index + 1)) =~= bytes@.subrange(28, 28 + 8 * index)
                    + bytes@.subrange(offset as int, offset + 8));
            }
            index = index + 1;
        }
        proof {
            assert(counts@ =~= payload_counts(bytes@));
            assert(counts@.subrange(0, 65) =~= counts@);
        }
        if total > max_observations {
            return Err(DegreeHistogramCodecError::ObservationLimitExceeded { actual: total, maximum: max_observations });
        }
        let mut sum: u64 = 0;
        let mut j: usize = 0;
        while j < DEGREE_BUCKETS
            invariant
                j <= 65,
                counts@.len() == 65,
                sum == seq_sum(counts@.subrange(0, j as int)),
                bytes@.len() == 548,
                counts@ == payload_counts(bytes@),
                bytes@.subrange(0, 8) == degree_histogram_magic(),
                field_u16(bytes@, 8) == 1,
                field_u16(bytes@, 10) == 65,
                field_u64(bytes@, 12) == max_observations,
                max_observations == expected_max_observations,
                field_u64(bytes@, 20) == total,
                total <= max_observations,
            decreases 65 - j,
        {
            proof {
                lemma_prefix_sum_step(counts@, j as int);
                lemma_prefix_sum_le(counts@, j + 1);
            }
            sum = match sum.checked_add(counts[j]) {
                Some(v) => v,
                None => {
                    proof {
                        assert(seq_sum(counts@.subrange(0, 65)) > u64::MAX) by {
                            assert(counts@.subrange(0, 65) =~= counts@);
                        }
                    }
                    return Err(DegreeHistogramCodecError::CountOverflow);
                },
            };
            j = j + 1;
        }
        if sum != total {
            return Err(DegreeHistogramCodecError::TotalMismatch { expected: total, actual: sum });
        }
        proof {
            lemma_be_u64_bytes_round_trip(bytes@.subrange(12, 20));
            lemma_be_u64_bytes_round_trip(bytes@.subrange(20, 28));
            crate::codec::lemma_be_u16_bytes_round_trip(bytes@.subrange(8, 10));
            crate::codec::lemma_be_u16_bytes_round_trip(bytes@.subrange(10, 12));
            assert(bytes@ =~= degree_histogram_canonical_bytes(max_observations, total, counts@));
        }
        Ok(DegreeHistogram { counts, total, max_observations })
    }

    /// Adds one degree observation.
    ///
    /// A failure leaves the histogram unchanged.
    pub fn try_observe(&mut self, degree: u64) -> (result: Result<(), DegreeHistogramError>)
        ensures
            result is Ok <==> old(self).spec_total() < old(self).spec_max(),
            result is Ok ==> {
                &&& final(self).spec_max() == old(self).spec_max()
                &&& final(self).spec_total() == old(self).spec_total() + 1
                &&& final(self).spec_counts() == observe_counts(old(self).spec_counts(), degree)
            },
            old(self).spec_total() == u64::MAX ==> result == Err::<(), DegreeHistogramError>(
                DegreeHistogramError::CountOverflow,
            ),
            old(self).spec_total() < u64::MAX && old(self).spec_total() >= old(self).spec_max() ==> result == Err::<
                (),
                DegreeHistogramError,
            >(DegreeHistogramError::ObservationLimitExceeded { maximum: old(self).spec_max() }),
            result is Err ==> *final(self) == *old(self),
    {
        proof {
            use_type_invariant(&*self);
        }
        let next_total = match self.total.checked_add(1) {
            Some(v) => v,
            None => {
                return Err(DegreeHistogramError::CountOverflow);
            },
        };
        if next_total > self.max_observations {
            return Err(DegreeHistogramError::ObservationLimitExceeded { maximum: self.max_observations });
        }
        let index = bucket_index(degree);
        proof {
            lemma_sum_bounds(self.counts@);
        }
        let mut counts = self.counts;
        let next_bucket = counts[index] + 1;
        counts[index] = next_bucket;
        proof {
            lemma_sum_update(self.counts@, index as int, next_bucket);
            assert(counts@ =~= observe_counts(self.counts@, degree));
        }
        *self = DegreeHistogram { counts, total: next_total, max_observations: self.max_observations };
        Ok(())
    }

    /// Removes one degree observation at the declared bucket resolution.
    ///
    /// A failure leaves the histogram unchanged.
    pub fn try_remove(&mut self, degree: u64) -> (result: Result<(), DegreeHistogramError>)
        ensures
            result is Ok <==> old(self).spec_counts()[bit_length(degree as nat) as int] > 0,
            result is Ok ==> {
                &&& final(self).spec_max() == old(self).spec_max()
                &&& final(self).spec_total() == old(self).spec_total() - 1
                &&& final(self).spec_counts() == remove_counts(old(self).spec_counts(), degree)
            },
            result is Err ==> *final(self) == *old(self) && result == Err::<(), DegreeHistogramError>(
                DegreeHistogramError::MissingObservation { degree, bucket: bit_length(degree as nat) as u8 },
            ),
    {
        proof {
            use_type_invariant(&*self);
        }
        let index = bucket_index(degree);
        if self.counts[index] == 0 {
            return Err(DegreeHistogramError::MissingObservation { degree, bucket: index as u8 });
        }
        proof {
            lemma_sum_bounds(self.counts@);
        }
        let mut counts = self.counts;
        let next_bucket = counts[index] - 1;
        counts[index] = next_bucket;
        proof {
            lemma_sum_update(self.counts@, index as int, next_bucket);
            assert(counts@ =~= remove_counts(self.counts@, degree));
        }
        *self = DegreeHistogram { counts, total: self.total - 1, max_observations: self.max_observations };
        Ok(())
    }

    /// Merges another histogram after checking the complete profile and
    /// result. A failure leaves the receiver unchanged.
    pub fn try_merge(&mut self, other: &Self) -> (result: Result<(), DegreeHistogramError>)
        ensures
            result is Ok <==> old(self).spec_max() == other.spec_max() && old(self).spec_total()
                + other.spec_total() <= old(self).spec_max(),
            result is Ok ==> {
                &&& final(self).spec_max() == old(self).spec_max()
                &&& final(self).spec_total() == old(self).spec_total() + other.spec_total()
                &&& final(self).spec_counts() == pointwise_sum(old(self).spec_counts(), other.spec_counts())
            },
            old(self).spec_max() != other.spec_max() ==> result == Err::<(), DegreeHistogramError>(
                DegreeHistogramError::ProfileMismatch {
                    left_maximum: old(self).spec_max(),
                    right_maximum: other.spec_max(),
                },
            ),
            old(self).spec_max() == other.spec_max() && old(self).spec_total() + other.spec_total() > u64::MAX
                ==> result == Err::<(), DegreeHistogramError>(DegreeHistogramError::CountOverflow),
            old(self).spec_max() == other.spec_max() && old(self).spec_total() + other.spec_total() <= u64::MAX
                && old(self).spec_total() + other.spec_total() > old(self).spec_max() ==> result == Err::<
                (),
                DegreeHistogramError,
            >(DegreeHistogramError::ObservationLimitExceeded { maximum: old(self).spec_max() }),
            result is Err ==> *final(self) == *old(self),
    {
        proof {
            use_type_invariant(&*self);
            use_type_invariant(other);
        }
        if self.max_observations != other.max_observations {
            return Err(
                DegreeHistogramError::ProfileMismatch {
                    left_maximum: self.max_observations,
                    right_maximum: other.max_observations,
                },
            );
        }
        let next_total = match self.total.checked_add(other.total) {
            Some(v) => v,
            None => {
                return Err(DegreeHistogramError::CountOverflow);
            },
        };
        if next_total > self.max_observations {
            return Err(DegreeHistogramError::ObservationLimitExceeded { maximum: self.max_observations });
        }
        proof {
            lemma_sum_bounds(self.counts@);
            lemma_sum_bounds(other.counts@);
        }
        let mut counts = self.counts;
        let mut index: usize = 0;
        while index < DEGREE_BUCKETS
            invariant
                index <= 65,
                counts@.len() == 65,
                self.counts@.len() == 65,
                other.counts@.len() == 65,
                forall|i: int| 0 <= i < 65 ==> #[trigger] self.counts@[i] <= self.total,
                forall|i: int| 0 <= i < 65 ==> #[trigger] other.counts@[i] <= other.total,
                self.total + other.total <= u64::MAX,
                forall|i: int| 0 <= i < index ==> counts@[i] == self.counts@[i] + other.counts@[i],
                forall|i: int| index <= i < 65 ==> counts@[i] == self.counts@[i],
            decreases 65 - index,
        {
            let sum = counts[index] + other.counts[index];
            counts[index] = sum;
            index = index + 1;
        }
        proof {
            assert(counts@ =~= pointwise_sum(self.counts@, other.counts@));
            lemma_sum_pointwise(self.counts@, other.counts@);
        }
        *self = DegreeHistogram { counts, total: next_total, max_observations: self.max_observations };
        Ok(())
    }

    /// Returns the bucket containing the zero-based ordered observation.
    ///
    /// The result is an interval because values inside one logarithmic bucket
    /// are intentionally indistinguishable.
    pub fn select_bucket(&self, ordinal: u64) -> (result: Option<DegreeBucket>)
        ensures
            result is None <==> ordinal >= self.spec_total(),
            result matches Some(b) ==> {
                &&& b.index < 65
                &&& preceding_count(self.spec_counts(), b.index as int) <= ordinal
                &&& ordinal < preceding_count(self.spec_counts(), b.index as int) + self.spec_counts()[b.index as int]
                &&& b.count == self.spec_counts()[b.index as int]
                &&& b.lower == bucket_lower(b.index as nat)
                &&& b.upper == bucket_upper(b.index as nat)
            },
    {
        proof {
            use_type_invariant(self);
        }
        if ordinal >= self.total {
            return None;
        }
        let mut preceding: u64 = 0;
        let mut index: usize = 0;
        while index < DEGREE_BUCKETS
            invariant
                index <= 65,
                self.counts@.len() == 65,
                seq_sum(self.counts@) == self.total,
                ordinal < self.total,
                preceding == preceding_count(self.counts@, index as int),
                preceding <= ordinal,
            decreases 65 - index,
        {
            let count = self.counts[index];
            proof {
                lemma_prefix_sum_step(self.counts@, index as int);
                lemma_prefix_sum_le(self.counts@, index + 1);
            }
            let after = preceding + count;
            if ordinal < after {
                let (lower, upper) = bucket_bounds(index);
                return Some(DegreeBucket { index: index as u8, lower, upper, count });
            }
            preceding = after;
            index = index + 1;
        }
        proof {
            assert(self.counts@.subrange(0, 65) =~= self.counts@);
        }
        None
    }

    /// Returns one bucket's canonical interval and count.
    pub fn bucket(&self, index: u8) -> (result: Option<DegreeBucket>)
        ensures
            result is None <==> index >= 65,
            result matches Some(b) ==> {
                &&& b.index == index
                &&& b.count == self.spec_counts()[index as int]
                &&& b.lower == bucket_lower(index as nat)
                &&& b.upper == bucket_upper(index as nat)
            },
    {
        proof {
            use_type_invariant(self);
        }
        let position = index as usize;
        if position >= DEGREE_BUCKETS {
            return None;
        }
        let count = self.counts[position];
        let (lower, upper) = bucket_bounds(position);
        Some(DegreeBucket { index, lower, upper, count })
    }
}

proof fn lemma_zero_sum(s: Seq<u64>)
    requires
        forall|i: int| 0 <= i < s.len() ==> s[i] == 0,
    ensures
        seq_sum(s) == 0,
    decreases s.len(),
{
    if s.len() > 0 {
        lemma_zero_sum(s.drop_last());
    }
}

/// Diagnostic text of a histogram failure.
pub open spec fn degree_histogram_error_text(error: DegreeHistogramError) -> Seq<char> {
    match error {
        DegreeHistogramError::ObservationLimitExceeded { maximum } => "degree histogram reached its "@ + decimal(maximum as nat) + "-observation ceiling"@,
        DegreeHistogramError::CountOverflow => "degree histogram count overflow"@,
        DegreeHistogramError::MissingObservation { degree, bucket } => "cannot remove degree "@ + decimal(degree as nat) + ": canonical bucket "@ + decimal(bucket as nat) + " is empty"@,
        DegreeHistogramError::ProfileMismatch { left_maximum, right_maximum } => "degree histogram ceilings differ: "@ + decimal(left_maximum as nat) + " versus "@ + decimal(right_maximum as nat),
    }
}

impl DegreeHistogramError {
    /// Human-readable diagnostic.
    pub fn message(&self) -> (text: String)
        ensures
            text@ == degree_histogram_error_text(*self),
    {
        let mut out = String::new();
        match *self {
            DegreeHistogramError::ObservationLimitExceeded { maximum } => {
                push_text(&mut out, "degree histogram reached its ");
                push_decimal(&mut out, maximum as u64);
                push_text(&mut out, "-observation ceiling");
            },
            DegreeHistogramError::CountOverflow => {
                push_text(&mut out, "degree histogram count overflow");
            },
            DegreeHistogramError::MissingObservation { degree, bucket } => {
                push_text(&mut out, "cannot remove degree ");
                push_decimal(&mut out, degree as u64);
                push_text(&mut out, ": canonical bucket ");
                push_decimal(&mut out, bucket as u64);
                push_text(&mut out, " is empty");
            },
            DegreeHistogramError::ProfileMismatch { left_maximum, right_maximum } => {
                push_text(&mut out, "degree histogram ceilings differ: ");
                push_decimal(&mut out, left_maximum as u64);
                push_text(&mut out, " versus ");
                push_decimal(&mut out, right_maximum as u64);
            },
        }
        proof {
            assert(out@ =~= degree_histogram_error_text(*self));
        }
        out
    }
}

/// Diagnostic text of a codec failure: the error as `Debug` prints it.
pub open spec fn codec_error_text(value: DegreeHistogramCodecError) -> Seq<char> {
    match value {
        DegreeHistogramCodecError::EncodedLengthMismatch { expected, actual } => "EncodedLengthMismatch { expected: "@ + decimal(expected as nat) + ", actual: "@ + decimal(actual as nat) + " }"@,
        DegreeHistogramCodecError::MagicMismatch { actual } => "MagicMismatch { actual: "@ + "["@ + byte_list(actual@) + "]"@ + " }"@,
        DegreeHistogramCodecError::UnsupportedVersion { actual } => "UnsupportedVersion { actual: "@ + decimal(actual as nat) + " }"@,
        DegreeHistogramCodecError::BucketCountMismatch { actual } => "BucketCountMismatch { actual: "@ + decimal(actual as nat) + " }"@,
        DegreeHistogramCodecError::ProfileMismatch { expected_maximum, actual_maximum } => "ProfileMismatch { expected_maximum: "@ + decimal(expected_maximum as nat) + ", actual_maximum: "@ + decimal(actual_maximum as nat) + " }"@,
        DegreeHistogramCodecError::Truncated { offset, needed, remaining } => "Truncated { offset: "@ + decimal(offset as nat) + ", needed: "@ + decimal(needed as nat) + ", remaining: "@ + decimal(remaining as nat) + " }"@,
        DegreeHistogramCodecError::TrailingBytes { offset, remaining } => "TrailingBytes { offset: "@ + decimal(offset as nat) + ", remaining: "@ + decimal(remaining as nat) + " }"@,
        DegreeHistogramCodecError::ObservationLimitExceeded { actual, maximum } => "ObservationLimitExceeded { actual: "@ + decimal(actual as nat) + ", maximum: "@ + decimal(maximum as nat) + " }"@,
        DegreeHistogramCodecError::CountOverflow => "CountOverflow"@,
        DegreeHistogramCodecError::TotalMismatch { expected, actual } => "TotalMismatch { expected: "@ + decimal(expected as nat) + ", actual: "@ + decimal(actual as nat) + " }"@,
    }
}

fn push_codec_error_text(out: &mut String, value: DegreeHistogramCodecError)
    ensures
        final(out)@ == old(out)@ + codec_error_text(value),
{
    match value {
        DegreeHistogramCodecError::EncodedLengthMismatch { expected, actual } => {
            push_text(out, "EncodedLengthMismatch { expected: ");
            push_decimal(out, expected as u64);
            push_text(out, ", actual: ");
            push_decimal(out, actual as u64);
            push_text(out, " }");
        },
        DegreeHistogramCodecError::MagicMismatch { actual } => {
            push_text(out, "MagicMismatch { actual: ");
            push_bytes8(out, actual);
            push_text(out, " }");
        },
        DegreeHistogramCodecError::UnsupportedVersion { actual } => {
            push_text(out, "UnsupportedVersion { actual: ");
            push_decimal(out, actual as u64);
            push_text(out, " }");
        },
        DegreeHistogramCodecError::BucketCountMismatch { actual } => {
            push_text(out, "BucketCountMismatch { actual: ");
            push_decimal(out, actual as u64);
            push_text(out, " }");
        },
        DegreeHistogramCodecError::ProfileMismatch { expected_maximum, actual_maximum } => {
            push_text(out, "ProfileMismatch { expected_maximum: ");
            push_decimal(out, expected_maximum as u64);
            push_text(out, ", actual_maximum: ");
            push_decimal(out, actual_maximum as u64);
            push_text(out, " }");
        },
        DegreeHistogramCodecError::Truncated { offset, needed, remaining } => {
            push_text(out, "Truncated { offset: ");
            push_decimal(out, offset as u64);
            push_text(out, ", needed: ");
            push_decimal(out, needed as u64);
            push_text(out, ", remaining: ");
            push_decimal(out, remaining as u64);
            push_text(out, " }");
        },
        DegreeHistogramCodecError::TrailingBytes { offset, remaining } => {
            push_text(out, "TrailingBytes { offset: ");
            push_decimal(out, offset as u64);
            push_text(out, ", remaining: ");
            push_decimal(out, remaining as u64);
            push_text(out, " }");
        },
        DegreeHistogramCodecError::ObservationLimitExceeded { actual, maximum } => {
            push_text(out, "ObservationLimitExceeded { actual: ");
            push_decimal(out, actual as u64);
            push_text(out, ", maximum: ");
            push_decimal(out, maximum as u64);
            push_text(out, " }");
        },
        DegreeHistogramCodecError::CountOverflow => push_text(out, "CountOverflow"),
        DegreeHistogramCodecError::TotalMismatch { expected, actual } => {
            push_text(out, "TotalMismatch { expected: ");
            push_decimal(out, expected as u64);
            push_text(out, ", actual: ");
            push_decimal(out, actual as u64);
            push_text(out, " }");
        },
    }
    proof {
        assert(out@ =~= old(out)@ + codec_error_text(value));
    }
}

impl DegreeHistogramCodecError {
    /// Human-readable diagnostic: the error as `Debug` prints it.
    pub fn message(&self) -> (text: String)
        ensures
            text@ == codec_error_text(*self),
    {
        let mut out = String::new();
        push_codec_error_text(&mut out, *self);
        proof {
            assert(out@ =~= codec_error_text(*self));
        }
        out
    }
}

} // verus!
