//! Deterministic bottom-k sampling over canonical byte observations.
//!
//! This sketch has distinct-set semantics: observing the same byte string more
//! than once is idempotent. Samples are ordered by `(stable_hash, bytes)`, so a
//! hash collision cannot make the logical state ambiguous. The retained vector
//! is always sorted, deduplicated, and no longer than the profile's `k`.
//!
//! Deletion is deliberately conservative. While the sample is not saturated,
//! it contains the complete distinct universe and a retained observation can be
//! removed exactly. Once saturated, removing a retained observation would
//! require the unknown `(k + 1)`th candidate and therefore returns
//! [`BottomKError::RebuildRequired`] without changing state. Removing an
//! unretained observation is always an exact no-op: in a saturated sketch it
//! cannot affect the current bottom-k, and in an unsaturated sketch its absence
//! proves it was never part of the represented distinct set.

use vstd::prelude::*;
use crate::text::{byte_list, decimal, hex_fixed, push_bytes8, push_decimal, push_hex_fixed, push_text};
use crate::codec::{
    be_u16, be_u64, decode_be_u16, decode_be_u64, extend_bytes, push_u16, push_u64, read_u16_at, read_u64_at,
    field_u16, field_u64, leading_eight, bytes_equal, u64_to_usize, lemma_be_u64_round_trip, lemma_be_u16_round_trip,
    lemma_be_u64_bytes_round_trip, lemma_be_u16_bytes_round_trip,
};
use crate::seeded_hash::{SeededHasher, seeded_hash, le_bytes};
use crate::sample_order::{
    sample_lt, strictly_sorted, prefix, merge_union, merge_bottom, lemma_sample_order, lemma_union_commutes,
    lemma_union_associates, lemma_union_idempotent, lemma_prefix_of_truncated, lemma_union_elements,
    lemma_union_sorted, lemma_prefix_sorted, lemma_union_singleton, lemma_union_head, sample_less, sample_equal,
};

verus! {

/// The domain tag `fgdb:bottom-k:observation:v1` hashed ahead of every
/// observation.
pub open spec fn hash_domain() -> Seq<u8> {
    seq![
        0x66u8, 0x67, 0x64, 0x62, 0x3a, 0x62, 0x6f, 0x74, 0x74, 0x6f, 0x6d, 0x2d, 0x6b, 0x3a, 0x6f, 0x62,
        0x73, 0x65, 0x72, 0x76, 0x61, 0x74, 0x69, 0x6f, 0x6e, 0x3a, 0x76, 0x31,
    ]
}

fn hash_domain_bytes() -> (domain: [u8; 28])
    ensures
        domain@ == hash_domain(),
{
    let domain = [
        0x66u8, 0x67, 0x64, 0x62, 0x3a, 0x62, 0x6f, 0x74, 0x74, 0x6f, 0x6d, 0x2d, 0x6b, 0x3a, 0x6f, 0x62,
        0x73, 0x65, 0x72, 0x76, 0x61, 0x74, 0x69, 0x6f, 0x6e, 0x3a, 0x76, 0x31,
    ];
    assert(domain@ =~= hash_domain());
    domain
}

/// Stable hash of an observation under a seed: the domain tag, the
/// observation's length, then the observation.
pub open spec fn bottom_k_hash(seed: u64, observation: Seq<u8>) -> u64 {
    seeded_hash(seed, hash_domain() + le_bytes(observation.len(), 8) + observation)
}

/// Stable hash algorithm named by a bottom-k profile.
#[derive(Clone, Copy, Debug, Eq, Hash, PartialEq, Structural)]
pub enum BottomKHashAlgorithm {
    /// Domain-separated seeded hash stream frozen by canonical vectors.
    SeededHasherV1,
}

/// One-byte canonical tag of a hash algorithm.
pub fn canonical_tag(algorithm: BottomKHashAlgorithm) -> (tag: u8)
    ensures
        tag == 1,
{
    match algorithm {
        BottomKHashAlgorithm::SeededHasherV1 => 1,
    }
}

/// Complete behavior, hash, and resource profile for a bottom-k sketch.
#[derive(Clone, Copy, Debug, Eq, Hash, PartialEq, Structural)]
pub struct BottomKProfile {
    /// Maximum number of distinct samples retained.
    pub k: usize,
    /// Stable hash algorithm included in profile identity.
    pub hash_algorithm: BottomKHashAlgorithm,
    /// Explicit deterministic seed for the stable hash.
    pub seed: u64,
    /// Maximum accepted length of one canonical observation.
    pub max_observation_bytes: usize,
    /// Maximum sum of observation bytes retained in the sample.
    pub max_sample_bytes: usize,
}

impl BottomKProfile {
    /// Creates a complete profile.
    pub fn new(k: usize, seed: u64, max_observation_bytes: usize, max_sample_bytes: usize) -> (profile: Self)
        ensures
            profile == (BottomKProfile {
                k,
                hash_algorithm: BottomKHashAlgorithm::SeededHasherV1,
                seed,
                max_observation_bytes,
                max_sample_bytes,
            }),
    {
        BottomKProfile {
            k,
            hash_algorithm: BottomKHashAlgorithm::SeededHasherV1,
            seed,
            max_observation_bytes,
            max_sample_bytes,
        }
    }
}

/// Caller-owned admission bounds for decoding one bottom-k value.
///
/// These bounds are independent of the profile embedded in untrusted bytes.
/// In particular, `max_samples` caps the profile's `k` even when the encoded
/// sample is empty.
#[derive(Clone, Copy, Debug, Eq, Hash, PartialEq, Structural)]
pub struct BottomKDecodeLimits {
    /// Maximum accepted canonical value length.
    pub max_encoded_bytes: usize,
    /// Maximum accepted profile `k` and retained sample count.
    pub max_samples: usize,
    /// Maximum accepted per-observation profile ceiling and payload length.
    pub max_observation_bytes: usize,
    /// Maximum accepted profile and retained sample byte total.
    pub max_sample_bytes: usize,
}

impl BottomKDecodeLimits {
    /// Creates explicit caller-owned decode admission bounds.
    pub fn new(
        max_encoded_bytes: usize,
        max_samples: usize,
        max_observation_bytes: usize,
        max_sample_bytes: usize,
    ) -> (limits: Self)
        ensures
            limits == (BottomKDecodeLimits { max_encoded_bytes, max_samples, max_observation_bytes, max_sample_bytes }),
    {
        BottomKDecodeLimits { max_encoded_bytes, max_samples, max_observation_bytes, max_sample_bytes }
    }
}

/// Allocation owned by a failed bottom-k transition.
#[derive(Clone, Copy, Debug, Eq, Hash, PartialEq, Structural)]
pub enum BottomKAllocationTarget {
    /// Sorted sample directory.
    SampleDirectory,
    /// Bytes for one retained observation.
    ObservationBytes,
    /// Temporary sorted directory for an atomic merge.
    MergeDirectory,
    /// Observation bytes cloned into an atomic merge result.
    MergeObservationBytes,
}

/// Typed construction or transition failure.
#[derive(Clone, Copy, Debug, Eq, PartialEq, Structural)]
pub enum BottomKError {
    /// A zero-sized sample has no useful bottom-k semantics.
    EmptySampleSize,
    /// One observation exceeds the complete profile's byte ceiling.
    ObservationTooLarge {
        /// Rejected observation length.
        bytes: usize,
        /// Profile ceiling.
        maximum: usize,
    },
    /// Retaining a candidate would exceed the sample payload ceiling.
    SampleByteLimitExceeded {
        /// Payload bytes the transition would retain.
        requested: usize,
        /// Profile ceiling.
        maximum: usize,
    },
    /// Checked payload-size arithmetic overflowed.
    SampleByteCountOverflow,
    /// Checked sample-directory size arithmetic overflowed.
    SampleCountOverflow,
    /// The allocator rejected a checked reservation.
    AllocationFailed {
        /// Component whose reservation failed.
        target: BottomKAllocationTarget,
        /// Exact entries or bytes requested.
        requested: usize,
    },
    /// Merge operands do not use the identical complete profile.
    ProfileMismatch,
    /// Exact deletion requires candidates that bottom-k does not retain.
    RebuildRequired {
        /// Stable hash of the retained observation whose removal was refused.
        observation_hash: u64,
    },
}

/// Caller-owned resource checked while admitting canonical bottom-k bytes.
#[derive(Clone, Copy, Debug, Eq, Hash, PartialEq, Structural)]
pub enum BottomKDecodeResource {
    /// Total canonical input bytes.
    EncodedBytes,
    /// Profile `k` or retained directory entries.
    Samples,
    /// Per-observation profile ceiling or one retained payload.
    ObservationBytes,
    /// Profile or retained aggregate payload bytes.
    SampleBytes,
}

/// Strict canonical-codec failure.
#[derive(Clone, Copy, Debug, Eq, PartialEq)]
pub enum BottomKCodecError {
    /// The in-memory or decoded sketch violates a construction invariant.
    State(BottomKError),
    /// A platform-sized profile or state field cannot be represented canonically.
    IntegerUnrepresentable,
    /// Computing the exact canonical value length overflowed.
    LengthOverflow,
    /// The allocator rejected the exact canonical byte reservation.
    AllocationFailed {
        /// Requested byte count.
        requested: usize,
    },
    /// The eight-byte format discriminator did not match.
    MagicMismatch {
        /// Bytes found at the canonical magic position.
        actual: [u8; 8],
    },
    /// The format version is not implemented.
    UnsupportedVersion {
        /// Version found in the input.
        actual: u16,
    },
    /// The encoded hash-algorithm discriminator is not implemented.
    UnsupportedHashAlgorithm {
        /// Discriminator found in the canonical profile.
        actual: u8,
    },
    /// The encoded complete profile does not equal the trusted expected profile.
    ProfileMismatch {
        /// Trusted profile supplied by the caller.
        expected: BottomKProfile,
        /// Profile decoded from the canonical header.
        actual: BottomKProfile,
    },
    /// A caller-owned decode admission bound was exceeded.
    DecodeLimitExceeded {
        /// Resource whose admission bound was exceeded.
        resource: BottomKDecodeResource,
        /// Encoded profile, state, or input value.
        actual: usize,
        /// Caller-owned maximum.
        maximum: usize,
    },
    /// Input ended before a complete field or payload could be read.
    Truncated {
        /// Byte offset of the field or payload.
        offset: usize,
        /// Bytes needed at that offset.
        needed: usize,
        /// Bytes remaining at the offset.
        remaining: usize,
    },
    /// The retained sample count exceeds the encoded profile's `k`.
    SampleCountExceedsProfile {
        /// Encoded retained sample count.
        actual: usize,
        /// Encoded profile ceiling.
        maximum: usize,
    },
    /// The encoded or in-memory byte total disagrees with the sample payloads.
    SampleByteCountMismatch {
        /// Declared byte total.
        declared: usize,
        /// Sum of retained observation lengths.
        actual: usize,
    },
    /// A retained hash is not the profile hash of its observation.
    HashMismatch {
        /// Zero-based sample index.
        index: usize,
        /// Hash stored in the canonical state.
        actual: u64,
        /// Hash derived from the complete profile and observation.
        expected: u64,
    },
    /// A retained sample repeats its predecessor.
    DuplicateSample {
        /// Zero-based index of the repeated sample.
        index: usize,
    },
    /// Retained samples are not strictly increasing by `(hash, bytes)`.
    SamplesOutOfOrder {
        /// Zero-based index of the first out-of-order sample.
        index: usize,
    },
    /// Input contains bytes after the one canonical value.
    TrailingBytes {
        /// First trailing byte.
        offset: usize,
        /// Number of trailing bytes.
        remaining: usize,
    },
}

/// One canonical retained sample.
#[derive(Clone, Debug, Eq, Hash, PartialEq, PartialOrd, Ord)]
pub struct BottomKSample {
    hash: u64,
    observation: Vec<u8>,
}

impl View for BottomKSample {
    type V = (u64, Seq<u8>);

    closed spec fn view(&self) -> (u64, Seq<u8>) {
        (self.hash, self.observation@)
    }
}

impl BottomKSample {
    /// A sample with the given hash and observation bytes. Nothing checks
    /// that the hash belongs to the observation; the sketch and its codec
    /// check that.
    pub fn new(hash: u64, observation: Vec<u8>) -> (sample: Self)
        ensures
            sample@ == (hash, observation@),
    {
        BottomKSample { hash, observation }
    }

    /// Seeded stable hash used for sample ordering.
    pub fn hash(&self) -> (hash: u64)
        ensures
            hash == self@.0,
    {
        self.hash
    }

    /// Canonical observation bytes used to break hash collisions.
    pub fn observation(&self) -> (observation: &[u8])
        ensures
            observation@ == self@.1,
    {
        self.observation.as_slice()
    }
}

/// Views of a sample directory.
pub open spec fn sample_views(samples: Seq<BottomKSample>) -> Seq<(u64, Seq<u8>)> {
    samples.map_values(|s: BottomKSample| s@)
}

/// Sum of the observation lengths of a sample sequence.
pub open spec fn total_bytes(samples: Seq<(u64, Seq<u8>)>) -> nat
    decreases samples.len(),
{
    if samples.len() == 0 {
        0
    } else {
        total_bytes(samples.drop_last()) + samples.last().1.len()
    }
}

/// A well-formed retained sample for a profile: strictly increasing, at most
/// `k` long, every hash the profile hash of its observation, every
/// observation and the total within their ceilings.
pub open spec fn valid_samples(profile: BottomKProfile, samples: Seq<(u64, Seq<u8>)>) -> bool {
    &&& profile.k > 0
    &&& strictly_sorted(samples)
    &&& samples.len() <= profile.k
    &&& forall|i: int|
        0 <= i < samples.len() ==> #[trigger] samples[i].0 == bottom_k_hash(profile.seed, samples[i].1)
            && samples[i].1.len() <= profile.max_observation_bytes
    &&& total_bytes(samples) <= profile.max_sample_bytes
}

/// Samples after observing one more candidate: the first `k` of their
/// union with it.
pub open spec fn observe_samples(samples: Seq<(u64, Seq<u8>)>, candidate: (u64, Seq<u8>), k: nat) -> Seq<
    (u64, Seq<u8>),
> {
    merge_bottom(samples, seq![candidate], k)
}

/// Merging is commutative.
pub proof fn law_merge_commutes(a: Seq<(u64, Seq<u8>)>, b: Seq<(u64, Seq<u8>)>, k: nat)
    ensures
        merge_bottom(a, b, k) == merge_bottom(b, a, k),
{
    lemma_union_commutes(a, b);
}

/// Merging is associative: merging `a` with `b` and then `c` keeps the
/// same samples as merging `a` with the merge of `b` and `c`.
pub proof fn law_merge_associates(a: Seq<(u64, Seq<u8>)>, b: Seq<(u64, Seq<u8>)>, c: Seq<(u64, Seq<u8>)>, k: nat)
    ensures
        merge_bottom(merge_bottom(a, b, k), c, k) == merge_bottom(a, merge_bottom(b, c, k), k),
{
    lemma_prefix_of_truncated(merge_union(a, b), c, k, k);
    lemma_union_associates(a, b, c);
    lemma_union_commutes(a, merge_union(b, c));
    lemma_union_commutes(a, prefix(merge_union(b, c), k));
    lemma_prefix_of_truncated(merge_union(b, c), a, k, k);
}

/// Merging a valid sample with itself changes nothing.
pub proof fn law_merge_idempotent(a: Seq<(u64, Seq<u8>)>, k: nat)
    requires
        strictly_sorted(a),
        a.len() <= k,
    ensures
        merge_bottom(a, a, k) == a,
{
    lemma_union_idempotent(a);
}

/// Observations commute: the retained samples depend on the set of observed
/// values, not on the order in which they arrived.
pub proof fn law_observations_commute(
    samples: Seq<(u64, Seq<u8>)>,
    first: (u64, Seq<u8>),
    second: (u64, Seq<u8>),
    k: nat,
)
    ensures
        observe_samples(observe_samples(samples, first, k), second, k) == observe_samples(
            observe_samples(samples, second, k),
            first,
            k,
        ),
{
    let one = seq![first];
    let two = seq![second];
    lemma_prefix_of_truncated(merge_union(samples, one), two, k, k);
    lemma_prefix_of_truncated(merge_union(samples, two), one, k, k);
    lemma_union_associates(samples, one, two);
    lemma_union_associates(samples, two, one);
    lemma_union_commutes(one, two);
}

/// Observing an already retained candidate changes nothing.
pub proof fn law_duplicate_observation_is_idempotent(samples: Seq<(u64, Seq<u8>)>, candidate: (u64, Seq<u8>), k: nat)
    requires
        strictly_sorted(samples),
        samples.len() <= k,
        samples.contains(candidate),
    ensures
        observe_samples(samples, candidate, k) == samples,
{
    let p = choose|p: int| 0 <= p < samples.len() && samples[p] == candidate;
    assert forall|i: int| 0 <= i < p implies #[trigger] sample_lt(samples[i], candidate) by {
    }
    assert forall|i: int| p <= i < samples.len() implies !sample_lt(#[trigger] samples[i], candidate) by {
        lemma_sample_order(samples[i], candidate, samples[i]);
        if i > p {
            assert(sample_lt(samples[p], samples[i]));
        }
    }
    lemma_union_singleton(samples, candidate, p);
}

proof fn lemma_total_insert(s: Seq<(u64, Seq<u8>)>, p: int, x: (u64, Seq<u8>))
    requires
        0 <= p <= s.len(),
    ensures
        total_bytes(s.insert(p, x)) == total_bytes(s) + x.1.len(),
    decreases s.len(),
{
    if p == s.len() {
        assert(s.insert(p, x).drop_last() =~= s);
    } else {
        lemma_total_insert(s.drop_last(), p, x);
        assert(s.insert(p, x).drop_last() =~= s.drop_last().insert(p, x));
    }
}

proof fn lemma_total_remove(s: Seq<(u64, Seq<u8>)>, p: int)
    requires
        0 <= p < s.len(),
    ensures
        total_bytes(s.remove(p)) + s[p].1.len() == total_bytes(s),
    decreases s.len(),
{
    if p == s.len() - 1 {
        assert(s.remove(p) =~= s.drop_last());
    } else {
        lemma_total_remove(s.drop_last(), p);
        assert(s.remove(p).drop_last() =~= s.drop_last().remove(p));
    }
}

proof fn lemma_total_push(s: Seq<(u64, Seq<u8>)>, x: (u64, Seq<u8>))
    ensures
        total_bytes(s.push(x)) == total_bytes(s) + x.1.len(),
{
    assert(s.push(x).drop_last() =~= s);
}

/// Borrowed canonical logical state.
#[derive(Clone, Copy, Debug, Eq, PartialEq)]
pub struct BottomKState<'sketch> {
    /// Complete behavior and resource profile.
    pub profile: BottomKProfile,
    /// Sum of retained canonical observation lengths.
    pub sample_bytes: usize,
    /// Samples sorted by `(hash, observation bytes)` with no duplicates.
    pub samples: &'sketch [BottomKSample],
}

/// Mergeable deterministic distinct bottom-k sample.
#[derive(Debug, Eq, PartialEq)]
pub struct BottomKSketch {
    profile: BottomKProfile,
    samples: Vec<BottomKSample>,
    sample_bytes: usize,
}

impl Clone for BottomKSketch {
    fn clone(&self) -> (copy: Self)
        ensures
            copy.spec_profile() == self.spec_profile(),
            copy.spec_samples() == self.spec_samples(),
            copy.spec_sample_bytes() == self.spec_sample_bytes(),
    {
        proof {
            use_type_invariant(self);
        }
        let mut samples: Vec<BottomKSample> = Vec::new();
        let mut index: usize = 0;
        while index < self.samples.len()
            invariant
                index <= self.samples@.len(),
                samples@.len() == index,
                sample_views(samples@) == sample_views(self.samples@).subrange(0, index as int),
            decreases self.samples@.len() - index,
        {
            let copy = copy_sample(&self.samples[index]);
            let ghost before = samples@;
            samples.push(copy);
            proof {
                assert forall|i: int| 0 <= i < index + 1 implies #[trigger] sample_views(samples@)[i]
                    == sample_views(self.samples@)[i] by {
                    if i < index {
                        assert(samples@[i] == before[i]);
                        assert(sample_views(before)[i] == sample_views(self.samples@)[i]);
                    }
                }
                assert(sample_views(samples@) =~= sample_views(self.samples@).subrange(0, index + 1));
            }
            index = index + 1;
        }
        proof {
            assert(sample_views(samples@) =~= sample_views(self.samples@));
        }
        BottomKSketch { profile: self.profile, samples, sample_bytes: self.sample_bytes }
    }
}

fn copy_sample(sample: &BottomKSample) -> (copy: BottomKSample)
    ensures
        copy@ == sample@,
{
    let mut observation: Vec<u8> = Vec::new();
    extend_bytes(&mut observation, sample.observation.as_slice());
    BottomKSample { hash: sample.hash, observation }
}

/// Computes a profile's stable hash of an observation.
pub fn stable_hash(algorithm: BottomKHashAlgorithm, seed: u64, observation: &[u8]) -> (result: Result<
    u64,
    BottomKError,
>)
    ensures
        result == Ok::<u64, BottomKError>(bottom_k_hash(seed, observation@)),
{
    let observation_bytes = observation.len() as u64;
    match algorithm {
        BottomKHashAlgorithm::SeededHasherV1 => {
            let domain = hash_domain_bytes();
            let mut hasher = SeededHasher::new(seed);
            hasher.write(&domain);
            hasher.write_u64(observation_bytes);
            hasher.write(observation);
            proof {
                assert(hasher.spec_written() =~= hash_domain() + le_bytes(observation@.len(), 8) + observation@);
            }
            Ok(hasher.finish())
        },
    }
}

fn try_clone_sample(hash: u64, observation: &[u8], target: BottomKAllocationTarget) -> (result: Result<
    BottomKSample,
    BottomKError,
>)
    ensures
        match result {
            Ok(sample) => sample@ == (hash, observation@),
            Err(e) => e == BottomKError::AllocationFailed { target, requested: observation@.len() as usize },
        },
{
    let mut bytes: Vec<u8> = Vec::new();
    match bytes.try_reserve(observation.len()) {
        Ok(()) => {},
        Err(_) => {
            return Err(BottomKError::AllocationFailed { target, requested: observation.len() });
        },
    }
    extend_bytes(&mut bytes, observation);
    Ok(BottomKSample { hash, observation: bytes })
}

spec fn profile_of(sketch: &BottomKSketch) -> BottomKProfile {
    sketch.profile
}

/// What observing a candidate does to a valid sample, given where the
/// candidate would be inserted.
#[verifier::spinoff_prover]
#[verifier::rlimit(50)]
proof fn lemma_observe_step(
    profile: BottomKProfile,
    old_view: Seq<(u64, Seq<u8>)>,
    candidate: (u64, Seq<u8>),
    insertion: int,
)
    requires
        valid_samples(profile, old_view),
        candidate.0 == bottom_k_hash(profile.seed, candidate.1),
        candidate.1.len() <= profile.max_observation_bytes,
        0 <= insertion <= old_view.len(),
        !old_view.contains(candidate),
        forall|i: int| 0 <= i < insertion ==> #[trigger] sample_lt(old_view[i], candidate),
        forall|i: int| insertion <= i < old_view.len() ==> !sample_lt(#[trigger] old_view[i], candidate),
    ensures
        ({
            let next = observe_samples(old_view, candidate, profile.k as nat);
            let inserted = old_view.insert(insertion, candidate);
            let saturated = old_view.len() == profile.k;
            &&& saturated && insertion == profile.k ==> next == old_view
            &&& !(saturated && insertion == profile.k) ==> {
                &&& next != old_view
                &&& saturated ==> next == inserted.drop_last() && total_bytes(next) == total_bytes(old_view)
                    - old_view.last().1.len() + candidate.1.len()
                &&& !saturated ==> next == inserted && total_bytes(next) == total_bytes(old_view) + candidate.1.len()
                &&& total_bytes(next) <= profile.max_sample_bytes ==> valid_samples(profile, next)
            }
        }),
{
    let k = profile.k as nat;
    let next = observe_samples(old_view, candidate, k);
    let inserted = old_view.insert(insertion, candidate);
    let saturated = old_view.len() == profile.k;
    lemma_union_singleton(old_view, candidate, insertion);
    if insertion < old_view.len() {
        assert(old_view[insertion] != candidate);
    }
    assert(merge_union(old_view, seq![candidate]) == inserted);
    if saturated && insertion == profile.k {
        assert(prefix(inserted, k) =~= old_view);
        return;
    }
    lemma_total_insert(old_view, insertion, candidate);
    if saturated {
        assert(next =~= inserted.drop_last());
        assert(inserted.last() == old_view.last());
        assert(inserted =~= inserted.drop_last().push(inserted.last()));
        lemma_total_push(inserted.drop_last(), inserted.last());
        assert(next[insertion] == candidate);
    } else {
        assert(next == inserted);
    }
    let single = seq![candidate];
    assert(strictly_sorted(single));
    lemma_union_sorted(old_view, single);
    lemma_union_elements(old_view, single);
    lemma_prefix_sorted(inserted, k);
    assert forall|i: int| 0 <= i < next.len() implies #[trigger] next[i].0 == bottom_k_hash(profile.seed, next[i].1)
        && next[i].1.len() <= profile.max_observation_bytes by {
        assert(next[i] == inserted[i]);
        if old_view.contains(inserted[i]) {
            let w = choose|w: int| 0 <= w < old_view.len() && old_view[w] == inserted[i];
            assert(old_view[w].0 == bottom_k_hash(profile.seed, old_view[w].1));
        } else {
            assert(single.contains(inserted[i]));
            assert(single[0] == inserted[i]);
        }
    }
}

/// The first `k` of the union of two valid samples is strictly sorted, at
/// most `k` long, and made of samples whose hashes and sizes are valid.
proof fn lemma_merge_shape(profile: BottomKProfile, a: Seq<(u64, Seq<u8>)>, b: Seq<(u64, Seq<u8>)>)
    requires
        valid_samples(profile, a),
        valid_samples(profile, b),
    ensures
        strictly_sorted(merge_bottom(a, b, profile.k as nat)),
        merge_bottom(a, b, profile.k as nat).len() <= profile.k,
        forall|i: int|
            0 <= i < merge_bottom(a, b, profile.k as nat).len() ==> #[trigger] merge_bottom(a, b, profile.k as nat)[i].0
                == bottom_k_hash(profile.seed, merge_bottom(a, b, profile.k as nat)[i].1) && merge_bottom(
                a,
                b,
                profile.k as nat,
            )[i].1.len() <= profile.max_observation_bytes,
        total_bytes(merge_bottom(a, b, profile.k as nat)) <= profile.max_sample_bytes ==> valid_samples(
            profile,
            merge_bottom(a, b, profile.k as nat),
        ),
{
    let k = profile.k as nat;
    let u = merge_union(a, b);
    let r = merge_bottom(a, b, k);
    lemma_union_sorted(a, b);
    lemma_union_elements(a, b);
    lemma_prefix_sorted(u, k);
    assert forall|i: int| 0 <= i < r.len() implies #[trigger] r[i].0 == bottom_k_hash(profile.seed, r[i].1)
        && r[i].1.len() <= profile.max_observation_bytes by {
        assert(r[i] == u[i]);
        if a.contains(u[i]) {
            let w = choose|w: int| 0 <= w < a.len() && a[w] == u[i];
            assert(a[w].0 == bottom_k_hash(profile.seed, a[w].1));
        } else {
            let w = choose|w: int| 0 <= w < b.len() && b[w] == u[i];
            assert(b[w].0 == bottom_k_hash(profile.seed, b[w].1));
        }
    }
}

proof fn lemma_total_prefix_le(s: Seq<(u64, Seq<u8>)>, j: int)
    requires
        0 <= j <= s.len(),
    ensures
        total_bytes(s.take(j)) <= total_bytes(s),
    decreases s.len() - j,
{
    if j < s.len() {
        lemma_total_take_step(s, j);
        lemma_total_prefix_le(s, j + 1);
    } else {
        assert(s.take(j) =~= s);
    }
}

proof fn lemma_total_take_step(s: Seq<(u64, Seq<u8>)>, m: int)
    requires
        0 <= m < s.len(),
    ensures
        total_bytes(s.take(m + 1)) == total_bytes(s.take(m)) + s[m].1.len(),
{
    assert(s.take(m + 1).drop_last() =~= s.take(m));
}

/// The eight-byte format discriminator `FGDBBTK1`.
pub open spec fn bottom_k_magic() -> Seq<u8> {
    seq![0x46u8, 0x47u8, 0x44u8, 0x42u8, 0x42u8, 0x54u8, 0x4bu8, 0x31u8]
}

fn magic_bytes() -> (magic: [u8; 8])
    ensures
        magic@ == bottom_k_magic(),
{
    let magic = [0x46u8, 0x47u8, 0x44u8, 0x42u8, 0x42u8, 0x54u8, 0x4bu8, 0x31u8];
    assert(magic@ =~= bottom_k_magic());
    magic
}

/// Canonical records: for each sample its hash, its length and its bytes.
pub open spec fn record_bytes(samples: Seq<(u64, Seq<u8>)>) -> Seq<u8>
    decreases samples.len(),
{
    if samples.len() == 0 {
        Seq::empty()
    } else {
        let s = samples.last();
        record_bytes(samples.drop_last()) + be_u64(s.0) + be_u64(s.1.len() as u64) + s.1
    }
}

/// The fixed 59-byte header: magic, version, algorithm tag, the profile,
/// the byte total and the sample count.
pub open spec fn bottom_k_header(profile: BottomKProfile, sample_bytes: usize, count: nat) -> Seq<u8> {
    bottom_k_magic() + be_u16(1) + seq![1u8] + be_u64(profile.k as u64) + be_u64(profile.seed) + be_u64(
        profile.max_observation_bytes as u64,
    ) + be_u64(profile.max_sample_bytes as u64) + be_u64(sample_bytes as u64) + be_u64(count as u64)
}

/// Canonical encoding of a profile and logical state.
pub open spec fn bottom_k_canonical_bytes(profile: BottomKProfile, sample_bytes: usize, samples: Seq<(u64, Seq<u8>)>) -> Seq<
    u8,
> {
    bottom_k_header(profile, sample_bytes, samples.len()) + record_bytes(samples)
}

/// The first failing check of a state, sample by sample from index `i`
/// with `running` bytes before it, among `count` samples.
pub open spec fn state_check_from(profile: BottomKProfile, samples: Seq<(u64, Seq<u8>)>, i: int, running: int) -> Option<
    BottomKCodecError,
>
    decreases samples.len() - i,
{
    if i < 0 || i >= samples.len() {
        None
    } else {
        let s = samples[i];
        let next = running + s.1.len();
        if s.1.len() > profile.max_observation_bytes {
            Some(
                BottomKCodecError::State(
                    BottomKError::ObservationTooLarge {
                        bytes: s.1.len() as usize,
                        maximum: profile.max_observation_bytes,
                    },
                ),
            )
        } else if next > usize::MAX {
            Some(BottomKCodecError::State(BottomKError::SampleByteCountOverflow))
        } else if next > profile.max_sample_bytes {
            Some(
                BottomKCodecError::State(
                    BottomKError::SampleByteLimitExceeded { requested: next as usize, maximum: profile.max_sample_bytes },
                ),
            )
        } else if s.0 != bottom_k_hash(profile.seed, s.1) {
            Some(
                BottomKCodecError::HashMismatch {
                    index: i as usize,
                    actual: s.0,
                    expected: bottom_k_hash(profile.seed, s.1),
                },
            )
        } else if i > 0 && samples[i - 1] == s {
            Some(BottomKCodecError::DuplicateSample { index: i as usize })
        } else if i > 0 && !sample_lt(samples[i - 1], s) {
            Some(BottomKCodecError::SamplesOutOfOrder { index: i as usize })
        } else if 59 + 16 * samples.len() + next > usize::MAX {
            Some(BottomKCodecError::LengthOverflow)
        } else {
            state_check_from(profile, samples, i + 1, next)
        }
    }
}

/// The first failing check of a profile, declared byte total and samples,
/// or `None` when the state is canonical and encodable.
pub open spec fn state_check(profile: BottomKProfile, sample_bytes: usize, samples: Seq<(u64, Seq<u8>)>) -> Option<
    BottomKCodecError,
> {
    if profile.k == 0 {
        Some(BottomKCodecError::State(BottomKError::EmptySampleSize))
    } else if samples.len() > profile.k {
        Some(BottomKCodecError::SampleCountExceedsProfile { actual: samples.len() as usize, maximum: profile.k })
    } else if sample_bytes > profile.max_sample_bytes {
        Some(
            BottomKCodecError::State(
                BottomKError::SampleByteLimitExceeded { requested: sample_bytes, maximum: profile.max_sample_bytes },
            ),
        )
    } else if 59 + 16 * samples.len() > usize::MAX {
        Some(BottomKCodecError::LengthOverflow)
    } else {
        match state_check_from(profile, samples, 0, 0) {
            Some(e) => Some(e),
            None => if sample_bytes != total_bytes(samples) {
                Some(
                    BottomKCodecError::SampleByteCountMismatch {
                        declared: sample_bytes,
                        actual: total_bytes(samples) as usize,
                    },
                )
            } else {
                None
            },
        }
    }
}

proof fn lemma_valid_state_checks(profile: BottomKProfile, samples: Seq<(u64, Seq<u8>)>, i: int)
    requires
        valid_samples(profile, samples),
        0 <= i <= samples.len(),
        59 + 16 * samples.len() + total_bytes(samples) <= usize::MAX,
    ensures
        state_check_from(profile, samples, i, total_bytes(samples.take(i)) as int) is None,
    decreases samples.len() - i,
{
    if i < samples.len() {
        lemma_total_take_step(samples, i);
        lemma_total_prefix_le(samples, i + 1);
        if i > 0 {
            assert(sample_lt(samples[i - 1], samples[i]) && samples[i - 1] != samples[i]);
        }
        lemma_valid_state_checks(profile, samples, i + 1);
    }
}

/// A valid state is encodable exactly when its canonical length fits.
proof fn lemma_valid_state(profile: BottomKProfile, samples: Seq<(u64, Seq<u8>)>)
    requires
        valid_samples(profile, samples),
    ensures
        59 + 16 * samples.len() + total_bytes(samples) <= usize::MAX ==> state_check(
            profile,
            total_bytes(samples) as usize,
            samples,
        ) is None,
        59 + 16 * samples.len() + total_bytes(samples) > usize::MAX ==> state_check(
            profile,
            total_bytes(samples) as usize,
            samples,
        ) == Some(BottomKCodecError::LengthOverflow),
{
    if 59 + 16 * samples.len() + total_bytes(samples) <= usize::MAX {
        assert(samples.take(0) =~= Seq::<(u64, Seq<u8>)>::empty());
        lemma_valid_state_checks(profile, samples, 0);
    } else if 59 + 16 * samples.len() <= usize::MAX {
        assert(samples.take(0) =~= Seq::<(u64, Seq<u8>)>::empty());
        lemma_overflow_found(profile, samples, 0);
    }
}

proof fn lemma_overflow_found(profile: BottomKProfile, samples: Seq<(u64, Seq<u8>)>, i: int)
    requires
        valid_samples(profile, samples),
        0 <= i <= samples.len(),
        59 + 16 * samples.len() + total_bytes(samples.take(i)) <= usize::MAX,
        59 + 16 * samples.len() + total_bytes(samples) > usize::MAX,
    ensures
        state_check_from(profile, samples, i, total_bytes(samples.take(i)) as int) == Some(
            BottomKCodecError::LengthOverflow,
        ),
    decreases samples.len() - i,
{
    if i == samples.len() {
        assert(samples.take(i) =~= samples);
    } else {
        lemma_total_take_step(samples, i);
        lemma_total_prefix_le(samples, i + 1);
        if i > 0 {
            assert(sample_lt(samples[i - 1], samples[i]) && samples[i - 1] != samples[i]);
        }
        if 59 + 16 * samples.len() + total_bytes(samples.take(i + 1)) <= usize::MAX {
            lemma_overflow_found(profile, samples, i + 1);
        }
    }
}

/// Checks that a profile, declared byte total and samples form a canonical
/// state, and returns the exact length of its encoding.
///
/// The checks run in a fixed order and the first that fails names the
/// error.
#[verifier::rlimit(50)]
pub fn validate_canonical_state(profile: BottomKProfile, sample_bytes: usize, samples: &[BottomKSample]) -> (result:
    Result<usize, BottomKCodecError>)
    ensures
        match state_check(profile, sample_bytes, sample_views(samples@)) {
            Some(e) => result == Err::<usize, BottomKCodecError>(e),
            None => result == Ok::<usize, BottomKCodecError>(
                (59 + 16 * samples@.len() + total_bytes(sample_views(samples@))) as usize,
            ),
        },
{
    let ghost view = sample_views(samples@);
    if profile.k == 0 {
        return Err(BottomKCodecError::State(BottomKError::EmptySampleSize));
    }
    if samples.len() > profile.k {
        return Err(BottomKCodecError::SampleCountExceedsProfile { actual: samples.len(), maximum: profile.k });
    }
    if sample_bytes > profile.max_sample_bytes {
        return Err(
            BottomKCodecError::State(
                BottomKError::SampleByteLimitExceeded { requested: sample_bytes, maximum: profile.max_sample_bytes },
            ),
        );
    }
    let headers = match samples.len().checked_mul(16) {
        Some(v) => v,
        None => {
            return Err(BottomKCodecError::LengthOverflow);
        },
    };
    let mut encoded_len = match headers.checked_add(59) {
        Some(v) => v,
        None => {
            return Err(BottomKCodecError::LengthOverflow);
        },
    };
    let mut actual_sample_bytes: usize = 0;
    let mut index: usize = 0;
    proof {
        assert(view.take(0) =~= Seq::<(u64, Seq<u8>)>::empty());
    }
    while index < samples.len()
        invariant
            view == sample_views(samples@),
            profile.k > 0,
            samples@.len() <= profile.k,
            sample_bytes <= profile.max_sample_bytes,
            59 + 16 * samples@.len() <= usize::MAX,
            index <= samples@.len(),
            actual_sample_bytes == total_bytes(view.take(index as int)),
            encoded_len == 59 + 16 * samples@.len() + actual_sample_bytes,
            state_check_from(profile, view, 0, 0) == state_check_from(
                profile,
                view,
                index as int,
                actual_sample_bytes as int,
            ),
        decreases samples@.len() - index,
    {
        let sample = &samples[index];
        let observation = sample.observation.as_slice();
        proof {
            assert(view[index as int] == sample@);
            lemma_total_take_step(view, index as int);
        }
        if observation.len() > profile.max_observation_bytes {
            return Err(
                BottomKCodecError::State(
                    BottomKError::ObservationTooLarge {
                        bytes: observation.len(),
                        maximum: profile.max_observation_bytes,
                    },
                ),
            );
        }
        let next = match actual_sample_bytes.checked_add(observation.len()) {
            Some(v) => v,
            None => {
                return Err(BottomKCodecError::State(BottomKError::SampleByteCountOverflow));
            },
        };
        if next > profile.max_sample_bytes {
            return Err(
                BottomKCodecError::State(
                    BottomKError::SampleByteLimitExceeded { requested: next, maximum: profile.max_sample_bytes },
                ),
            );
        }
        let expected_hash = match stable_hash(profile.hash_algorithm, profile.seed, observation) {
            Ok(h) => h,
            Err(e) => {
                return Err(BottomKCodecError::State(e));
            },
        };
        if sample.hash != expected_hash {
            return Err(BottomKCodecError::HashMismatch { index, actual: sample.hash, expected: expected_hash });
        }
        if index > 0 {
            let previous = &samples[index - 1];
            let previous_observation = previous.observation.as_slice();
            proof {
                assert(view[index - 1] == previous@);
            }
            if sample_equal(previous.hash, previous_observation, sample.hash, observation) {
                return Err(BottomKCodecError::DuplicateSample { index });
            }
            if !sample_less(previous.hash, previous_observation, sample.hash, observation) {
                return Err(BottomKCodecError::SamplesOutOfOrder { index });
            }
        }
        encoded_len = match encoded_len.checked_add(observation.len()) {
            Some(v) => v,
            None => {
                return Err(BottomKCodecError::LengthOverflow);
            },
        };
        actual_sample_bytes = next;
        index = index + 1;
    }
    proof {
        assert(view.take(index as int) =~= view);
    }
    if sample_bytes != actual_sample_bytes {
        return Err(
            BottomKCodecError::SampleByteCountMismatch { declared: sample_bytes, actual: actual_sample_bytes },
        );
    }
    Ok(encoded_len)
}

proof fn lemma_record_bytes_step(samples: Seq<(u64, Seq<u8>)>, i: int)
    requires
        0 <= i < samples.len(),
    ensures
        record_bytes(samples.take(i + 1)) == record_bytes(samples.take(i)) + be_u64(samples[i].0) + be_u64(
            samples[i].1.len() as u64,
        ) + samples[i].1,
{
    assert(samples.take(i + 1).drop_last() =~= samples.take(i));
}


/// Start of record `i` in a byte string whose records follow the 59-byte
/// header, each a hash, a length and that many bytes.
pub open spec fn record_offset(bytes: Seq<u8>, i: nat) -> int
    decreases i,
{
    if i == 0 {
        59
    } else {
        let previous = record_offset(bytes, (i - 1) as nat);
        previous + 16 + field_u64(bytes, previous + 8)
    }
}

/// Declared length of record `i`.
pub open spec fn record_len(bytes: Seq<u8>, i: nat) -> u64 {
    field_u64(bytes, record_offset(bytes, i) + 8)
}

/// The sample record `i` holds.
pub open spec fn record_sample(bytes: Seq<u8>, i: nat) -> (u64, Seq<u8>) {
    let offset = record_offset(bytes, i);
    (field_u64(bytes, offset), bytes.subrange(offset + 16, offset + 16 + record_len(bytes, i)))
}

/// The first `count` samples a byte string holds.
pub open spec fn decoded_samples(bytes: Seq<u8>, count: nat) -> Seq<(u64, Seq<u8>)> {
    Seq::new(count, |i: int| record_sample(bytes, i as nat))
}

/// Sum of the declared lengths of the records before `i`.
pub open spec fn running_len(bytes: Seq<u8>, i: nat) -> int
    decreases i,
{
    if i == 0 {
        0
    } else {
        running_len(bytes, (i - 1) as nat) + record_len(bytes, (i - 1) as nat)
    }
}

/// The profile a canonical header declares.
pub open spec fn header_profile(bytes: Seq<u8>) -> BottomKProfile {
    BottomKProfile {
        k: field_u64(bytes, 11) as usize,
        hash_algorithm: BottomKHashAlgorithm::SeededHasherV1,
        seed: field_u64(bytes, 19),
        max_observation_bytes: field_u64(bytes, 27) as usize,
        max_sample_bytes: field_u64(bytes, 35) as usize,
    }
}

/// The first failing check of the header that follows a valid magic, up to
/// and including the total length; `None` when the header admits records.
pub open spec fn header_fault(bytes: Seq<u8>, expected: BottomKProfile, limits: BottomKDecodeLimits) -> Option<
    BottomKCodecError,
> {
    let n = bytes.len();
    let k = field_u64(bytes, 11);
    let max_observation = field_u64(bytes, 27);
    let max_sample = field_u64(bytes, 35);
    let sample_bytes = field_u64(bytes, 43);
    let count = field_u64(bytes, 51);
    let expected_len = 59 + 16 * count + sample_bytes;
    if n < 10 {
        Some(BottomKCodecError::Truncated { offset: 8, needed: 2, remaining: (n - 8) as usize })
    } else if field_u16(bytes, 8) != 1 {
        Some(BottomKCodecError::UnsupportedVersion { actual: field_u16(bytes, 8) })
    } else if n < 11 {
        Some(BottomKCodecError::Truncated { offset: 10, needed: 1, remaining: (n - 10) as usize })
    } else if bytes[10] != 1 {
        Some(BottomKCodecError::UnsupportedHashAlgorithm { actual: bytes[10] })
    } else if n < 19 {
        Some(BottomKCodecError::Truncated { offset: 11, needed: 8, remaining: (n - 11) as usize })
    } else if k > usize::MAX {
        Some(BottomKCodecError::IntegerUnrepresentable)
    } else if n < 27 {
        Some(BottomKCodecError::Truncated { offset: 19, needed: 8, remaining: (n - 19) as usize })
    } else if n < 35 {
        Some(BottomKCodecError::Truncated { offset: 27, needed: 8, remaining: (n - 27) as usize })
    } else if max_observation > usize::MAX {
        Some(BottomKCodecError::IntegerUnrepresentable)
    } else if n < 43 {
        Some(BottomKCodecError::Truncated { offset: 35, needed: 8, remaining: (n - 35) as usize })
    } else if max_sample > usize::MAX {
        Some(BottomKCodecError::IntegerUnrepresentable)
    } else if n < 51 {
        Some(BottomKCodecError::Truncated { offset: 43, needed: 8, remaining: (n - 43) as usize })
    } else if sample_bytes > usize::MAX {
        Some(BottomKCodecError::IntegerUnrepresentable)
    } else if n < 59 {
        Some(BottomKCodecError::Truncated { offset: 51, needed: 8, remaining: (n - 51) as usize })
    } else if count > usize::MAX {
        Some(BottomKCodecError::IntegerUnrepresentable)
    } else if header_profile(bytes) != expected {
        Some(BottomKCodecError::ProfileMismatch { expected, actual: header_profile(bytes) })
    } else if k > limits.max_samples {
        Some(
            BottomKCodecError::DecodeLimitExceeded {
                resource: BottomKDecodeResource::Samples,
                actual: k as usize,
                maximum: limits.max_samples,
            },
        )
    } else if max_observation > limits.max_observation_bytes {
        Some(
            BottomKCodecError::DecodeLimitExceeded {
                resource: BottomKDecodeResource::ObservationBytes,
                actual: max_observation as usize,
                maximum: limits.max_observation_bytes,
            },
        )
    } else if max_sample > limits.max_sample_bytes {
        Some(
            BottomKCodecError::DecodeLimitExceeded {
                resource: BottomKDecodeResource::SampleBytes,
                actual: max_sample as usize,
                maximum: limits.max_sample_bytes,
            },
        )
    } else if k == 0 {
        Some(BottomKCodecError::State(BottomKError::EmptySampleSize))
    } else if count > k {
        Some(BottomKCodecError::SampleCountExceedsProfile { actual: count as usize, maximum: k as usize })
    } else if sample_bytes > max_sample {
        Some(
            BottomKCodecError::State(
                BottomKError::SampleByteLimitExceeded { requested: sample_bytes as usize, maximum: max_sample as usize },
            ),
        )
    } else if count > limits.max_samples {
        Some(
            BottomKCodecError::DecodeLimitExceeded {
                resource: BottomKDecodeResource::Samples,
                actual: count as usize,
                maximum: limits.max_samples,
            },
        )
    } else if sample_bytes > limits.max_sample_bytes {
        Some(
            BottomKCodecError::DecodeLimitExceeded {
                resource: BottomKDecodeResource::SampleBytes,
                actual: sample_bytes as usize,
                maximum: limits.max_sample_bytes,
            },
        )
    } else if expected_len > usize::MAX {
        Some(BottomKCodecError::LengthOverflow)
    } else if n < expected_len {
        Some(
            BottomKCodecError::Truncated {
                offset: 59,
                needed: (16 * count + sample_bytes) as usize,
                remaining: (n - 59) as usize,
            },
        )
    } else if n > expected_len {
        Some(BottomKCodecError::TrailingBytes { offset: expected_len as usize, remaining: (n - expected_len) as usize })
    } else {
        None
    }
}

/// The first failing check of the records from `i` on, among `count`.
pub open spec fn record_fault(bytes: Seq<u8>, profile: BottomKProfile, limits: BottomKDecodeLimits, count: nat, i: nat) -> Option<
    BottomKCodecError,
>
    decreases count - i,
{
    if i >= count {
        None
    } else {
        let n = bytes.len();
        let offset = record_offset(bytes, i);
        let length = record_len(bytes, i);
        let start = offset + 16;
        let next = running_len(bytes, i) + length;
        let sample = record_sample(bytes, i);
        if offset + 8 > usize::MAX {
            Some(BottomKCodecError::LengthOverflow)
        } else if offset + 8 > n {
            Some(BottomKCodecError::Truncated { offset: offset as usize, needed: 8, remaining: (n - offset) as usize })
        } else if offset + 16 > usize::MAX {
            Some(BottomKCodecError::LengthOverflow)
        } else if offset + 16 > n {
            Some(
                BottomKCodecError::Truncated {
                    offset: (offset + 8) as usize,
                    needed: 8,
                    remaining: (n - offset - 8) as usize,
                },
            )
        } else if length > usize::MAX {
            Some(BottomKCodecError::IntegerUnrepresentable)
        } else if length > profile.max_observation_bytes {
            Some(
                BottomKCodecError::State(
                    BottomKError::ObservationTooLarge { bytes: length as usize, maximum: profile.max_observation_bytes },
                ),
            )
        } else if length > limits.max_observation_bytes {
            Some(
                BottomKCodecError::DecodeLimitExceeded {
                    resource: BottomKDecodeResource::ObservationBytes,
                    actual: length as usize,
                    maximum: limits.max_observation_bytes,
                },
            )
        } else if start + length > usize::MAX {
            Some(BottomKCodecError::LengthOverflow)
        } else if start + length > n {
            Some(
                BottomKCodecError::Truncated {
                    offset: start as usize,
                    needed: length as usize,
                    remaining: (n - start) as usize,
                },
            )
        } else if next > usize::MAX {
            Some(BottomKCodecError::State(BottomKError::SampleByteCountOverflow))
        } else if next > profile.max_sample_bytes {
            Some(
                BottomKCodecError::State(
                    BottomKError::SampleByteLimitExceeded { requested: next as usize, maximum: profile.max_sample_bytes },
                ),
            )
        } else if sample.0 != bottom_k_hash(profile.seed, sample.1) {
            Some(
                BottomKCodecError::HashMismatch {
                    index: i as usize,
                    actual: sample.0,
                    expected: bottom_k_hash(profile.seed, sample.1),
                },
            )
        } else if i > 0 && record_sample(bytes, (i - 1) as nat) == sample {
            Some(BottomKCodecError::DuplicateSample { index: i as usize })
        } else if i > 0 && !sample_lt(record_sample(bytes, (i - 1) as nat), sample) {
            Some(BottomKCodecError::SamplesOutOfOrder { index: i as usize })
        } else {
            record_fault(bytes, profile, limits, count, i + 1)
        }
    }
}

/// The first failing check after a valid magic, header and length, over
/// the records and their totals; `None` when the value decodes.
pub open spec fn payload_fault(bytes: Seq<u8>, limits: BottomKDecodeLimits) -> Option<BottomKCodecError> {
    let profile = header_profile(bytes);
    let count = field_u64(bytes, 51) as nat;
    let declared = field_u64(bytes, 43);
    match record_fault(bytes, profile, limits, count, 0) {
        Some(e) => Some(e),
        None => if declared != running_len(bytes, count) {
            Some(
                BottomKCodecError::SampleByteCountMismatch {
                    declared: declared as usize,
                    actual: running_len(bytes, count) as usize,
                },
            )
        } else if record_offset(bytes, count) != bytes.len() {
            Some(
                BottomKCodecError::TrailingBytes {
                    offset: record_offset(bytes, count) as usize,
                    remaining: (bytes.len() - record_offset(bytes, count)) as usize,
                },
            )
        } else {
            None
        },
    }
}

/// Header fields read back to their values.
struct DecodedBottomKHeader {
    profile: BottomKProfile,
    sample_bytes: usize,
    sample_count: usize,
}


/// Reads and checks the complete header and every record without
/// allocating, returning the header's values.
///
/// The checks run in a fixed order and the first that fails names the
/// error.
#[verifier::rlimit(80)]
fn preflight_canonical_bytes(bytes: &[u8], expected: BottomKProfile, limits: BottomKDecodeLimits) -> (result: Result<
    DecodedBottomKHeader,
    BottomKCodecError,
>)
    ensures
        ({
            let n = bytes@.len();
            if n > limits.max_encoded_bytes {
                result == Err::<DecodedBottomKHeader, BottomKCodecError>(
                    BottomKCodecError::DecodeLimitExceeded {
                        resource: BottomKDecodeResource::EncodedBytes,
                        actual: n as usize,
                        maximum: limits.max_encoded_bytes,
                    },
                )
            } else if n < 8 {
                result == Err::<DecodedBottomKHeader, BottomKCodecError>(
                    BottomKCodecError::Truncated { offset: 0, needed: 8, remaining: n as usize },
                )
            } else if bytes@.subrange(0, 8) != bottom_k_magic() {
                result matches Err(BottomKCodecError::MagicMismatch { actual }) && actual@ == bytes@.subrange(0, 8)
            } else {
                match header_fault(bytes@, expected, limits) {
                    Some(e) => result == Err::<DecodedBottomKHeader, BottomKCodecError>(e),
                    None => match payload_fault(bytes@, limits) {
                        Some(e) => result == Err::<DecodedBottomKHeader, BottomKCodecError>(e),
                        None => result matches Ok(h) && h.profile == expected && h.sample_bytes == field_u64(bytes@, 43)
                            && h.sample_count == field_u64(bytes@, 51),
                    },
                }
            }
        }),
{
    let n = bytes.len();
    if n > limits.max_encoded_bytes {
        return Err(
            BottomKCodecError::DecodeLimitExceeded {
                resource: BottomKDecodeResource::EncodedBytes,
                actual: n,
                maximum: limits.max_encoded_bytes,
            },
        );
    }
    if n < 8 {
        return Err(BottomKCodecError::Truncated { offset: 0, needed: 8, remaining: n });
    }
    let magic = leading_eight(bytes);
    let expected_magic = magic_bytes();
    if !bytes_equal(&magic, &expected_magic) {
        return Err(BottomKCodecError::MagicMismatch { actual: magic });
    }
    let header = match read_header(bytes, expected, limits) {
        Ok(h) => h,
        Err(e) => {
            return Err(e);
        },
    };
    match scan_records(bytes, header.profile, limits, header.sample_count) {
        Ok(()) => {},
        Err(e) => {
            return Err(e);
        },
    }
    proof {
        assert(payload_fault(bytes@, limits) is None);
    }
    Ok(header)
}

/// Checks the header after the magic, up to and including the total length.
#[verifier::rlimit(80)]
fn read_header(bytes: &[u8], expected: BottomKProfile, limits: BottomKDecodeLimits) -> (result: Result<
    DecodedBottomKHeader,
    BottomKCodecError,
>)
    requires
        bytes@.len() >= 8,
    ensures
        match header_fault(bytes@, expected, limits) {
            Some(e) => result == Err::<DecodedBottomKHeader, BottomKCodecError>(e),
            None => result matches Ok(h) && h.profile == expected && h.profile == header_profile(bytes@)
                && h.sample_bytes == field_u64(bytes@, 43) && h.sample_count == field_u64(bytes@, 51),
        },
{
    let n = bytes.len();
    if n < 10 {
        return Err(BottomKCodecError::Truncated { offset: 8, needed: 2, remaining: n - 8 });
    }
    let version = read_u16_at(bytes, 8);
    if version != 1 {
        return Err(BottomKCodecError::UnsupportedVersion { actual: version });
    }
    if n < 11 {
        return Err(BottomKCodecError::Truncated { offset: 10, needed: 1, remaining: n - 10 });
    }
    let algorithm = bytes[10];
    if algorithm != 1 {
        return Err(BottomKCodecError::UnsupportedHashAlgorithm { actual: algorithm });
    }
    if n < 19 {
        return Err(BottomKCodecError::Truncated { offset: 11, needed: 8, remaining: n - 11 });
    }
    let k = match u64_to_usize(read_u64_at(bytes, 11)) {
        Some(v) => v,
        None => {
            return Err(BottomKCodecError::IntegerUnrepresentable);
        },
    };
    if n < 27 {
        return Err(BottomKCodecError::Truncated { offset: 19, needed: 8, remaining: n - 19 });
    }
    let seed = read_u64_at(bytes, 19);
    if n < 35 {
        return Err(BottomKCodecError::Truncated { offset: 27, needed: 8, remaining: n - 27 });
    }
    let max_observation_bytes = match u64_to_usize(read_u64_at(bytes, 27)) {
        Some(v) => v,
        None => {
            return Err(BottomKCodecError::IntegerUnrepresentable);
        },
    };
    if n < 43 {
        return Err(BottomKCodecError::Truncated { offset: 35, needed: 8, remaining: n - 35 });
    }
    let max_sample_bytes = match u64_to_usize(read_u64_at(bytes, 35)) {
        Some(v) => v,
        None => {
            return Err(BottomKCodecError::IntegerUnrepresentable);
        },
    };
    if n < 51 {
        return Err(BottomKCodecError::Truncated { offset: 43, needed: 8, remaining: n - 43 });
    }
    let sample_bytes = match u64_to_usize(read_u64_at(bytes, 43)) {
        Some(v) => v,
        None => {
            return Err(BottomKCodecError::IntegerUnrepresentable);
        },
    };
    if n < 59 {
        return Err(BottomKCodecError::Truncated { offset: 51, needed: 8, remaining: n - 51 });
    }
    let sample_count = match u64_to_usize(read_u64_at(bytes, 51)) {
        Some(v) => v,
        None => {
            return Err(BottomKCodecError::IntegerUnrepresentable);
        },
    };
    let profile = BottomKProfile {
        k,
        hash_algorithm: BottomKHashAlgorithm::SeededHasherV1,
        seed,
        max_observation_bytes,
        max_sample_bytes,
    };
    proof {
        assert(profile == header_profile(bytes@));
    }
    if profile != expected {
        return Err(BottomKCodecError::ProfileMismatch { expected, actual: profile });
    }
    if k > limits.max_samples {
        return Err(
            BottomKCodecError::DecodeLimitExceeded {
                resource: BottomKDecodeResource::Samples,
                actual: k,
                maximum: limits.max_samples,
            },
        );
    }
    if max_observation_bytes > limits.max_observation_bytes {
        return Err(
            BottomKCodecError::DecodeLimitExceeded {
                resource: BottomKDecodeResource::ObservationBytes,
                actual: max_observation_bytes,
                maximum: limits.max_observation_bytes,
            },
        );
    }
    if max_sample_bytes > limits.max_sample_bytes {
        return Err(
            BottomKCodecError::DecodeLimitExceeded {
                resource: BottomKDecodeResource::SampleBytes,
                actual: max_sample_bytes,
                maximum: limits.max_sample_bytes,
            },
        );
    }
    if k == 0 {
        return Err(BottomKCodecError::State(BottomKError::EmptySampleSize));
    }
    if sample_count > k {
        return Err(BottomKCodecError::SampleCountExceedsProfile { actual: sample_count, maximum: k });
    }
    if sample_bytes > max_sample_bytes {
        return Err(
            BottomKCodecError::State(
                BottomKError::SampleByteLimitExceeded { requested: sample_bytes, maximum: max_sample_bytes },
            ),
        );
    }
    if sample_count > limits.max_samples {
        return Err(
            BottomKCodecError::DecodeLimitExceeded {
                resource: BottomKDecodeResource::Samples,
                actual: sample_count,
                maximum: limits.max_samples,
            },
        );
    }
    if sample_bytes > limits.max_sample_bytes {
        return Err(
            BottomKCodecError::DecodeLimitExceeded {
                resource: BottomKDecodeResource::SampleBytes,
                actual: sample_bytes,
                maximum: limits.max_sample_bytes,
            },
        );
    }
    let headers = match sample_count.checked_mul(16) {
        Some(v) => v,
        None => {
            return Err(BottomKCodecError::LengthOverflow);
        },
    };
    let expected_len = match headers.checked_add(59) {
        Some(v) => match v.checked_add(sample_bytes) {
            Some(w) => w,
            None => {
                return Err(BottomKCodecError::LengthOverflow);
            },
        },
        None => {
            return Err(BottomKCodecError::LengthOverflow);
        },
    };
    if n < expected_len {
        return Err(BottomKCodecError::Truncated { offset: 59, needed: expected_len - 59, remaining: n - 59 });
    }
    if n > expected_len {
        return Err(BottomKCodecError::TrailingBytes { offset: expected_len, remaining: n - expected_len });
    }
    Ok(DecodedBottomKHeader { profile, sample_bytes, sample_count })
}

/// Checks every record and the totals after an admitted header.
#[verifier::rlimit(80)]
fn scan_records(bytes: &[u8], profile: BottomKProfile, limits: BottomKDecodeLimits, count: usize) -> (result: Result<
    (),
    BottomKCodecError,
>)
    requires
        bytes@.len() >= 59,
        profile == header_profile(bytes@),
        count == field_u64(bytes@, 51),
        field_u64(bytes@, 43) <= usize::MAX,
    ensures
        match payload_fault(bytes@, limits) {
            Some(e) => result == Err::<(), BottomKCodecError>(e),
            None => result is Ok,
        },
{
    let n = bytes.len();
    let declared = read_u64_at(bytes, 43) as usize;
    let mut offset: usize = 59;
    let mut running: usize = 0;
    let mut previous_hash: u64 = 0;
    let mut previous_start: usize = 0;
    let mut previous_end: usize = 0;
    let mut index: usize = 0;
    while index < count
        invariant
            n == bytes@.len(),
            n >= 59,
            profile == header_profile(bytes@),
            count == field_u64(bytes@, 51),
            declared == field_u64(bytes@, 43),
            index <= count,
            offset == record_offset(bytes@, index as nat),
            offset <= n,
            running == running_len(bytes@, index as nat),
            record_fault(bytes@, profile, limits, count as nat, 0) == record_fault(
                bytes@,
                profile,
                limits,
                count as nat,
                index as nat,
            ),
            index > 0 ==> {
                &&& previous_start <= previous_end <= n
                &&& record_sample(bytes@, (index - 1) as nat) == (
                    previous_hash,
                    bytes@.subrange(previous_start as int, previous_end as int),
                )
            },
        decreases count - index,
    {
        let hash_end = match offset.checked_add(8) {
            Some(v) => v,
            None => {
                return Err(BottomKCodecError::LengthOverflow);
            },
        };
        if hash_end > n {
            return Err(BottomKCodecError::Truncated { offset, needed: 8, remaining: n - offset });
        }
        let hash = read_u64_at(bytes, offset);
        let length_end = match hash_end.checked_add(8) {
            Some(v) => v,
            None => {
                return Err(BottomKCodecError::LengthOverflow);
            },
        };
        if length_end > n {
            return Err(BottomKCodecError::Truncated { offset: hash_end, needed: 8, remaining: n - hash_end });
        }
        let length = match u64_to_usize(read_u64_at(bytes, hash_end)) {
            Some(v) => v,
            None => {
                return Err(BottomKCodecError::IntegerUnrepresentable);
            },
        };
        if length > profile.max_observation_bytes {
            return Err(
                BottomKCodecError::State(
                    BottomKError::ObservationTooLarge { bytes: length, maximum: profile.max_observation_bytes },
                ),
            );
        }
        if length > limits.max_observation_bytes {
            return Err(
                BottomKCodecError::DecodeLimitExceeded {
                    resource: BottomKDecodeResource::ObservationBytes,
                    actual: length,
                    maximum: limits.max_observation_bytes,
                },
            );
        }
        let end = match length_end.checked_add(length) {
            Some(v) => v,
            None => {
                return Err(BottomKCodecError::LengthOverflow);
            },
        };
        if end > n {
            return Err(BottomKCodecError::Truncated { offset: length_end, needed: length, remaining: n - length_end });
        }
        let observation = vstd::slice::slice_subrange(bytes, length_end, end);
        let next = match running.checked_add(length) {
            Some(v) => v,
            None => {
                return Err(BottomKCodecError::State(BottomKError::SampleByteCountOverflow));
            },
        };
        if next > profile.max_sample_bytes {
            return Err(
                BottomKCodecError::State(
                    BottomKError::SampleByteLimitExceeded { requested: next, maximum: profile.max_sample_bytes },
                ),
            );
        }
        let expected_hash = match stable_hash(profile.hash_algorithm, profile.seed, observation) {
            Ok(h) => h,
            Err(e) => {
                return Err(BottomKCodecError::State(e));
            },
        };
        proof {
            assert(record_sample(bytes@, index as nat) == (hash, observation@));
        }
        if hash != expected_hash {
            return Err(BottomKCodecError::HashMismatch { index, actual: hash, expected: expected_hash });
        }
        if index > 0 {
            let previous = vstd::slice::slice_subrange(bytes, previous_start, previous_end);
            if sample_equal(previous_hash, previous, hash, observation) {
                return Err(BottomKCodecError::DuplicateSample { index });
            }
            if !sample_less(previous_hash, previous, hash, observation) {
                return Err(BottomKCodecError::SamplesOutOfOrder { index });
            }
        }
        previous_hash = hash;
        previous_start = length_end;
        previous_end = end;
        running = next;
        offset = end;
        index = index + 1;
    }
    if declared != running {
        return Err(BottomKCodecError::SampleByteCountMismatch { declared, actual: running });
    }
    if offset != n {
        return Err(BottomKCodecError::TrailingBytes { offset, remaining: n - offset });
    }
    Ok(())
}


/// Record `j` lies within the byte string.
pub open spec fn record_fits(bytes: Seq<u8>, j: nat) -> bool {
    record_offset(bytes, j) + 16 + record_len(bytes, j) <= bytes.len()
}

/// The facts about record `j` that a decode relies on.
pub open spec fn record_ok(bytes: Seq<u8>, profile: BottomKProfile, j: nat) -> bool {
    &&& record_fits(bytes, j)
    &&& 59 <= record_offset(bytes, j)
    &&& record_sample(bytes, j).0 == bottom_k_hash(profile.seed, record_sample(bytes, j).1)
    &&& record_len(bytes, j) <= profile.max_observation_bytes
    &&& record_sample(bytes, j).1.len() == record_len(bytes, j)
    &&& running_len(bytes, j + 1) <= profile.max_sample_bytes
    &&& j > 0 ==> sample_lt(record_sample(bytes, (j - 1) as nat), record_sample(bytes, j)) && record_sample(
        bytes,
        (j - 1) as nat,
    ) != record_sample(bytes, j)
}

proof fn lemma_record_ok_at(bytes: Seq<u8>, profile: BottomKProfile, limits: BottomKDecodeLimits, count: nat, i: nat)
    requires
        i < count,
        record_fault(bytes, profile, limits, count, i) is None,
    ensures
        record_ok(bytes, profile, i),
        record_fault(bytes, profile, limits, count, i + 1) is None,
{
    lemma_record_offset_floor(bytes, i);
    assert(running_len(bytes, i + 1) == running_len(bytes, i) + record_len(bytes, i));
}

proof fn lemma_records_ok(bytes: Seq<u8>, profile: BottomKProfile, limits: BottomKDecodeLimits, count: nat, i: nat)
    requires
        i <= count,
        record_fault(bytes, profile, limits, count, i) is None,
    ensures
        forall|j: nat| i <= j < count ==> #[trigger] record_ok(bytes, profile, j),
    decreases count - i,
{
    if i < count {
        lemma_record_ok_at(bytes, profile, limits, count, i);
        lemma_records_ok(bytes, profile, limits, count, i + 1);
    }
}

proof fn lemma_record_offset_floor(bytes: Seq<u8>, i: nat)
    ensures
        record_offset(bytes, i) >= 59,
    decreases i,
{
    if i > 0 {
        lemma_record_offset_floor(bytes, (i - 1) as nat);
    }
}

proof fn lemma_decoded_prefix(bytes: Seq<u8>, i: nat)
    ensures
        decoded_samples(bytes, i + 1).drop_last() == decoded_samples(bytes, i),
        decoded_samples(bytes, i + 1).last() == record_sample(bytes, i),
{
    assert(decoded_samples(bytes, i + 1).drop_last() =~= decoded_samples(bytes, i));
}

proof fn lemma_decoded_totals(bytes: Seq<u8>, i: nat)
    requires
        bytes.len() >= 59,
        forall|j: nat| j < i ==> #[trigger] record_fits(bytes, j) && record_sample(bytes, j).1.len() == record_len(bytes, j),
    ensures
        total_bytes(decoded_samples(bytes, i)) == running_len(bytes, i),
        bytes.subrange(59, record_offset(bytes, i)) == record_bytes(decoded_samples(bytes, i)),
    decreases i,
{
    if i == 0 {
        assert(decoded_samples(bytes, 0) =~= Seq::<(u64, Seq<u8>)>::empty());
        assert(bytes.subrange(59, 59) =~= Seq::<u8>::empty());
    } else {
        let p = (i - 1) as nat;
        lemma_decoded_totals(bytes, p);
        lemma_decoded_prefix(bytes, p);
        assert(record_fits(bytes, p));
        lemma_record_offset_floor(bytes, p);
        let o = record_offset(bytes, p);
        let sample = record_sample(bytes, p);
        lemma_be_u64_bytes_round_trip(bytes.subrange(o, o + 8));
        lemma_be_u64_bytes_round_trip(bytes.subrange(o + 8, o + 16));
        assert(bytes.subrange(59, record_offset(bytes, i)) =~= bytes.subrange(59, o) + bytes.subrange(o, o + 8)
            + bytes.subrange(o + 8, o + 16) + sample.1);
    }
}

proof fn lemma_adjacent_strictly_sorted(s: Seq<(u64, Seq<u8>)>)
    requires
        forall|j: int| 0 < j < s.len() ==> #[trigger] sample_lt(s[j - 1], s[j]),
    ensures
        strictly_sorted(s),
    decreases s.len(),
{
    if s.len() > 1 {
        let p = s.drop_last();
        assert forall|j: int| 0 < j < p.len() implies #[trigger] sample_lt(p[j - 1], p[j]) by {
            assert(sample_lt(s[j - 1], s[j]));
        }
        lemma_adjacent_strictly_sorted(p);
        assert forall|i: int, j: int| 0 <= i < j < s.len() implies sample_lt(s[i], s[j]) && s[i] != s[j] by {
            if j < s.len() - 1 {
                assert(sample_lt(p[i], p[j]) && p[i] != p[j]);
            } else {
                let last = s.len() - 1;
                assert(sample_lt(s[last - 1], s[last]));
                if i < last - 1 {
                    assert(sample_lt(p[i], p[last - 1]));
                    lemma_sample_order(s[i], s[last - 1], s[last]);
                }
                lemma_sample_order(s[i], s[last], s[i]);
            }
        }
    }
}

proof fn lemma_header_bytes(bytes: Seq<u8>)
    requires
        bytes.len() >= 59,
        bytes.subrange(0, 8) == bottom_k_magic(),
        field_u16(bytes, 8) == 1,
        bytes[10] == 1,
        field_u64(bytes, 11) <= usize::MAX,
        field_u64(bytes, 27) <= usize::MAX,
        field_u64(bytes, 35) <= usize::MAX,
        field_u64(bytes, 43) <= usize::MAX,
    ensures
        bytes.subrange(0, 59) == bottom_k_header(
            header_profile(bytes),
            field_u64(bytes, 43) as usize,
            field_u64(bytes, 51) as nat,
        ),
{
    lemma_be_u16_bytes_round_trip(bytes.subrange(8, 10));
    lemma_be_u64_bytes_round_trip(bytes.subrange(11, 19));
    lemma_be_u64_bytes_round_trip(bytes.subrange(19, 27));
    lemma_be_u64_bytes_round_trip(bytes.subrange(27, 35));
    lemma_be_u64_bytes_round_trip(bytes.subrange(35, 43));
    lemma_be_u64_bytes_round_trip(bytes.subrange(43, 51));
    lemma_be_u64_bytes_round_trip(bytes.subrange(51, 59));
    assert(bytes.subrange(0, 59) =~= bottom_k_header(
        header_profile(bytes),
        field_u64(bytes, 43) as usize,
        field_u64(bytes, 51) as nat,
    ));
}

#[verifier::spinoff_prover]
#[verifier::rlimit(50)]
proof fn lemma_decoded_valid(bytes: Seq<u8>, limits: BottomKDecodeLimits)
    requires
        bytes.len() >= 59,
        field_u64(bytes, 51) <= header_profile(bytes).k,
        header_profile(bytes).k > 0,
        record_fault(bytes, header_profile(bytes), limits, field_u64(bytes, 51) as nat, 0) is None,
    ensures
        valid_samples(header_profile(bytes), decoded_samples(bytes, field_u64(bytes, 51) as nat)),
        total_bytes(decoded_samples(bytes, field_u64(bytes, 51) as nat)) == running_len(
            bytes,
            field_u64(bytes, 51) as nat,
        ),
        bytes.subrange(59, record_offset(bytes, field_u64(bytes, 51) as nat)) == record_bytes(
            decoded_samples(bytes, field_u64(bytes, 51) as nat),
        ),
        forall|j: nat|
            j < field_u64(bytes, 51) ==> #[trigger] record_fits(bytes, j) && record_sample(bytes, j).1.len() == record_len(
                bytes,
                j,
            ) && 59 <= record_offset(bytes, j),
{
    let profile = header_profile(bytes);
    let count = field_u64(bytes, 51) as nat;
    let decoded = decoded_samples(bytes, count);
    lemma_records_ok(bytes, profile, limits, count, 0);
    assert forall|j: nat| j < count implies #[trigger] record_fits(bytes, j) && record_sample(bytes, j).1.len()
        == record_len(bytes, j) && 59 <= record_offset(bytes, j) by {
        assert(record_ok(bytes, profile, j));
    }
    lemma_decoded_totals(bytes, count);
    assert forall|j: int| 0 < j < decoded.len() implies #[trigger] sample_lt(decoded[j - 1], decoded[j]) by {
        assert(record_ok(bytes, profile, j as nat));
    }
    lemma_adjacent_strictly_sorted(decoded);
    assert forall|i: int| 0 <= i < decoded.len() implies #[trigger] decoded[i].0 == bottom_k_hash(
        profile.seed,
        decoded[i].1,
    ) && decoded[i].1.len() <= profile.max_observation_bytes by {
        assert(record_ok(bytes, profile, i as nat));
    }
    if count > 0 {
        assert(record_ok(bytes, profile, (count - 1) as nat));
    }
}

proof fn lemma_record_bytes_len(samples: Seq<(u64, Seq<u8>)>)
    ensures
        record_bytes(samples).len() == 16 * samples.len() + total_bytes(samples),
    decreases samples.len(),
{
    if samples.len() > 0 {
        lemma_record_bytes_len(samples.drop_last());
    }
}

proof fn lemma_record_bytes_prefix(samples: Seq<(u64, Seq<u8>)>, i: int)
    requires
        0 <= i <= samples.len(),
    ensures
        record_bytes(samples).subrange(0, record_bytes(samples.take(i)).len() as int) == record_bytes(samples.take(i)),
        record_bytes(samples.take(i)).len() <= record_bytes(samples).len(),
    decreases samples.len() - i,
{
    if i == samples.len() {
        assert(samples.take(i) =~= samples);
        assert(record_bytes(samples).subrange(0, record_bytes(samples).len() as int) =~= record_bytes(samples));
    } else {
        lemma_record_bytes_prefix(samples, i + 1);
        lemma_record_bytes_step(samples, i);
        let short = record_bytes(samples.take(i));
        let long = record_bytes(samples.take(i + 1));
        assert(long.subrange(0, short.len() as int) =~= short);
        assert(record_bytes(samples).subrange(0, short.len() as int) =~= long.subrange(0, short.len() as int));
    }
}

#[verifier::rlimit(100)]
proof fn lemma_canonical_records(samples: Seq<(u64, Seq<u8>)>, bytes: Seq<u8>, i: nat)
    requires
        bytes.len() >= 59,
        bytes.len() <= usize::MAX,
        bytes.subrange(59, bytes.len() as int) == record_bytes(samples),
        i <= samples.len(),
    ensures
        record_offset(bytes, i) == 59 + 16 * i + total_bytes(samples.take(i as int)),
        running_len(bytes, i) == total_bytes(samples.take(i as int)),
        forall|j: nat| j < i ==> #[trigger] record_sample(bytes, j) == samples[j as int],
    decreases i,
{
    lemma_record_bytes_len(samples);
    if i == 0 {
        assert(samples.take(0) =~= Seq::<(u64, Seq<u8>)>::empty());
    } else {
        let p = (i - 1) as nat;
        lemma_canonical_records(samples, bytes, p);
        let records = record_bytes(samples);
        lemma_record_bytes_prefix(samples, i as int);
        lemma_record_bytes_step(samples, p as int);
        lemma_record_bytes_len(samples.take(p as int));
        lemma_record_bytes_len(samples.take(i as int));
        lemma_total_take_step(samples, p as int);
        let o = record_offset(bytes, p);
        let r = o - 59;
        let x = samples[p as int];
        let upto = record_bytes(samples.take(i as int));
        assert(x.1.len() <= usize::MAX);
        assert(upto.subrange(r, r + 8) =~= be_u64(x.0));
        assert(upto.subrange(r + 8, r + 16) =~= be_u64(x.1.len() as u64));
        assert(upto.subrange(r + 16, r + 16 + x.1.len()) =~= x.1);
        assert(bytes.subrange(o, o + 8) =~= records.subrange(r, r + 8));
        assert(bytes.subrange(o + 8, o + 16) =~= records.subrange(r + 8, r + 16));
        assert(bytes.subrange(o + 16, o + 16 + x.1.len()) =~= records.subrange(r + 16, r + 16 + x.1.len()));
        assert(records.subrange(r, r + 8) =~= upto.subrange(r, r + 8));
        assert(records.subrange(r + 8, r + 16) =~= upto.subrange(r + 8, r + 16));
        assert(records.subrange(r + 16, r + 16 + x.1.len()) =~= upto.subrange(r + 16, r + 16 + x.1.len()));
        lemma_be_u64_round_trip(x.0);
        lemma_be_u64_round_trip(x.1.len() as u64);
        assert(field_u64(bytes, o) == x.0);
        assert(field_u64(bytes, o + 8) == x.1.len());
        assert(record_len(bytes, p) == x.1.len());
        assert(record_sample(bytes, p).1 =~= x.1);
        assert(record_sample(bytes, p) == x);
        assert(record_offset(bytes, i) == o + 16 + x.1.len());
        assert(running_len(bytes, i) == running_len(bytes, p) + x.1.len());
        assert forall|j: nat| j < i implies #[trigger] record_sample(bytes, j) == samples[j as int] by {
            if j < p {
            } else {
                assert(j == p);
            }
        }
    }
}

#[verifier::rlimit(100)]
proof fn lemma_canonical_records_pass(
    profile: BottomKProfile,
    samples: Seq<(u64, Seq<u8>)>,
    limits: BottomKDecodeLimits,
    bytes: Seq<u8>,
    i: nat,
)
    requires
        valid_samples(profile, samples),
        profile.max_observation_bytes <= limits.max_observation_bytes,
        bytes.len() == 59 + 16 * samples.len() + total_bytes(samples),
        bytes.len() <= usize::MAX,
        bytes.subrange(59, bytes.len() as int) == record_bytes(samples),
        i <= samples.len(),
    ensures
        record_fault(bytes, profile, limits, samples.len(), i) is None,
    decreases samples.len() - i,
{
    if i < samples.len() {
        lemma_canonical_records_pass(profile, samples, limits, bytes, i + 1);
        lemma_canonical_records(samples, bytes, i);
        lemma_canonical_records(samples, bytes, i + 1);
        lemma_total_take_step(samples, i as int);
        lemma_total_prefix_le(samples, (i + 1) as int);
        assert(record_sample(bytes, i) == samples[i as int]);
        if i > 0 {
            assert(record_sample(bytes, (i - 1) as nat) == samples[i - 1]);
            assert(sample_lt(samples[i - 1], samples[i as int]) && samples[i - 1] != samples[i as int]);
        }
    }
}

proof fn lemma_canonical_header(profile: BottomKProfile, samples: Seq<(u64, Seq<u8>)>, bytes: Seq<u8>)
    requires
        bytes == bottom_k_canonical_bytes(profile, total_bytes(samples) as usize, samples),
        profile.hash_algorithm == BottomKHashAlgorithm::SeededHasherV1,
        59 + 16 * samples.len() + total_bytes(samples) <= usize::MAX,
    ensures
        bytes.len() == 59 + 16 * samples.len() + total_bytes(samples),
        bytes.subrange(0, 8) == bottom_k_magic(),
        field_u16(bytes, 8) == 1,
        bytes[10] == 1,
        field_u64(bytes, 11) == profile.k,
        field_u64(bytes, 19) == profile.seed,
        field_u64(bytes, 27) == profile.max_observation_bytes,
        field_u64(bytes, 35) == profile.max_sample_bytes,
        field_u64(bytes, 43) == total_bytes(samples),
        field_u64(bytes, 51) == samples.len(),
        header_profile(bytes) == profile,
        bytes.subrange(59, bytes.len() as int) == record_bytes(samples),
{
    let total = total_bytes(samples) as usize;
    let header = bottom_k_header(profile, total, samples.len());
    lemma_record_bytes_len(samples);
    assert(header.len() == 59);
    lemma_be_u16_round_trip(1);
    lemma_be_u64_round_trip(profile.k as u64);
    lemma_be_u64_round_trip(profile.seed);
    lemma_be_u64_round_trip(profile.max_observation_bytes as u64);
    lemma_be_u64_round_trip(profile.max_sample_bytes as u64);
    lemma_be_u64_round_trip(total as u64);
    lemma_be_u64_round_trip(samples.len() as u64);
    assert(bytes.subrange(0, 8) =~= bottom_k_magic());
    assert(bytes.subrange(8, 10) =~= be_u16(1));
    assert(bytes[10] == 1);
    assert(bytes.subrange(11, 19) =~= be_u64(profile.k as u64));
    assert(bytes.subrange(19, 27) =~= be_u64(profile.seed));
    assert(bytes.subrange(27, 35) =~= be_u64(profile.max_observation_bytes as u64));
    assert(bytes.subrange(35, 43) =~= be_u64(profile.max_sample_bytes as u64));
    assert(bytes.subrange(43, 51) =~= be_u64(total as u64));
    assert(bytes.subrange(51, 59) =~= be_u64(samples.len() as u64));
    assert(bytes.subrange(59, bytes.len() as int) =~= record_bytes(samples));
}

#[verifier::rlimit(60)]
/// Decoding inverts encoding: the canonical encoding of a valid state that
/// the caller's limits admit passes every decoding check and reads back the
/// same profile, byte total and samples.
pub proof fn law_canonical_round_trip(profile: BottomKProfile, samples: Seq<(u64, Seq<u8>)>, limits: BottomKDecodeLimits)
    requires
        valid_samples(profile, samples),
        59 + 16 * samples.len() + total_bytes(samples) <= usize::MAX,
        59 + 16 * samples.len() + total_bytes(samples) <= limits.max_encoded_bytes,
        profile.k <= limits.max_samples,
        profile.max_observation_bytes <= limits.max_observation_bytes,
        profile.max_sample_bytes <= limits.max_sample_bytes,
    ensures
        ({
            let bytes = bottom_k_canonical_bytes(profile, total_bytes(samples) as usize, samples);
            &&& bytes.len() == 59 + 16 * samples.len() + total_bytes(samples)
            &&& bytes.subrange(0, 8) == bottom_k_magic()
            &&& header_fault(bytes, profile, limits) is None
            &&& payload_fault(bytes, limits) is None
            &&& field_u64(bytes, 43) == total_bytes(samples)
            &&& field_u64(bytes, 51) == samples.len()
            &&& decoded_samples(bytes, samples.len()) == samples
        }),
{
    let total = total_bytes(samples) as usize;
    let bytes = bottom_k_canonical_bytes(profile, total, samples);
    lemma_canonical_header(profile, samples, bytes);
    lemma_canonical_records(samples, bytes, samples.len());
    lemma_canonical_records_pass(profile, samples, limits, bytes, 0);
    assert(samples.take(samples.len() as int) =~= samples);
    assert(decoded_samples(bytes, samples.len()) =~= samples);
}


impl BottomKSketch {
    #[verifier::type_invariant]
    spec fn well_formed(self) -> bool {
        &&& valid_samples(self.profile, sample_views(self.samples@))
        &&& self.sample_bytes == total_bytes(sample_views(self.samples@))
    }

    /// Complete immutable profile.
    pub closed spec fn spec_profile(self) -> BottomKProfile {
        self.profile
    }

    /// Retained samples in canonical order.
    pub closed spec fn spec_samples(self) -> Seq<(u64, Seq<u8>)> {
        sample_views(self.samples@)
    }

    /// Sum of retained observation lengths.
    pub closed spec fn spec_sample_bytes(self) -> usize {
        self.sample_bytes
    }

    /// Two sketches hold the same profile, samples and byte total.
    pub open spec fn same_state(self, other: Self) -> bool {
        &&& self.spec_profile() == other.spec_profile()
        &&& self.spec_samples() == other.spec_samples()
        &&& self.spec_sample_bytes() == other.spec_sample_bytes()
    }

    /// Every sketch is valid for its profile and records its byte total.
    pub fn lemma_valid(&self)
        ensures
            valid_samples(self.spec_profile(), self.spec_samples()),
            self.spec_sample_bytes() == total_bytes(self.spec_samples()),
    {
        proof {
            use_type_invariant(self);
        }
    }

    /// Creates an empty sketch without allocating its potentially large
    /// directory.
    pub fn try_new(profile: BottomKProfile) -> (result: Result<Self, BottomKError>)
        ensures
            profile.k == 0 ==> result == Err::<Self, BottomKError>(BottomKError::EmptySampleSize),
            profile.k > 0 ==> (result matches Ok(s) && s.spec_profile() == profile && s.spec_samples() == Seq::<
                (u64, Seq<u8>),
            >::empty() && s.spec_sample_bytes() == 0),
    {
        if profile.k == 0 {
            return Err(BottomKError::EmptySampleSize);
        }
        let samples: Vec<BottomKSample> = Vec::new();
        proof {
            assert(sample_views(samples@) =~= Seq::<(u64, Seq<u8>)>::empty());
        }
        Ok(BottomKSketch { profile, samples, sample_bytes: 0 })
    }

    /// Complete immutable profile.
    pub fn profile(&self) -> (profile: BottomKProfile)
        ensures
            profile == self.spec_profile(),
    {
        self.profile
    }

    /// Number of retained distinct samples.
    pub fn len(&self) -> (count: usize)
        ensures
            count == self.spec_samples().len(),
    {
        self.samples.len()
    }

    /// Whether no observation is retained.
    pub fn is_empty(&self) -> (empty: bool)
        ensures
            empty == (self.spec_samples().len() == 0),
    {
        self.samples.len() == 0
    }

    /// Whether the sample has reached `k` and may hide larger candidates.
    pub fn is_saturated(&self) -> (saturated: bool)
        ensures
            saturated == (self.spec_samples().len() == self.spec_profile().k),
    {
        self.samples.len() == self.profile.k
    }

    /// Sum of retained canonical observation lengths.
    pub fn sample_bytes(&self) -> (bytes: usize)
        ensures
            bytes == self.spec_sample_bytes(),
    {
        self.sample_bytes
    }

    /// Canonical sorted and deduplicated logical state.
    pub fn canonical_state(&self) -> (state: BottomKState<'_>)
        ensures
            state.profile == self.spec_profile(),
            state.sample_bytes == self.spec_sample_bytes(),
            sample_views(state.samples@) == self.spec_samples(),
    {
        BottomKState { profile: self.profile, sample_bytes: self.sample_bytes, samples: self.samples.as_slice() }
    }

    /// Largest retained sample, or `None` while empty.
    pub fn threshold(&self) -> (last: Option<&BottomKSample>)
        ensures
            self.spec_samples().len() == 0 ==> last is None,
            self.spec_samples().len() > 0 ==> (last matches Some(s) && s@ == self.spec_samples().last()),
    {
        let count = self.samples.len();
        if count == 0 {
            None
        } else {
            Some(&self.samples[count - 1])
        }
    }

    /// Computes this profile's stable hash for a bounded observation.
    pub fn try_hash(&self, observation: &[u8]) -> (result: Result<u64, BottomKError>)
        ensures
            observation@.len() > self.spec_profile().max_observation_bytes ==> result == Err::<u64, BottomKError>(
                BottomKError::ObservationTooLarge {
                    bytes: observation@.len() as usize,
                    maximum: self.spec_profile().max_observation_bytes,
                },
            ),
            observation@.len() <= self.spec_profile().max_observation_bytes ==> result == Ok::<u64, BottomKError>(
                bottom_k_hash(self.spec_profile().seed, observation@),
            ),
    {
        if observation.len() > self.profile.max_observation_bytes {
            return Err(
                BottomKError::ObservationTooLarge {
                    bytes: observation.len(),
                    maximum: self.profile.max_observation_bytes,
                },
            );
        }
        stable_hash(self.profile.hash_algorithm, self.profile.seed, observation)
    }

    /// Returns whether the canonical observation is currently retained.
    pub fn try_contains(&self, observation: &[u8]) -> (result: Result<bool, BottomKError>)
        ensures
            observation@.len() > self.spec_profile().max_observation_bytes ==> result == Err::<bool, BottomKError>(
                BottomKError::ObservationTooLarge {
                    bytes: observation@.len() as usize,
                    maximum: self.spec_profile().max_observation_bytes,
                },
            ),
            observation@.len() <= self.spec_profile().max_observation_bytes ==> result == Ok::<bool, BottomKError>(
                self.spec_samples().contains((bottom_k_hash(self.spec_profile().seed, observation@), observation@)),
            ),
    {
        let hash = match self.try_hash(observation) {
            Ok(h) => h,
            Err(e) => {
                return Err(e);
            },
        };
        match self.find(hash, observation) {
            Ok(_) => Ok(true),
            Err(_) => Ok(false),
        }
    }

    /// Locates a candidate: `Ok(index)` where it is retained, otherwise
    /// `Err(index)` where it would be inserted.
    fn find(&self, hash: u64, observation: &[u8]) -> (result: Result<usize, usize>)
        ensures
            match result {
                Ok(i) => i < self.spec_samples().len() && self.spec_samples()[i as int] == (hash, observation@),
                Err(p) => {
                    &&& p <= self.spec_samples().len()
                    &&& !self.spec_samples().contains((hash, observation@))
                    &&& forall|i: int| 0 <= i < p ==> #[trigger] sample_lt(self.spec_samples()[i], (hash, observation@))
                    &&& forall|i: int|
                        p <= i < self.spec_samples().len() ==> !sample_lt(
                            #[trigger] self.spec_samples()[i],
                            (hash, observation@),
                        )
                },
            },
    {
        proof {
            use_type_invariant(self);
        }
        let ghost view = sample_views(self.samples@);
        let ghost target = (hash, observation@);
        let mut low: usize = 0;
        let mut high: usize = self.samples.len();
        while low < high
            invariant
                view == sample_views(self.samples@),
                target == (hash, observation@),
                strictly_sorted(view),
                low <= high <= view.len(),
                forall|i: int| 0 <= i < low ==> #[trigger] sample_lt(view[i], target),
                forall|i: int| high <= i < view.len() ==> #[trigger] sample_lt(target, view[i]),
            decreases high - low,
        {
            let middle = low + (high - low) / 2;
            let candidate = &self.samples[middle];
            let candidate_observation = candidate.observation.as_slice();
            proof {
                assert(*candidate == self.samples@[middle as int]);
                assert(view[middle as int] == self.samples@[middle as int]@);
                assert(candidate_observation@ == candidate.observation@);
                assert(view[middle as int] == (candidate.hash, candidate_observation@));
            }
            if sample_less(candidate.hash, candidate_observation, hash, observation) {
                proof {
                    assert(sample_lt(view[middle as int], target));
                    assert forall|i: int| 0 <= i < middle + 1 implies #[trigger] sample_lt(view[i], target) by {
                        if i < middle {
                            assert(sample_lt(view[i], view[middle as int]));
                            lemma_sample_order(view[i], view[middle as int], target);
                        }
                    }
                }
                low = middle + 1;
            } else if sample_equal(candidate.hash, candidate_observation, hash, observation) {
                return Ok(middle);
            } else {
                proof {
                    assert(!sample_lt(view[middle as int], target));
                    assert(view[middle as int] != target);
                    lemma_sample_order(view[middle as int], target, view[middle as int]);
                    assert forall|i: int| middle <= i < view.len() implies #[trigger] sample_lt(target, view[i]) by {
                        if i > middle {
                            assert(sample_lt(view[middle as int], view[i]));
                            lemma_sample_order(target, view[middle as int], view[i]);
                        }
                    }
                }
                high = middle;
            }
        }
        proof {
            assert forall|i: int| low <= i < view.len() implies !sample_lt(#[trigger] view[i], target) by {
                lemma_sample_order(target, view[i], target);
            }
            if view.contains(target) {
                let w = choose|w: int| 0 <= w < view.len() && view[w] == target;
                lemma_sample_order(target, target, target);
            }
        }
        Err(low)
    }

    /// Observes one canonical byte string with distinct-set semantics.
    ///
    /// Duplicate observations and candidates above a saturated threshold are
    /// exact no-ops. Every limit and allocation needed for a retained
    /// candidate is checked before the state changes; the allocator may
    /// refuse the directory slot or the observation copy.
    #[verifier::spinoff_prover]
    #[verifier::rlimit(60)]
    pub fn try_observe(&mut self, observation: &[u8]) -> (result: Result<(), BottomKError>)
        ensures
            ({
                let candidate = (bottom_k_hash(old(self).spec_profile().seed, observation@), observation@);
                let next = observe_samples(old(self).spec_samples(), candidate, old(self).spec_profile().k as nat);
                if observation@.len() > old(self).spec_profile().max_observation_bytes {
                    result == Err::<(), BottomKError>(
                        BottomKError::ObservationTooLarge {
                            bytes: observation@.len() as usize,
                            maximum: old(self).spec_profile().max_observation_bytes,
                        },
                    )
                } else if next == old(self).spec_samples() {
                    result is Ok && final(self).same_state(*old(self))
                } else if total_bytes(next) > usize::MAX {
                    result == Err::<(), BottomKError>(BottomKError::SampleByteCountOverflow)
                } else if total_bytes(next) > old(self).spec_profile().max_sample_bytes {
                    result == Err::<(), BottomKError>(
                        BottomKError::SampleByteLimitExceeded {
                            requested: total_bytes(next) as usize,
                            maximum: old(self).spec_profile().max_sample_bytes,
                        },
                    )
                } else {
                    match result {
                        Ok(()) => final(self).spec_samples() == next,
                        Err(e) => e is AllocationFailed,
                    }
                }
            }),
            final(self).spec_profile() == old(self).spec_profile(),
            final(self).spec_sample_bytes() == total_bytes(final(self).spec_samples()),
            result is Err ==> final(self).same_state(*old(self)),
    {
        proof {
            use_type_invariant(&*self);
        }
        let k = self.profile.k;
        if observation.len() > self.profile.max_observation_bytes {
            return Err(
                BottomKError::ObservationTooLarge {
                    bytes: observation.len(),
                    maximum: self.profile.max_observation_bytes,
                },
            );
        }
        let hash = match stable_hash(self.profile.hash_algorithm, self.profile.seed, observation) {
            Ok(h) => h,
            Err(e) => {
                return Err(e);
            },
        };
        let ghost old_view = sample_views(self.samples@);
        let ghost candidate = (hash, observation@);
        let insertion = match self.find(hash, observation) {
            Ok(_) => {
                proof {
                    law_duplicate_observation_is_idempotent(old_view, candidate, k as nat);
                }
                return Ok(());
            },
            Err(p) => p,
        };
        let saturated = self.samples.len() == k;
        proof {
            lemma_observe_step(profile_of(self), old_view, candidate, insertion as int);
        }
        if saturated && insertion == k {
            return Ok(());
        }
        let ghost next = observe_samples(old_view, candidate, k as nat);
        let evicted_bytes = if saturated {
            self.samples[self.samples.len() - 1].observation.len()
        } else {
            0
        };
        let next_sample_bytes = match self.sample_bytes.checked_sub(evicted_bytes) {
            Some(remaining) => match remaining.checked_add(observation.len()) {
                Some(total) => total,
                None => {
                    return Err(BottomKError::SampleByteCountOverflow);
                },
            },
            None => {
                return Err(BottomKError::SampleByteCountOverflow);
            },
        };
        if next_sample_bytes > self.profile.max_sample_bytes {
            return Err(
                BottomKError::SampleByteLimitExceeded {
                    requested: next_sample_bytes,
                    maximum: self.profile.max_sample_bytes,
                },
            );
        }
        self.commit_observation(insertion, hash, observation, saturated, next_sample_bytes)
    }

    /// Inserts a candidate at its position, evicting the largest sample when
    /// saturated, after reserving everything it needs. A refused allocation
    /// leaves the sketch unchanged.
    #[verifier::spinoff_prover]
    #[verifier::rlimit(60)]
    fn commit_observation(
        &mut self,
        insertion: usize,
        hash: u64,
        observation: &[u8],
        saturated: bool,
        next_sample_bytes: usize,
    ) -> (result: Result<(), BottomKError>)
        requires
            ({
                let old_view = old(self).spec_samples();
                let inserted = old_view.insert(insertion as int, (hash, observation@));
                let next = if saturated {
                    inserted.drop_last()
                } else {
                    inserted
                };
                &&& insertion <= old_view.len()
                &&& saturated == (old_view.len() == old(self).spec_profile().k)
                &&& saturated ==> insertion < old_view.len()
                &&& valid_samples(old(self).spec_profile(), next)
                &&& total_bytes(next) == next_sample_bytes
            }),
        ensures
            ({
                let old_view = old(self).spec_samples();
                let inserted = old_view.insert(insertion as int, (hash, observation@));
                let next = if saturated {
                    inserted.drop_last()
                } else {
                    inserted
                };
                match result {
                    Ok(()) => final(self).spec_samples() == next && final(self).spec_sample_bytes()
                        == next_sample_bytes,
                    Err(e) => e is AllocationFailed && final(self).same_state(*old(self)),
                }
            }),
            final(self).spec_profile() == old(self).spec_profile(),
    {
        let ghost old_view = sample_views(self.samples@);
        let ghost candidate = (hash, observation@);
        let profile = self.profile;
        let mut taken = BottomKSketch { profile, samples: Vec::new(), sample_bytes: 0 };
        proof {
            use_type_invariant(&*self);
            assert(sample_views(taken.samples@) =~= Seq::<(u64, Seq<u8>)>::empty());
        }
        std::mem::swap(self, &mut taken);
        let previous_bytes = taken.sample_bytes;
        let mut samples = taken.samples;
        if !saturated {
            match samples.try_reserve(1) {
                Ok(()) => {},
                Err(_) => {
                    *self = BottomKSketch { profile, samples, sample_bytes: previous_bytes };
                    return Err(
                        BottomKError::AllocationFailed { target: BottomKAllocationTarget::SampleDirectory, requested: 1 },
                    );
                },
            }
        }
        let sample = match try_clone_sample(hash, observation, BottomKAllocationTarget::ObservationBytes) {
            Ok(s) => s,
            Err(e) => {
                *self = BottomKSketch { profile, samples, sample_bytes: previous_bytes };
                return Err(e);
            },
        };
        let ghost kept = samples@;
        if saturated {
            samples.pop();
        }
        let ghost shortened = samples@;
        samples.insert(insertion, sample);
        proof {
            let inserted = old_view.insert(insertion as int, candidate);
            assert(sample_views(kept) == old_view);
            if saturated {
                assert(shortened =~= kept.drop_last());
                assert(samples@ =~= kept.drop_last().insert(insertion as int, sample));
                assert forall|i: int| 0 <= i < inserted.len() - 1 implies #[trigger] sample_views(samples@)[i]
                    == inserted.drop_last()[i] by {
                    if i < insertion {
                        assert(samples@[i] == kept[i]);
                    } else if i > insertion {
                        assert(samples@[i] == kept[i - 1]);
                    }
                }
                assert(sample_views(samples@) =~= inserted.drop_last());
            } else {
                assert(samples@ =~= kept.insert(insertion as int, sample));
                assert forall|i: int| 0 <= i < inserted.len() implies #[trigger] sample_views(samples@)[i]
                    == inserted[i] by {
                    if i < insertion {
                        assert(samples@[i] == kept[i]);
                    } else if i > insertion {
                        assert(samples@[i] == kept[i - 1]);
                    }
                }
                assert(sample_views(samples@) =~= inserted);
            }
        }
        *self = BottomKSketch { profile, samples, sample_bytes: next_sample_bytes };
        Ok(())
    }

    /// Merges the exact bottom-k union of an identical-profile sketch.
    ///
    /// The complete result is built in private fallible storage before the
    /// receiver changes, making profile, resource, and allocation failures
    /// atomic. The result is the first `k` samples of the sorted union; the
    /// first sample whose bytes would exceed the ceiling names the error.
    pub fn try_merge(&mut self, other: &Self) -> (result: Result<(), BottomKError>)
        ensures
            ({
                let r = merge_bottom(old(self).spec_samples(), other.spec_samples(), old(self).spec_profile().k as nat);
                let maximum = old(self).spec_profile().max_sample_bytes;
                if old(self).spec_profile() != other.spec_profile() {
                    result == Err::<(), BottomKError>(BottomKError::ProfileMismatch)
                } else if old(self).spec_samples().len() + other.spec_samples().len() > usize::MAX {
                    result == Err::<(), BottomKError>(BottomKError::SampleCountOverflow)
                } else if total_bytes(r) <= maximum {
                    match result {
                        Ok(()) => final(self).spec_samples() == r,
                        Err(e) => e is AllocationFailed,
                    }
                } else {
                    match result {
                        Ok(()) => false,
                        Err(e) => e is AllocationFailed || exists|i: int|
                            0 <= i < r.len() && total_bytes(#[trigger] r.take(i)) <= maximum && total_bytes(r.take(i + 1))
                                > maximum && e == (if total_bytes(r.take(i + 1)) > usize::MAX {
                                BottomKError::SampleByteCountOverflow
                            } else {
                                BottomKError::SampleByteLimitExceeded {
                                    requested: total_bytes(r.take(i + 1)) as usize,
                                    maximum,
                                }
                            }),
                    }
                }
            }),
            final(self).spec_profile() == old(self).spec_profile(),
            result is Err ==> final(self).same_state(*old(self)),
    {
        proof {
            use_type_invariant(&*self);
            use_type_invariant(other);
        }
        if self.profile != other.profile {
            return Err(BottomKError::ProfileMismatch);
        }
        let k = self.profile.k;
        let maximum = self.profile.max_sample_bytes;
        let total = match self.samples.len().checked_add(other.samples.len()) {
            Some(t) => t,
            None => {
                return Err(BottomKError::SampleCountOverflow);
            },
        };
        let capacity = if total < k {
            total
        } else {
            k
        };
        let mut merged: Vec<BottomKSample> = Vec::new();
        match merged.try_reserve(capacity) {
            Ok(()) => {},
            Err(_) => {
                return Err(
                    BottomKError::AllocationFailed { target: BottomKAllocationTarget::MergeDirectory, requested: capacity },
                );
            },
        }
        let ghost a = sample_views(self.samples@);
        let ghost b = sample_views(other.samples@);
        let ghost u = merge_union(a, b);
        let ghost r = merge_bottom(a, b, k as nat);
        proof {
            lemma_merge_shape(self.profile, a, b);
            lemma_union_elements(a, b);
            assert(a.subrange(0, a.len() as int) =~= a);
            assert(b.subrange(0, b.len() as int) =~= b);
            assert(sample_views(merged@) =~= u.subrange(0, 0));
            assert(u.subrange(0, u.len() as int) =~= u);
        }
        let mut merged_bytes: usize = 0;
        let mut left: usize = 0;
        let mut right: usize = 0;
        while merged.len() < k && (left < self.samples.len() || right < other.samples.len())
            invariant
                *self == *old(self),
                self.profile == other.profile,
                a.len() + b.len() <= usize::MAX,
                a == sample_views(self.samples@),
                b == sample_views(other.samples@),
                u == merge_union(a, b),
                r == merge_bottom(a, b, k as nat),
                k == self.profile.k,
                maximum == self.profile.max_sample_bytes,
                left <= a.len(),
                right <= b.len(),
                merged@.len() <= k,
                merged@.len() <= u.len(),
                sample_views(merged@) == u.subrange(0, merged@.len() as int),
                merge_union(a.subrange(left as int, a.len() as int), b.subrange(right as int, b.len() as int))
                    == u.subrange(merged@.len() as int, u.len() as int),
                merged_bytes == total_bytes(u.subrange(0, merged@.len() as int)),
                merged_bytes <= maximum,
            decreases a.len() + b.len() - left - right,
        {
            let ghost rest_a = a.subrange(left as int, a.len() as int);
            let ghost rest_b = b.subrange(right as int, b.len() as int);
            let ghost m = merged@.len() as int;
            proof {
                lemma_union_head(rest_a, rest_b);
                assert(u.subrange(m, u.len() as int)[0] == u[m]);
                if left < a.len() {
                    assert(rest_a[0] == a[left as int]);
                    assert(rest_a.drop_first() =~= a.subrange(left + 1, a.len() as int));
                }
                if right < b.len() {
                    assert(rest_b[0] == b[right as int]);
                    assert(rest_b.drop_first() =~= b.subrange(right + 1, b.len() as int));
                }
                assert(u.subrange(m, u.len() as int).drop_first() =~= u.subrange(m + 1, u.len() as int));
            }
            let selected: &BottomKSample;
            if left < self.samples.len() && right < other.samples.len() {
                let l = &self.samples[left];
                let rr = &other.samples[right];
                proof {
                    assert(a[left as int] == l@);
                    assert(b[right as int] == rr@);
                }
                if sample_less(l.hash, l.observation.as_slice(), rr.hash, rr.observation.as_slice()) {
                    left = left + 1;
                    selected = l;
                } else if sample_less(rr.hash, rr.observation.as_slice(), l.hash, l.observation.as_slice()) {
                    right = right + 1;
                    selected = rr;
                } else {
                    proof {
                        lemma_sample_order(l@, rr@, l@);
                    }
                    left = left + 1;
                    right = right + 1;
                    selected = l;
                }
            } else if left < self.samples.len() {
                let l = &self.samples[left];
                proof {
                    assert(a[left as int] == l@);
                }
                left = left + 1;
                selected = l;
            } else {
                let rr = &other.samples[right];
                proof {
                    assert(b[right as int] == rr@);
                }
                right = right + 1;
                selected = rr;
            }
            proof {
                assert(selected@ == u[m]);
                lemma_total_take_step(u, m);
                assert(u.subrange(0, m + 1) =~= u.take(m + 1));
                assert(u.subrange(0, m) =~= u.take(m));
                assert(r.take(m + 1) =~= u.take(m + 1));
                assert(r.take(m) =~= u.take(m));
                assert(m < r.len());
                lemma_total_prefix_le(r, m + 1);
                assert(total_bytes(r.take(m)) == merged_bytes);
                assert(total_bytes(r.take(m + 1)) == merged_bytes + selected.observation@.len());
            }
            let next_bytes = match merged_bytes.checked_add(selected.observation.len()) {
                Some(v) => v,
                None => {
                    return Err(BottomKError::SampleByteCountOverflow);
                },
            };
            if next_bytes > maximum {
                return Err(BottomKError::SampleByteLimitExceeded { requested: next_bytes, maximum });
            }
            let cloned = match try_clone_sample(
                selected.hash,
                selected.observation.as_slice(),
                BottomKAllocationTarget::MergeObservationBytes,
            ) {
                Ok(s) => s,
                Err(e) => {
                    return Err(e);
                },
            };
            let ghost before = merged@;
            merged.push(cloned);
            proof {
                assert forall|i: int| 0 <= i < m + 1 implies #[trigger] sample_views(merged@)[i] == u.subrange(
                    0,
                    m + 1,
                )[i] by {
                    if i < m {
                        assert(merged@[i] == before[i]);
                        assert(sample_views(before)[i] == u.subrange(0, m)[i]);
                    }
                }
                assert(sample_views(merged@) =~= u.subrange(0, m + 1));
            }
            merged_bytes = next_bytes;
        }
        proof {
            let m = merged@.len() as int;
            if m < k {
                assert(merge_union(a.subrange(left as int, a.len() as int), b.subrange(right as int, b.len() as int))
                    =~= Seq::<(u64, Seq<u8>)>::empty());
                assert(u.len() == m);
                assert(r == u);
            } else {
                assert(r =~= u.subrange(0, m));
            }
            assert(sample_views(merged@) == r);
        }
        *self = BottomKSketch { profile: self.profile, samples: merged, sample_bytes: merged_bytes };
        Ok(())
    }

    /// Encodes the complete profile and logical state into one canonical
    /// value.
    ///
    /// The representation uses fixed-width big-endian profile and state
    /// fields, followed by strictly sorted `(hash, observation length,
    /// observation)` records. Equal logical states therefore produce
    /// byte-identical values without relying on host word size. The allocator
    /// may refuse the output buffer.
    pub fn try_to_canonical_bytes(&self) -> (result: Result<Vec<u8>, BottomKCodecError>)
        ensures
            59 + 16 * self.spec_samples().len() + total_bytes(self.spec_samples()) > usize::MAX ==> result == Err::<
                Vec<u8>,
                BottomKCodecError,
            >(BottomKCodecError::LengthOverflow),
            59 + 16 * self.spec_samples().len() + total_bytes(self.spec_samples()) <= usize::MAX ==> match result {
                Ok(bytes) => bytes@ == bottom_k_canonical_bytes(
                    self.spec_profile(),
                    self.spec_sample_bytes(),
                    self.spec_samples(),
                ),
                Err(e) => e == BottomKCodecError::AllocationFailed {
                    requested: (59 + 16 * self.spec_samples().len() + total_bytes(self.spec_samples())) as usize,
                },
            },
    {
        proof {
            use_type_invariant(self);
            lemma_valid_state(self.profile, sample_views(self.samples@));
        }
        let encoded_len = match validate_canonical_state(self.profile, self.sample_bytes, self.samples.as_slice()) {
            Ok(len) => len,
            Err(e) => {
                return Err(e);
            },
        };
        let mut bytes: Vec<u8> = Vec::new();
        match bytes.try_reserve(encoded_len) {
            Ok(()) => {},
            Err(_) => {
                return Err(BottomKCodecError::AllocationFailed { requested: encoded_len });
            },
        }
        let magic = magic_bytes();
        extend_bytes(&mut bytes, &magic);
        push_u16(&mut bytes, 1);
        bytes.push(canonical_tag(self.profile.hash_algorithm));
        push_u64(&mut bytes, self.profile.k as u64);
        push_u64(&mut bytes, self.profile.seed);
        push_u64(&mut bytes, self.profile.max_observation_bytes as u64);
        push_u64(&mut bytes, self.profile.max_sample_bytes as u64);
        push_u64(&mut bytes, self.sample_bytes as u64);
        push_u64(&mut bytes, self.samples.len() as u64);
        let ghost view = sample_views(self.samples@);
        let ghost header = bytes@;
        proof {
            assert(header =~= bottom_k_header(self.profile, self.sample_bytes, view.len()));
            assert(view.take(0) =~= Seq::<(u64, Seq<u8>)>::empty());
        }
        let mut index: usize = 0;
        while index < self.samples.len()
            invariant
                view == sample_views(self.samples@),
                index <= self.samples@.len(),
                bytes@ == header + record_bytes(view.take(index as int)),
            decreases self.samples@.len() - index,
        {
            let sample = &self.samples[index];
            push_u64(&mut bytes, sample.hash);
            push_u64(&mut bytes, sample.observation.len() as u64);
            extend_bytes(&mut bytes, sample.observation.as_slice());
            proof {
                assert(view[index as int] == sample@);
                lemma_record_bytes_step(view, index as int);
                assert(bytes@ =~= header + record_bytes(view.take(index + 1)));
            }
            index = index + 1;
        }
        proof {
            assert(view.take(index as int) =~= view);
        }
        Ok(bytes)
    }

    /// Decodes exactly one strict canonical value and revalidates every law.
    ///
    /// The complete header, exact encoded length, profile bounds, hashes,
    /// strict ordering, distinctness, and payload totals are validated in an
    /// allocation-free preflight; the first failing check names the error.
    /// Only then are the bounded sample directory and observation payloads
    /// allocated, and the allocator may refuse them.
    #[verifier::spinoff_prover]
    #[verifier::rlimit(50)]
    pub fn try_from_canonical_bytes(
        bytes: &[u8],
        expected_profile: BottomKProfile,
        limits: BottomKDecodeLimits,
    ) -> (result: Result<Self, BottomKCodecError>)
        ensures
            ({
                let n = bytes@.len();
                if n > limits.max_encoded_bytes {
                    result == Err::<Self, BottomKCodecError>(
                        BottomKCodecError::DecodeLimitExceeded {
                            resource: BottomKDecodeResource::EncodedBytes,
                            actual: n as usize,
                            maximum: limits.max_encoded_bytes,
                        },
                    )
                } else if n < 8 {
                    result == Err::<Self, BottomKCodecError>(
                        BottomKCodecError::Truncated { offset: 0, needed: 8, remaining: n as usize },
                    )
                } else if bytes@.subrange(0, 8) != bottom_k_magic() {
                    result matches Err(BottomKCodecError::MagicMismatch { actual }) && actual@ == bytes@.subrange(0, 8)
                } else {
                    match header_fault(bytes@, expected_profile, limits) {
                        Some(e) => result == Err::<Self, BottomKCodecError>(e),
                        None => match payload_fault(bytes@, limits) {
                            Some(e) => result == Err::<Self, BottomKCodecError>(e),
                            None => match result {
                                Ok(s) => {
                                    &&& s.spec_profile() == expected_profile
                                    &&& s.spec_samples() == decoded_samples(bytes@, field_u64(bytes@, 51) as nat)
                                    &&& s.spec_sample_bytes() == field_u64(bytes@, 43)
                                    &&& bytes@ == bottom_k_canonical_bytes(
                                        s.spec_profile(),
                                        s.spec_sample_bytes(),
                                        s.spec_samples(),
                                    )
                                },
                                Err(e) => e matches BottomKCodecError::State(BottomKError::AllocationFailed { .. }),
                            },
                        },
                    }
                }
            }),
    {
        let header = match preflight_canonical_bytes(bytes, expected_profile, limits) {
            Ok(h) => h,
            Err(e) => {
                return Err(e);
            },
        };
        let count = header.sample_count;
        proof {
            lemma_header_bytes(bytes@);
            lemma_decoded_valid(bytes@, limits);
            assert(bytes@ =~= bytes@.subrange(0, 59) + bytes@.subrange(59, bytes@.len() as int));
        }
        let mut samples: Vec<BottomKSample> = Vec::new();
        match samples.try_reserve(count) {
            Ok(()) => {},
            Err(_) => {
                return Err(
                    BottomKCodecError::State(
                        BottomKError::AllocationFailed {
                            target: BottomKAllocationTarget::SampleDirectory,
                            requested: count,
                        },
                    ),
                );
            },
        }
        let ghost decoded = decoded_samples(bytes@, count as nat);
        let total_len = bytes.len();
        let mut offset: usize = 59;
        let mut index: usize = 0;
        proof {
            assert(sample_views(samples@) =~= decoded.take(0));
        }
        while index < count
            invariant
                decoded == decoded_samples(bytes@, count as nat),
                total_len == bytes@.len(),
                bytes@.len() <= limits.max_encoded_bytes,
                bytes@.len() >= 8,
                bytes@.subrange(0, 8) == bottom_k_magic(),
                header_fault(bytes@, expected_profile, limits) is None,
                payload_fault(bytes@, limits) is None,
                count == field_u64(bytes@, 51),
                index <= count,
                offset == record_offset(bytes@, index as nat),
                sample_views(samples@) == decoded.take(index as int),
                samples@.len() == index,
                forall|j: nat|
                    j < count ==> #[trigger] record_fits(bytes@, j) && record_sample(bytes@, j).1.len() == record_len(
                        bytes@,
                        j,
                    ) && 59 <= record_offset(bytes@, j),
            decreases count - index,
        {
            proof {
                assert(record_fits(bytes@, index as nat));
            }
            let hash = read_u64_at(bytes, offset);
            let length = read_u64_at(bytes, offset + 8) as usize;
            let start = offset + 16;
            let observation = vstd::slice::slice_subrange(bytes, start, start + length);
            let sample = match try_clone_sample(hash, observation, BottomKAllocationTarget::ObservationBytes) {
                Ok(s) => s,
                Err(e) => {
                    return Err(BottomKCodecError::State(e));
                },
            };
            let ghost before = samples@;
            samples.push(sample);
            proof {
                assert(decoded[index as int] == (hash, observation@));
                assert forall|i: int| 0 <= i < index + 1 implies #[trigger] sample_views(samples@)[i] == decoded.take(
                    index + 1,
                )[i] by {
                    if i < index {
                        assert(samples@[i] == before[i]);
                        assert(sample_views(before)[i] == decoded.take(index as int)[i]);
                    }
                }
                assert(sample_views(samples@) =~= decoded.take(index + 1));
            }
            offset = start + length;
            index = index + 1;
        }
        proof {
            assert(decoded.take(count as int) =~= decoded);
            lemma_valid_state(header.profile, decoded);
        }
        match validate_canonical_state(header.profile, header.sample_bytes, samples.as_slice()) {
            Ok(_) => {},
            Err(e) => {
                return Err(e);
            },
        }
        Ok(BottomKSketch { profile: header.profile, samples, sample_bytes: header.sample_bytes })
    }

    /// Removes one distinct observation when bottom-k has enough information.
    ///
    /// See the module-level deletion contract. A rebuild-required result never
    /// mutates the sketch.
    pub fn try_remove(&mut self, observation: &[u8]) -> (result: Result<(), BottomKError>)
        ensures
            ({
                let hash = bottom_k_hash(old(self).spec_profile().seed, observation@);
                let candidate = (hash, observation@);
                if observation@.len() > old(self).spec_profile().max_observation_bytes {
                    result == Err::<(), BottomKError>(
                        BottomKError::ObservationTooLarge {
                            bytes: observation@.len() as usize,
                            maximum: old(self).spec_profile().max_observation_bytes,
                        },
                    )
                } else if !old(self).spec_samples().contains(candidate) {
                    result is Ok && *final(self) == *old(self)
                } else if old(self).spec_samples().len() == old(self).spec_profile().k {
                    result == Err::<(), BottomKError>(BottomKError::RebuildRequired { observation_hash: hash })
                } else {
                    &&& result is Ok
                    &&& exists|i: int|
                        0 <= i < old(self).spec_samples().len() && old(self).spec_samples()[i] == candidate && final(self).spec_samples()
                            == old(self).spec_samples().remove(i)
                }
            }),
            final(self).spec_profile() == old(self).spec_profile(),
            result is Err ==> *final(self) == *old(self),
    {
        proof {
            use_type_invariant(&*self);
        }
        if observation.len() > self.profile.max_observation_bytes {
            return Err(
                BottomKError::ObservationTooLarge {
                    bytes: observation.len(),
                    maximum: self.profile.max_observation_bytes,
                },
            );
        }
        let hash = match stable_hash(self.profile.hash_algorithm, self.profile.seed, observation) {
            Ok(h) => h,
            Err(e) => {
                return Err(e);
            },
        };
        let index = match self.find(hash, observation) {
            Ok(i) => i,
            Err(_) => {
                return Ok(());
            },
        };
        if self.samples.len() == self.profile.k {
            return Err(BottomKError::RebuildRequired { observation_hash: hash });
        }
        let removed_bytes = self.samples[index].observation.len();
        let ghost old_view = sample_views(self.samples@);
        let profile = self.profile;
        let mut taken = BottomKSketch { profile, samples: Vec::new(), sample_bytes: 0 };
        proof {
            assert(sample_views(taken.samples@) =~= Seq::<(u64, Seq<u8>)>::empty());
        }
        std::mem::swap(self, &mut taken);
        let previous_bytes = taken.sample_bytes;
        let mut samples = taken.samples;
        samples.remove(index);
        proof {
            let next = old_view.remove(index as int);
            assert(sample_views(samples@) =~= next);
            lemma_total_remove(old_view, index as int);
            assert forall|i: int, j: int| 0 <= i < j < next.len() implies sample_lt(next[i], next[j])
                && next[i] != next[j] by {
                let oi = if i < index {
                    i
                } else {
                    i + 1
                };
                let oj = if j < index {
                    j
                } else {
                    j + 1
                };
                assert(sample_lt(old_view[oi], old_view[oj]) && old_view[oi] != old_view[oj]);
            }
            assert forall|i: int| 0 <= i < next.len() implies #[trigger] next[i].0 == bottom_k_hash(
                profile.seed,
                next[i].1,
            ) && next[i].1.len() <= profile.max_observation_bytes by {
                let oi = if i < index {
                    i
                } else {
                    i + 1
                };
                assert(next[i] == old_view[oi]);
            }
        }
        *self = BottomKSketch { profile, samples, sample_bytes: previous_bytes - removed_bytes };
        Ok(())
    }
}

/// The `Debug` name of an allocation target.
pub open spec fn target_debug_name(value: BottomKAllocationTarget) -> Seq<char> {
    match value {
        BottomKAllocationTarget::SampleDirectory => "SampleDirectory"@,
        BottomKAllocationTarget::ObservationBytes => "ObservationBytes"@,
        BottomKAllocationTarget::MergeDirectory => "MergeDirectory"@,
        BottomKAllocationTarget::MergeObservationBytes => "MergeObservationBytes"@,
    }
}

fn push_target_name(out: &mut String, value: BottomKAllocationTarget)
    ensures
        final(out)@ == old(out)@ + target_debug_name(value),
{
    match value {
        BottomKAllocationTarget::SampleDirectory => push_text(out, "SampleDirectory"),
        BottomKAllocationTarget::ObservationBytes => push_text(out, "ObservationBytes"),
        BottomKAllocationTarget::MergeDirectory => push_text(out, "MergeDirectory"),
        BottomKAllocationTarget::MergeObservationBytes => push_text(out, "MergeObservationBytes"),
    }
}
/// Diagnostic text of a bottom-k failure; hashes print as sixteen zero-padded
/// lowercase hexadecimal digits after `0x`.
pub open spec fn bottom_k_error_text(error: BottomKError) -> Seq<char> {
    match error {
        BottomKError::EmptySampleSize => "bottom-k sample size must be nonzero"@,
        BottomKError::ObservationTooLarge { bytes, maximum } => "bottom-k observation has "@ + decimal(bytes as nat) + " bytes, maximum is "@ + decimal(maximum as nat),
        BottomKError::SampleByteLimitExceeded { requested, maximum } => "bottom-k sample would retain "@ + decimal(requested as nat) + " observation bytes, maximum is "@ + decimal(maximum as nat),
        BottomKError::SampleByteCountOverflow => "bottom-k sample byte count overflowed"@,
        BottomKError::SampleCountOverflow => "bottom-k sample count overflowed"@,
        BottomKError::AllocationFailed { target, requested } => "could not reserve "@ + decimal(requested as nat) + " units for bottom-k "@ + target_debug_name(target),
        BottomKError::ProfileMismatch => "cannot merge bottom-k sketches with different profiles"@,
        BottomKError::RebuildRequired { observation_hash } => "removing retained bottom-k observation 0x"@ + hex_fixed(observation_hash as nat, 16) + " requires rebuild"@,
    }
}

impl BottomKError {
    /// Human-readable diagnostic.
    pub fn message(&self) -> (text: String)
        ensures
            text@ == bottom_k_error_text(*self),
    {
        let mut out = String::new();
        match *self {
            BottomKError::EmptySampleSize => {
                push_text(&mut out, "bottom-k sample size must be nonzero");
            },
            BottomKError::ObservationTooLarge { bytes, maximum } => {
                push_text(&mut out, "bottom-k observation has ");
                push_decimal(&mut out, bytes as u64);
                push_text(&mut out, " bytes, maximum is ");
                push_decimal(&mut out, maximum as u64);
            },
            BottomKError::SampleByteLimitExceeded { requested, maximum } => {
                push_text(&mut out, "bottom-k sample would retain ");
                push_decimal(&mut out, requested as u64);
                push_text(&mut out, " observation bytes, maximum is ");
                push_decimal(&mut out, maximum as u64);
            },
            BottomKError::SampleByteCountOverflow => {
                push_text(&mut out, "bottom-k sample byte count overflowed");
            },
            BottomKError::SampleCountOverflow => {
                push_text(&mut out, "bottom-k sample count overflowed");
            },
            BottomKError::AllocationFailed { target, requested } => {
                push_text(&mut out, "could not reserve ");
                push_decimal(&mut out, requested as u64);
                push_text(&mut out, " units for bottom-k ");
                push_target_name(&mut out, target);
            },
            BottomKError::ProfileMismatch => {
                push_text(&mut out, "cannot merge bottom-k sketches with different profiles");
            },
            BottomKError::RebuildRequired { observation_hash } => {
                push_text(&mut out, "removing retained bottom-k observation 0x");
                push_hex_fixed(&mut out, observation_hash, 16);
                push_text(&mut out, " requires rebuild");
            },
        }
        proof {
            assert(out@ =~= bottom_k_error_text(*self));
        }
        out
    }
}

/// The `Debug` rendering of a hash algorithm.
pub open spec fn hash_algorithm_debug(value: BottomKHashAlgorithm) -> Seq<char> {
    match value {
        BottomKHashAlgorithm::SeededHasherV1 => "SeededHasherV1"@,
    }
}

fn push_hash_algorithm_debug(out: &mut String, value: BottomKHashAlgorithm)
    ensures
        final(out)@ == old(out)@ + hash_algorithm_debug(value),
{
    match value {
        BottomKHashAlgorithm::SeededHasherV1 => push_text(out, "SeededHasherV1"),
    }
    proof {
        assert(out@ =~= old(out)@ + hash_algorithm_debug(value));
    }
}
/// The `Debug` rendering of a profile.
pub open spec fn profile_debug(value: BottomKProfile) -> Seq<char> {
    "BottomKProfile { k: "@ + decimal(value.k as nat) + ", hash_algorithm: "@ + hash_algorithm_debug(value.hash_algorithm) + ", seed: "@ + decimal(value.seed as nat) + ", max_observation_bytes: "@ + decimal(value.max_observation_bytes as nat) + ", max_sample_bytes: "@ + decimal(value.max_sample_bytes as nat) + " }"@
}

fn push_profile_debug(out: &mut String, value: BottomKProfile)
    ensures
        final(out)@ == old(out)@ + profile_debug(value),
{
    push_text(out, "BottomKProfile { k: ");
    push_decimal(out, value.k as u64);
    push_text(out, ", hash_algorithm: ");
    push_hash_algorithm_debug(out, value.hash_algorithm);
    push_text(out, ", seed: ");
    push_decimal(out, value.seed as u64);
    push_text(out, ", max_observation_bytes: ");
    push_decimal(out, value.max_observation_bytes as u64);
    push_text(out, ", max_sample_bytes: ");
    push_decimal(out, value.max_sample_bytes as u64);
    push_text(out, " }");
    proof {
        assert(out@ =~= old(out)@ + profile_debug(value));
    }
}
/// The `Debug` rendering of a decode resource.
pub open spec fn resource_debug(value: BottomKDecodeResource) -> Seq<char> {
    match value {
        BottomKDecodeResource::EncodedBytes => "EncodedBytes"@,
        BottomKDecodeResource::Samples => "Samples"@,
        BottomKDecodeResource::ObservationBytes => "ObservationBytes"@,
        BottomKDecodeResource::SampleBytes => "SampleBytes"@,
    }
}

fn push_resource_debug(out: &mut String, value: BottomKDecodeResource)
    ensures
        final(out)@ == old(out)@ + resource_debug(value),
{
    match value {
        BottomKDecodeResource::EncodedBytes => push_text(out, "EncodedBytes"),
        BottomKDecodeResource::Samples => push_text(out, "Samples"),
        BottomKDecodeResource::ObservationBytes => push_text(out, "ObservationBytes"),
        BottomKDecodeResource::SampleBytes => push_text(out, "SampleBytes"),
    }
    proof {
        assert(out@ =~= old(out)@ + resource_debug(value));
    }
}
/// The `Debug` rendering of a sketch failure.
pub open spec fn error_debug(value: BottomKError) -> Seq<char> {
    match value {
        BottomKError::EmptySampleSize => "EmptySampleSize"@,
        BottomKError::ObservationTooLarge { bytes, maximum } => "ObservationTooLarge { bytes: "@ + decimal(bytes as nat) + ", maximum: "@ + decimal(maximum as nat) + " }"@,
        BottomKError::SampleByteLimitExceeded { requested, maximum } => "SampleByteLimitExceeded { requested: "@ + decimal(requested as nat) + ", maximum: "@ + decimal(maximum as nat) + " }"@,
        BottomKError::SampleByteCountOverflow => "SampleByteCountOverflow"@,
        BottomKError::SampleCountOverflow => "SampleCountOverflow"@,
        BottomKError::AllocationFailed { target, requested } => "AllocationFailed { target: "@ + target_debug_name(target) + ", requested: "@ + decimal(requested as nat) + " }"@,
        BottomKError::ProfileMismatch => "ProfileMismatch"@,
        BottomKError::RebuildRequired { observation_hash } => "RebuildRequired { observation_hash: "@ + decimal(observation_hash as nat) + " }"@,
    }
}

fn push_error_debug(out: &mut String, value: BottomKError)
    ensures
        final(out)@ == old(out)@ + error_debug(value),
{
    match value {
        BottomKError::EmptySampleSize => push_text(out, "EmptySampleSize"),
        BottomKError::ObservationTooLarge { bytes, maximum } => {
            push_text(out, "ObservationTooLarge { bytes: ");
            push_decimal(out, bytes as u64);
            push_text(out, ", maximum: ");
            push_decimal(out, maximum as u64);
            push_text(out, " }");
        },
        BottomKError::SampleByteLimitExceeded { requested, maximum } => {
            push_text(out, "SampleByteLimitExceeded { requested: ");
            push_decimal(out, requested as u64);
            push_text(out, ", maximum: ");
            push_decimal(out, maximum as u64);
            push_text(out, " }");
        },
        BottomKError::SampleByteCountOverflow => push_text(out, "SampleByteCountOverflow"),
        BottomKError::SampleCountOverflow => push_text(out, "SampleCountOverflow"),
        BottomKError::AllocationFailed { target, requested } => {
            push_text(out, "AllocationFailed { target: ");
            push_target_name(out, target);
            push_text(out, ", requested: ");
            push_decimal(out, requested as u64);
            push_text(out, " }");
        },
        BottomKError::ProfileMismatch => push_text(out, "ProfileMismatch"),
        BottomKError::RebuildRequired { observation_hash } => {
            push_text(out, "RebuildRequired { observation_hash: ");
            push_decimal(out, observation_hash as u64);
            push_text(out, " }");
        },
    }
    proof {
        assert(out@ =~= old(out)@ + error_debug(value));
    }
}
/// Diagnostic text of a codec failure: the error as `Debug` prints it.
pub open spec fn codec_error_text(value: BottomKCodecError) -> Seq<char> {
    match value {
        BottomKCodecError::State(error) => "State("@ + error_debug(error) + ")"@,
        BottomKCodecError::IntegerUnrepresentable => "IntegerUnrepresentable"@,
        BottomKCodecError::LengthOverflow => "LengthOverflow"@,
        BottomKCodecError::AllocationFailed { requested } => "AllocationFailed { requested: "@ + decimal(requested as nat) + " }"@,
        BottomKCodecError::MagicMismatch { actual } => "MagicMismatch { actual: "@ + "["@ + byte_list(actual@) + "]"@ + " }"@,
        BottomKCodecError::UnsupportedVersion { actual } => "UnsupportedVersion { actual: "@ + decimal(actual as nat) + " }"@,
        BottomKCodecError::UnsupportedHashAlgorithm { actual } => "UnsupportedHashAlgorithm { actual: "@ + decimal(actual as nat) + " }"@,
        BottomKCodecError::ProfileMismatch { expected, actual } => "ProfileMismatch { expected: "@ + profile_debug(expected) + ", actual: "@ + profile_debug(actual) + " }"@,
        BottomKCodecError::DecodeLimitExceeded { resource, actual, maximum } => "DecodeLimitExceeded { resource: "@ + resource_debug(resource) + ", actual: "@ + decimal(actual as nat) + ", maximum: "@ + decimal(maximum as nat) + " }"@,
        BottomKCodecError::Truncated { offset, needed, remaining } => "Truncated { offset: "@ + decimal(offset as nat) + ", needed: "@ + decimal(needed as nat) + ", remaining: "@ + decimal(remaining as nat) + " }"@,
        BottomKCodecError::SampleCountExceedsProfile { actual, maximum } => "SampleCountExceedsProfile { actual: "@ + decimal(actual as nat) + ", maximum: "@ + decimal(maximum as nat) + " }"@,
        BottomKCodecError::SampleByteCountMismatch { declared, actual } => "SampleByteCountMismatch { declared: "@ + decimal(declared as nat) + ", actual: "@ + decimal(actual as nat) + " }"@,
        BottomKCodecError::HashMismatch { index, actual, expected } => "HashMismatch { index: "@ + decimal(index as nat) + ", actual: "@ + decimal(actual as nat) + ", expected: "@ + decimal(expected as nat) + " }"@,
        BottomKCodecError::DuplicateSample { index } => "DuplicateSample { index: "@ + decimal(index as nat) + " }"@,
        BottomKCodecError::SamplesOutOfOrder { index } => "SamplesOutOfOrder { index: "@ + decimal(index as nat) + " }"@,
        BottomKCodecError::TrailingBytes { offset, remaining } => "TrailingBytes { offset: "@ + decimal(offset as nat) + ", remaining: "@ + decimal(remaining as nat) + " }"@,
    }
}

fn push_codec_error_text(out: &mut String, value: BottomKCodecError)
    ensures
        final(out)@ == old(out)@ + codec_error_text(value),
{
    match value {
        BottomKCodecError::State(error) => {
            push_text(out, "State(");
            push_error_debug(out, error);
            push_text(out, ")");
        },
        BottomKCodecError::IntegerUnrepresentable => push_text(out, "IntegerUnrepresentable"),
        BottomKCodecError::LengthOverflow => push_text(out, "LengthOverflow"),
        BottomKCodecError::AllocationFailed { requested } => {
            push_text(out, "AllocationFailed { requested: ");
            push_decimal(out, requested as u64);
            push_text(out, " }");
        },
        BottomKCodecError::MagicMismatch { actual } => {
            push_text(out, "MagicMismatch { actual: ");
            push_bytes8(out, actual);
            push_text(out, " }");
        },
        BottomKCodecError::UnsupportedVersion { actual } => {
            push_text(out, "UnsupportedVersion { actual: ");
            push_decimal(out, actual as u64);
            push_text(out, " }");
        },
        BottomKCodecError::UnsupportedHashAlgorithm { actual } => {
            push_text(out, "UnsupportedHashAlgorithm { actual: ");
            push_decimal(out, actual as u64);
            push_text(out, " }");
        },
        BottomKCodecError::ProfileMismatch { expected, actual } => {
            push_text(out, "ProfileMismatch { expected: ");
            push_profile_debug(out, expected);
            push_text(out, ", actual: ");
            push_profile_debug(out, actual);
            push_text(out, " }");
        },
        BottomKCodecError::DecodeLimitExceeded { resource, actual, maximum } => {
            push_text(out, "DecodeLimitExceeded { resource: ");
            push_resource_debug(out, resource);
            push_text(out, ", actual: ");
            push_decimal(out, actual as u64);
            push_text(out, ", maximum: ");
            push_decimal(out, maximum as u64);
            push_text(out, " }");
        },
        BottomKCodecError::Truncated { offset, needed, remaining } => {
            push_text(out, "Truncated { offset: ");
            push_decimal(out, offset as u64);
            push_text(out, ", needed: ");
            push_decimal(out, needed as u64);
            push_text(out, ", remaining: ");
            push_decimal(out, remaining as u64);
            push_text(out, " }");
        },
        BottomKCodecError::SampleCountExceedsProfile { actual, maximum } => {
            push_text(out, "SampleCountExceedsProfile { actual: ");
            push_decimal(out, actual as u64);
            push_text(out, ", maximum: ");
            push_decimal(out, maximum as u64);
            push_text(out, " }");
        },
        BottomKCodecError::SampleByteCountMismatch { declared, actual } => {
            push_text(out, "SampleByteCountMismatch { declared: ");
            push_decimal(out, declared as u64);
            push_text(out, ", actual: ");
            push_decimal(out, actual as u64);
            push_text(out, " }");
        },
        BottomKCodecError::HashMismatch { index, actual, expected } => {
            push_text(out, "HashMismatch { index: ");
            push_decimal(out, index as u64);
            push_text(out, ", actual: ");
            push_decimal(out, actual as u64);
            push_text(out, ", expected: ");
            push_decimal(out, expected as u64);
            push_text(out, " }");
        },
        BottomKCodecError::DuplicateSample { index } => {
            push_text(out, "DuplicateSample { index: ");
            push_decimal(out, index as u64);
            push_text(out, " }");
        },
        BottomKCodecError::SamplesOutOfOrder { index } => {
            push_text(out, "SamplesOutOfOrder { index: ");
            push_decimal(out, index as u64);
            push_text(out, " }");
        },
        BottomKCodecError::TrailingBytes { offset, remaining } => {
            push_text(out, "TrailingBytes { offset: ");
            push_decimal(out, offset as u64);
            push_text(out, ", remaining: ");
            push_decimal(out, remaining as u64);
            push_text(out, " }");
        },
    }
    proof {
        assert(out@ =~= old(out)@ + codec_error_text(value));
    }
}

impl BottomKCodecError {
    /// Human-readable diagnostic: the error as `Debug` prints it.
    pub fn message(&self) -> (text: String)
        ensures
            text@ == codec_error_text(*self),
    {
        let mut out = String::new();
        push_codec_error_text(&mut out, *self);
        proof {
            assert(out@ =~= codec_error_text(*self));
        }
        out
    }
}

} // verus!
