//! Deterministic mergeable distinct-count sketches.
//!
//! The sketch is an insertion-only HyperLogLog-style register array. Its
//! complete profile fixes precision, hashing seed, and the allocation ceiling;
//! register order is canonical; merge is lane-wise maximum; and deletion is a
//! typed rebuild request. Estimation uses integer fixed-point arithmetic only,
//! so neither canonical state nor reported estimates depend on host floating
//! point behavior.

use vstd::prelude::*;
use crate::text::{decimal, push_decimal, push_text};
use vstd::arithmetic::power2::{pow2, lemma_pow2_strictly_increases, lemma2_to64, lemma2_to64_rest, lemma_pow2_pos};
use vstd::bits::lemma_u64_shl_is_mul;
use vstd::std_specs::bits::u64_leading_zeros;
use vstd::arithmetic::div_mod::lemma_fundamental_div_mod_converse;
use crate::seeded_hash::{SeededHasher, seeded_hash, le_bytes};

verus! {

/// Smallest supported register-index precision.
pub const MIN_PRECISION: u8 = 4;

/// Largest supported register-index precision.
pub const MAX_PRECISION: u8 = 20;

/// Conservative default ceiling of one byte per register, `2^20`.
pub const DEFAULT_MAX_REGISTERS: usize = 1048576;

/// Fraction bits carried by [`DistinctEstimate::scaled`].
pub const ESTIMATE_FRACTION_BITS: u32 = 32;

/// Domain tag hashed ahead of every key.
pub const DISTINCT_HASH_DOMAIN: u64 = 0x4647_4442_4449_5354;

/// `ln 2` in Q64.
pub const LN_2_Q64: u128 = 0xb172_17f7_d1cf_79ab;

/// One in Q32.
pub const Q32_ONE: u128 = 0x1_0000_0000;

/// One half in Q32.
pub const Q32_HALF: u128 = 0x8000_0000;

/// One in Q64.
pub const Q64_ONE: u128 = 0x1_0000_0000_0000_0000;

/// Complete hashing, precision, and resource profile.
#[derive(Clone, Copy, Debug, Eq, Hash, PartialEq, Structural)]
pub struct DistinctProfile {
    /// High hash bits used as the canonical register index.
    pub precision: u8,
    /// Explicit deterministic root seed.
    pub seed: u64,
    /// Maximum register bytes this profile may allocate.
    pub max_registers: usize,
}

impl DistinctProfile {
    /// Constructs a profile with the crate's conservative register ceiling.
    pub fn new(precision: u8, seed: u64) -> (profile: Self)
        ensures
            profile == (DistinctProfile { precision, seed, max_registers: DEFAULT_MAX_REGISTERS }),
    {
        DistinctProfile { precision, seed, max_registers: DEFAULT_MAX_REGISTERS }
    }
}

/// Typed construction, merge, or deletion failure.
#[derive(Clone, Copy, Debug, Eq, PartialEq, Structural)]
pub enum DistinctError {
    /// Precision lies outside the implemented deterministic profile family.
    PrecisionOutOfRange {
        /// Rejected precision.
        requested: u8,
        /// Inclusive minimum precision.
        minimum: u8,
        /// Inclusive maximum precision.
        maximum: u8,
    },
    /// Computing `2^precision` did not fit the target's address space.
    RegisterCountOverflow {
        /// Rejected precision.
        precision: u8,
    },
    /// The canonical register array exceeds the explicit resource ceiling.
    RegisterLimitExceeded {
        /// Required registers.
        requested: usize,
        /// Configured ceiling.
        limit: usize,
    },
    /// The allocator rejected the checked register reservation.
    AllocationFailed {
        /// Required registers.
        requested: usize,
    },
    /// Merge operands use different complete profiles.
    ProfileMismatch,
    /// A register array is not canonical for its declared precision.
    NonCanonicalRegisters {
        /// First invalid register index, or the first missing index on a shape
        /// mismatch.
        index: usize,
        /// Observed register value, with zero used for a missing lane.
        value: u8,
        /// Largest legal rank for the profile.
        maximum: u8,
    },
    /// Exact deletion is unavailable for max-register sketches.
    RebuildRequired,
}

/// Canonical logical state borrowed from a sketch.
///
/// Registers are ordered by the unsigned value of the high `precision` hash
/// bits. Every register is in `0..=65-precision`.
#[derive(Clone, Copy, Debug, Eq, PartialEq)]
pub struct DistinctState<'sketch> {
    /// Complete behavior, hashing, and resource profile.
    pub profile: DistinctProfile,
    /// Canonically indexed register ranks.
    pub registers: &'sketch [u8],
}

/// Estimator branch selected from canonical register state.
#[derive(Clone, Copy, Debug, Eq, Hash, PartialEq, Structural)]
pub enum DistinctEstimateMethod {
    /// Empty-register small-range correction, `m * ln(m / zeroes)`.
    LinearCounting,
    /// Bias-constant harmonic register estimator.
    RawHarmonic,
}

/// Deterministic Q32 cardinality estimate.
#[derive(Clone, Copy, Debug, Eq, PartialEq, Structural)]
pub struct DistinctEstimate {
    /// Estimate multiplied by `2^ESTIMATE_FRACTION_BITS`.
    pub scaled: u128,
    /// Estimator branch used for this register state.
    pub method: DistinctEstimateMethod,
    /// Number of zero registers observed by the estimator.
    pub zero_registers: usize,
}

/// A `u128` product that sticks at the maximum instead of overflowing.
pub open spec fn sat_mul(a: u128, b: u128) -> u128 {
    if a * b > u128::MAX {
        u128::MAX
    } else {
        (a * b) as u128
    }
}

/// A `u128` sum that sticks at the maximum instead of overflowing.
pub open spec fn sat_add(a: u128, b: u128) -> u128 {
    if a + b > u128::MAX {
        u128::MAX
    } else {
        (a + b) as u128
    }
}

fn saturating_mul_u128(a: u128, b: u128) -> (product: u128)
    ensures
        product == sat_mul(a, b),
{
    match a.checked_mul(b) {
        Some(p) => p,
        None => u128::MAX,
    }
}

impl DistinctEstimate {
    /// Integer estimate rounded to nearest, saturating at `u64::MAX`.
    pub fn rounded(self) -> (rounded: u64)
        ensures
            rounded == if sat_add(self.scaled, Q32_HALF) / Q32_ONE > u64::MAX {
                u64::MAX as int
            } else {
                (sat_add(self.scaled, Q32_HALF) / Q32_ONE) as int
            },
    {
        let rounded = self.scaled.saturating_add(Q32_HALF) / Q32_ONE;
        if rounded > u64::MAX as u128 {
            u64::MAX
        } else {
            rounded as u64
        }
    }

    /// Integer floor of the estimate, saturating at `u64::MAX`.
    pub fn floor(self) -> (floor: u64)
        ensures
            floor == if self.scaled / Q32_ONE > u64::MAX {
                u64::MAX as int
            } else {
                (self.scaled / Q32_ONE) as int
            },
    {
        let floor = self.scaled / Q32_ONE;
        if floor > u64::MAX as u128 {
            u64::MAX
        } else {
            floor as u64
        }
    }
}

/// Largest legal register rank for a precision.
pub open spec fn spec_maximum_rank(precision: u8) -> int {
    65 - precision
}

/// Largest legal register rank for a precision.
pub fn maximum_rank(precision: u8) -> (rank: u8)
    requires
        precision <= 65,
    ensures
        rank == spec_maximum_rank(precision),
{
    65 - precision
}

/// Register addressed by a hash: its high `precision` bits.
pub open spec fn register_index(hash: u64, precision: u8) -> int {
    (hash >> ((64 - precision) as u64)) as int
}

/// Rank of a hash: one more than the leading zeros after the index bits,
/// capped at the maximum rank.
pub open spec fn register_rank(hash: u64, precision: u8) -> int {
    let zeros = u64_leading_zeros(hash << (precision as u64)) + 1;
    if zeros < 65 - precision {
        zeros
    } else {
        65 - precision
    }
}

proof fn lemma_pow2_le(e1: nat, e2: nat)
    requires
        e1 <= e2,
    ensures
        pow2(e1) <= pow2(e2),
{
    if e1 < e2 {
        lemma_pow2_strictly_increases(e1, e2);
    }
}

/// Splits a hash into its register index and rank.
pub fn index_and_rank(hash: u64, precision: u8) -> (split: (usize, u8))
    requires
        1 <= precision <= 32,
    ensures
        split.0 == register_index(hash, precision),
        split.0 < pow2(precision as nat),
        split.1 == register_rank(hash, precision),
        1 <= split.1 <= spec_maximum_rank(precision),
{
    let shift = (64 - precision) as u64;
    let high = hash >> shift;
    let p = precision as u64;
    proof {
        assert(hash >> shift < (1u64 << p)) by (bit_vector)
            requires
                1 <= p < 64,
                shift + p == 64,
        ;
        lemma2_to64();
        lemma2_to64_rest();
        lemma_pow2_strictly_increases(p as nat, 64);
        lemma_pow2_le(p as nat, 32);
        lemma_u64_shl_is_mul(1, p);
    }
    let suffix = hash << p;
    let zeros = suffix.leading_zeros();
    proof {
        vstd::std_specs::bits::axiom_u64_leading_zeros(suffix);
    }
    let counted = zeros + 1;
    let maximum = (65 - precision) as u32;
    let rank = if counted < maximum {
        counted
    } else {
        maximum
    };
    (high as usize, rank as u8)
}

/// Hash of a canonical key under a seed: the distinct-sketch domain tag
/// and the key's length, then the key.
pub open spec fn distinct_key_hash(seed: u64, key: Seq<u8>) -> u64 {
    seeded_hash(seed, le_bytes(DISTINCT_HASH_DOMAIN as nat, 8) + le_bytes(key.len(), 8) + key)
}

fn hash_key(seed: u64, key: &[u8]) -> (hash: u64)
    ensures
        hash == distinct_key_hash(seed, key@),
{
    let mut hasher = SeededHasher::new(seed);
    hasher.write_u64(DISTINCT_HASH_DOMAIN);
    hasher.write_u64(key.len() as u64);
    hasher.write(key);
    proof {
        assert(hasher.spec_written() =~= le_bytes(DISTINCT_HASH_DOMAIN as nat, 8) + le_bytes(key@.len(), 8) + key@);
    }
    hasher.finish()
}

/// Registers after observing a hash: its register keeps the larger rank.
pub open spec fn observe_registers(registers: Seq<u8>, precision: u8, hash: u64) -> Seq<u8> {
    let i = register_index(hash, precision);
    let r = register_rank(hash, precision);
    if r > registers[i] {
        registers.update(i, r as u8)
    } else {
        registers
    }
}

/// Lane-wise maximum of two register arrays.
pub open spec fn lane_max(a: Seq<u8>, b: Seq<u8>) -> Seq<u8> {
    Seq::new(a.len(), |i: int| if a[i] >= b[i] { a[i] } else { b[i] })
}

/// Observations commute and repeat harmlessly: the registers depend only on
/// the set of observed hashes.
pub proof fn law_observations_commute(registers: Seq<u8>, precision: u8, a: u64, b: u64)
    requires
        1 <= precision < 64,
        registers.len() == pow2(precision as nat),
    ensures
        observe_registers(observe_registers(registers, precision, a), precision, b) == observe_registers(
            observe_registers(registers, precision, b),
            precision,
            a,
        ),
        observe_registers(observe_registers(registers, precision, a), precision, a) == observe_registers(
            registers,
            precision,
            a,
        ),
{
    let p = precision as u64;
    let shift = (64 - p) as u64;
    assert(a >> shift < (1u64 << p)) by (bit_vector)
        requires
            1 <= p < 64,
            shift + p == 64,
    ;
    assert(b >> shift < (1u64 << p)) by (bit_vector)
        requires
            1 <= p < 64,
            shift + p == 64,
    ;
    lemma2_to64();
    lemma2_to64_rest();
    lemma_pow2_strictly_increases(p as nat, 64);
    lemma_u64_shl_is_mul(1, p);
    vstd::std_specs::bits::axiom_u64_leading_zeros(a << p);
    vstd::std_specs::bits::axiom_u64_leading_zeros(b << p);
    assert(observe_registers(observe_registers(registers, precision, a), precision, b) =~= observe_registers(
        observe_registers(registers, precision, b),
        precision,
        a,
    ));
    assert(observe_registers(observe_registers(registers, precision, a), precision, a) =~= observe_registers(
        registers,
        precision,
        a,
    ));
}

/// Merging is commutative, associative and idempotent.
pub proof fn law_merge_lattice(a: Seq<u8>, b: Seq<u8>, c: Seq<u8>)
    requires
        a.len() == b.len(),
        b.len() == c.len(),
    ensures
        lane_max(a, b) == lane_max(b, a),
        lane_max(lane_max(a, b), c) == lane_max(a, lane_max(b, c)),
        lane_max(a, a) == a,
{
    assert(lane_max(a, b) =~= lane_max(b, a));
    assert(lane_max(lane_max(a, b), c) =~= lane_max(a, lane_max(b, c)));
    assert(lane_max(a, a) =~= a);
}

/// Number of zero registers.
pub open spec fn zero_count(registers: Seq<u8>) -> nat
    decreases registers.len(),
{
    if registers.len() == 0 {
        0
    } else {
        zero_count(registers.drop_last()) + if registers.last() == 0 {
            1nat
        } else {
            0nat
        }
    }
}

/// Harmonic register sum scaled by `2^maximum`: each register contributes
/// `2^(maximum - register)`.
pub open spec fn harmonic_scaled(registers: Seq<u8>, maximum: u8) -> nat
    decreases registers.len(),
{
    if registers.len() == 0 {
        0
    } else {
        let r = registers.last();
        let shift = if r <= maximum {
            (maximum - r) as nat
        } else {
            0
        };
        harmonic_scaled(registers.drop_last(), maximum) + pow2(shift)
    }
}

/// `numerator / denominator` in Q32, rounded to nearest, with saturating
/// scaling.
pub open spec fn rounded_ratio_q32(numerator: u128, denominator: u128) -> u128 {
    (sat_add(sat_mul(numerator, Q32_ONE), denominator / 2) / denominator) as u128
}

/// Bias constant `alpha_m` in Q32.
pub open spec fn alpha_q32(register_count: u64) -> u128 {
    if register_count == 16 {
        rounded_ratio_q32(673, 1000)
    } else if register_count == 32 {
        rounded_ratio_q32(697, 1000)
    } else if register_count == 64 {
        rounded_ratio_q32(709, 1000)
    } else {
        rounded_ratio_q32(sat_mul(7213, register_count as u128), sat_mul(10, sat_add(sat_mul(1000, register_count as u128), 1079)))
    }
}

/// Raw harmonic estimate in Q32: `alpha * m^2 * 2^maximum / harmonic`.
pub open spec fn raw_estimate_q32(registers: Seq<u8>, maximum: u8) -> u128 {
    let m = registers.len() as u128;
    let numerator = sat_mul(sat_mul(sat_mul(alpha_q32(m as u64), m), m), pow2(maximum as nat) as u128);
    let h = harmonic_scaled(registers, maximum);
    (numerator as int / if h == 0 {
        1
    } else {
        h as int
    }) as u128
}

/// Doublings of `denominator` while it stays at most half of `numerator`,
/// with the doubled denominator.
pub open spec fn halvings(numerator: u64, denominator: u64) -> (u64, nat)
    decreases numerator - denominator,
{
    if denominator == 0 || denominator > numerator / 2 {
        (denominator, 0)
    } else {
        let (d, e) = halvings(numerator, (denominator * 2) as u64);
        (d, e + 1)
    }
}

/// Q64 product.
pub open spec fn multiply_q64(left: u128, right: u128) -> u128 {
    (sat_mul(left, right) / Q64_ONE) as u128
}

/// Partial `atanh` series: `term * z2^k / (2(i+k)+1)` summed for
/// `k = 1 ..` up to iteration 32.
pub open spec fn series_tail(term: u128, z_squared: u128, iteration: nat) -> int
    decreases 33 - iteration,
{
    if iteration > 32 {
        0
    } else {
        let next = multiply_q64(term, z_squared);
        (next as int) / ((2 * iteration + 1) as int) + series_tail(next, z_squared, iteration + 1)
    }
}

/// `ln(numerator / denominator)` in Q32 by range reduction to
/// `[1, 2)` and the `2 atanh` series; zero when the ratio is at most one.
pub open spec fn ln_ratio_q32(numerator: u64, denominator: u64) -> u128 {
    if numerator <= denominator || denominator == 0 {
        0
    } else {
        let (d, e) = halvings(numerator, denominator);
        let z = (((numerator - d) * Q64_ONE) / (numerator + d)) as u128;
        let z_squared = multiply_q64(z, z);
        let series = (z + series_tail(z, z_squared, 1)) as u128;
        let log = sat_add(sat_mul(e as u128, LN_2_Q64), sat_mul(series, 2));
        (sat_add(log, Q32_HALF) / Q32_ONE) as u128
    }
}

/// The estimate a register array yields.
pub open spec fn spec_estimate(registers: Seq<u8>, precision: u8) -> DistinctEstimate {
    let m = registers.len();
    let zeros = zero_count(registers);
    let raw = raw_estimate_q32(registers, (65 - precision) as u8);
    let threshold = sat_mul(m as u128, (5 * Q32_HALF) as u128);
    if zeros != 0 && raw <= threshold {
        DistinctEstimate {
            scaled: sat_mul(m as u128, ln_ratio_q32(m as u64, zeros as u64)),
            method: DistinctEstimateMethod::LinearCounting,
            zero_registers: zeros as usize,
        }
    } else {
        DistinctEstimate { scaled: raw, method: DistinctEstimateMethod::RawHarmonic, zero_registers: zeros as usize }
    }
}

/// A well-formed register array for a profile.
pub open spec fn canonical_registers(profile: DistinctProfile, registers: Seq<u8>) -> bool {
    &&& MIN_PRECISION <= profile.precision <= MAX_PRECISION
    &&& registers.len() == pow2(profile.precision as nat)
    &&& registers.len() <= profile.max_registers
    &&& forall|i: int| 0 <= i < registers.len() ==> #[trigger] registers[i] <= 65 - profile.precision
}

/// Mergeable deterministic distinct-count summary.
#[derive(Debug, Eq, PartialEq)]
pub struct DistinctSketch {
    profile: DistinctProfile,
    registers: Vec<u8>,
}

impl Clone for DistinctSketch {
    fn clone(&self) -> (copy: Self)
        ensures
            copy.spec_profile() == self.spec_profile(),
            copy.spec_registers() == self.spec_registers(),
    {
        proof {
            use_type_invariant(self);
        }
        let registers = self.registers.clone();
        proof {
            assert(registers@ =~= self.registers@);
        }
        DistinctSketch { profile: self.profile, registers }
    }
}

impl DistinctSketch {
    #[verifier::type_invariant]
    spec fn well_formed(self) -> bool {
        canonical_registers(self.profile, self.registers@)
    }

    /// Complete immutable profile.
    pub closed spec fn spec_profile(self) -> DistinctProfile {
        self.profile
    }

    /// Canonically indexed register ranks.
    pub closed spec fn spec_registers(self) -> Seq<u8> {
        self.registers@
    }

    /// Every sketch holds `2^precision` registers, each at most the maximum
    /// rank, within its ceiling.
    pub fn lemma_canonical(&self)
        ensures
            canonical_registers(self.spec_profile(), self.spec_registers()),
    {
        proof {
            use_type_invariant(self);
        }
    }

    /// Allocates a zeroed canonical register array after checking all bounds.
    pub fn try_new(profile: DistinctProfile) -> (result: Result<Self, DistinctError>)
        ensures
            !(MIN_PRECISION <= profile.precision <= MAX_PRECISION) ==> result == Err::<Self, DistinctError>(
                DistinctError::PrecisionOutOfRange {
                    requested: profile.precision,
                    minimum: MIN_PRECISION,
                    maximum: MAX_PRECISION,
                },
            ),
            MIN_PRECISION <= profile.precision <= MAX_PRECISION && pow2(profile.precision as nat)
                > profile.max_registers ==> result == Err::<Self, DistinctError>(
                DistinctError::RegisterLimitExceeded {
                    requested: pow2(profile.precision as nat) as usize,
                    limit: profile.max_registers,
                },
            ),
            MIN_PRECISION <= profile.precision <= MAX_PRECISION && pow2(profile.precision as nat)
                <= profile.max_registers ==> match result {
                Ok(s) => s.spec_profile() == profile && s.spec_registers() == Seq::new(
                    pow2(profile.precision as nat),
                    |i: int| 0u8,
                ),
                Err(e) => e == DistinctError::AllocationFailed { requested: pow2(profile.precision as nat) as usize },
            },
    {
        if profile.precision < MIN_PRECISION || profile.precision > MAX_PRECISION {
            return Err(
                DistinctError::PrecisionOutOfRange {
                    requested: profile.precision,
                    minimum: MIN_PRECISION,
                    maximum: MAX_PRECISION,
                },
            );
        }
        let p = profile.precision as u64;
        proof {
            lemma2_to64();
            lemma_pow2_le(p as nat, 20);
            lemma_u64_shl_is_mul(1, p);
        }
        let register_count = (1u64 << p) as usize;
        if register_count > profile.max_registers {
            return Err(DistinctError::RegisterLimitExceeded { requested: register_count, limit: profile.max_registers });
        }
        let mut registers: Vec<u8> = Vec::new();
        match registers.try_reserve(register_count) {
            Ok(()) => {},
            Err(_) => {
                return Err(DistinctError::AllocationFailed { requested: register_count });
            },
        }
        let mut index: usize = 0;
        while index < register_count
            invariant
                index <= register_count,
                registers@ == Seq::new(index as nat, |i: int| 0u8),
            decreases register_count - index,
        {
            registers.push(0);
            index = index + 1;
            proof {
                assert(registers@ =~= Seq::new(index as nat, |i: int| 0u8));
            }
        }
        Ok(DistinctSketch { profile, registers })
    }

    /// Complete immutable profile.
    pub fn profile(&self) -> (profile: DistinctProfile)
        ensures
            profile == self.spec_profile(),
    {
        self.profile
    }

    /// Number of canonical registers.
    pub fn register_count(&self) -> (count: usize)
        ensures
            count == self.spec_registers().len(),
    {
        self.registers.len()
    }

    /// Largest legal rank under this profile.
    pub fn maximum_rank(&self) -> (rank: u8)
        ensures
            rank == spec_maximum_rank(self.spec_profile().precision),
    {
        proof {
            use_type_invariant(self);
        }
        maximum_rank(self.profile.precision)
    }

    /// Canonical logical state.
    pub fn canonical_state(&self) -> (state: DistinctState<'_>)
        ensures
            state.profile == self.spec_profile(),
            state.registers@ == self.spec_registers(),
    {
        DistinctState { profile: self.profile, registers: self.registers.as_slice() }
    }

    /// Observes a canonical byte key.
    ///
    /// Returns `true` exactly when one canonical register increased.
    pub fn observe(&mut self, key: &[u8]) -> (increased: bool)
        ensures
            final(self).spec_profile() == old(self).spec_profile(),
            final(self).spec_registers() == observe_registers(
                old(self).spec_registers(),
                old(self).spec_profile().precision,
                distinct_key_hash(old(self).spec_profile().seed, key@),
            ),
            increased == (final(self).spec_registers() != old(self).spec_registers()),
    {
        let hash = hash_key(self.profile.seed, key);
        self.observe_hash(hash)
    }

    /// Rejects deletion without changing the insertion-only sketch.
    pub fn try_remove(&mut self, key: &[u8]) -> (result: Result<(), DistinctError>)
        ensures
            result == Err::<(), DistinctError>(DistinctError::RebuildRequired),
            *final(self) == *old(self),
    {
        Err(DistinctError::RebuildRequired)
    }

    /// Merges another profile-identical sketch with lane-wise maximum.
    ///
    /// Every failure leaves the receiver unchanged.
    pub fn try_merge(&mut self, other: &Self) -> (result: Result<(), DistinctError>)
        ensures
            result is Ok <==> old(self).spec_profile() == other.spec_profile(),
            result is Err ==> result == Err::<(), DistinctError>(DistinctError::ProfileMismatch) && *final(self)
                == *old(self),
            result is Ok ==> final(self).spec_profile() == old(self).spec_profile() && final(self).spec_registers()
                == lane_max(old(self).spec_registers(), other.spec_registers()),
    {
        proof {
            use_type_invariant(&*self);
            use_type_invariant(other);
        }
        if self.profile != other.profile {
            return Err(DistinctError::ProfileMismatch);
        }
        let mut merged: Vec<u8> = Vec::new();
        let mut index: usize = 0;
        let len = self.registers.len();
        while index < len
            invariant
                len == self.registers@.len(),
                len == other.registers@.len(),
                index <= len,
                merged@ == lane_max(self.registers@, other.registers@).subrange(0, index as int),
            decreases len - index,
        {
            let left = self.registers[index];
            let right = other.registers[index];
            merged.push(if left >= right { left } else { right });
            proof {
                assert(merged@ =~= lane_max(self.registers@, other.registers@).subrange(0, index + 1));
            }
            index = index + 1;
        }
        proof {
            assert(merged@ =~= lane_max(self.registers@, other.registers@));
        }
        *self = DistinctSketch { profile: self.profile, registers: merged };
        Ok(())
    }

    /// Returns a deterministic Q32 estimate and its selected estimator branch.
    pub fn estimate_fixed(&self) -> (estimate: DistinctEstimate)
        ensures
            estimate == spec_estimate(self.spec_registers(), self.spec_profile().precision),
    {
        proof {
            use_type_invariant(self);
            lemma2_to64();
            lemma_pow2_le(self.profile.precision as nat, 20);
        }
        let register_count = self.registers.len() as u64;
        let mut zeros: usize = 0;
        let mut index: usize = 0;
        while index < self.registers.len()
            invariant
                index <= self.registers@.len(),
                zeros == zero_count(self.registers@.subrange(0, index as int)),
                zeros <= index,
            decreases self.registers@.len() - index,
        {
            proof {
                assert(self.registers@.subrange(0, index + 1).drop_last() =~= self.registers@.subrange(0, index as int));
            }
            if self.registers[index] == 0 {
                zeros = zeros + 1;
            }
            index = index + 1;
        }
        proof {
            assert(self.registers@.subrange(0, self.registers@.len() as int) =~= self.registers@);
        }
        let raw = self.raw_estimate_q32(register_count);
        let threshold = saturating_mul_u128(register_count as u128, 5 * Q32_HALF);
        if zeros != 0 && raw <= threshold {
            let log_q32 = ln_ratio_q32_exec(register_count, zeros as u64);
            DistinctEstimate {
                scaled: saturating_mul_u128(register_count as u128, log_q32),
                method: DistinctEstimateMethod::LinearCounting,
                zero_registers: zeros,
            }
        } else {
            DistinctEstimate { scaled: raw, method: DistinctEstimateMethod::RawHarmonic, zero_registers: zeros }
        }
    }

    /// Returns the fixed-point estimate rounded to the nearest integer.
    pub fn estimate(&self) -> (estimate: u64)
        ensures
            ({
                let scaled = spec_estimate(self.spec_registers(), self.spec_profile().precision).scaled;
                estimate == if sat_add(scaled, Q32_HALF) / Q32_ONE > u64::MAX {
                    u64::MAX as int
                } else {
                    (sat_add(scaled, Q32_HALF) / Q32_ONE) as int
                }
            }),
    {
        self.estimate_fixed().rounded()
    }

    fn observe_hash(&mut self, hash: u64) -> (increased: bool)
        ensures
            final(self).spec_profile() == old(self).spec_profile(),
            final(self).spec_registers() == observe_registers(
                old(self).spec_registers(),
                old(self).spec_profile().precision,
                hash,
            ),
            increased == (final(self).spec_registers() != old(self).spec_registers()),
    {
        proof {
            use_type_invariant(&*self);
        }
        let (index, rank) = index_and_rank(hash, self.profile.precision);
        if rank > self.registers[index] {
            let mut registers = self.registers.clone();
            proof {
                assert(registers@ =~= self.registers@);
            }
            registers.set(index, rank);
            proof {
                assert(registers@[index as int] != self.registers@[index as int]);
            }
            *self = DistinctSketch { profile: self.profile, registers };
            true
        } else {
            false
        }
    }

    fn raw_estimate_q32(&self, register_count: u64) -> (raw: u128)
        requires
            register_count == self.spec_registers().len(),
        ensures
            raw == raw_estimate_q32(self.spec_registers(), (65 - self.spec_profile().precision) as u8),
    {
        proof {
            use_type_invariant(self);
            lemma2_to64();
            lemma2_to64_rest();
            lemma_pow2_le(self.profile.precision as nat, 20);
        }
        let maximum = maximum_rank(self.profile.precision);
        let mut harmonic: u128 = 0;
        let mut index: usize = 0;
        while index < self.registers.len()
            invariant
                index <= self.registers@.len(),
                self.registers@.len() <= 1048576,
                maximum <= 61,
                harmonic == harmonic_scaled(self.registers@.subrange(0, index as int), maximum),
                harmonic <= index * 0x2000_0000_0000_0000,
            decreases self.registers@.len() - index,
        {
            let register = self.registers[index];
            let shift = if register <= maximum {
                maximum - register
            } else {
                0
            };
            proof {
                lemma2_to64();
                lemma2_to64_rest();
                lemma_pow2_le(shift as nat, 61);
                lemma_u64_shl_is_mul(1, shift as u64);
                assert(self.registers@.subrange(0, index + 1).drop_last() =~= self.registers@.subrange(0, index as int));
                assert(index * 0x2000_0000_0000_0000 + 0x2000_0000_0000_0000 <= 1048576 * 0x2000_0000_0000_0000)
                    by (nonlinear_arith)
                    requires
                        index < 1048576,
                ;
            }
            let weight = (1u64 << (shift as u64)) as u128;
            harmonic = harmonic + weight;
            index = index + 1;
        }
        proof {
            assert(self.registers@.subrange(0, self.registers@.len() as int) =~= self.registers@);
            lemma_u64_shl_is_mul(1, maximum as u64);
        }
        let alpha = alpha_q32_exec(register_count);
        let scale = (1u64 << (maximum as u64)) as u128;
        let numerator = saturating_mul_u128(
            saturating_mul_u128(saturating_mul_u128(alpha, register_count as u128), register_count as u128),
            scale,
        );
        let divisor = if harmonic == 0 {
            1
        } else {
            harmonic
        };
        numerator / divisor
    }
}

fn rounded_ratio_q32_exec(numerator: u128, denominator: u128) -> (ratio: u128)
    requires
        denominator > 0,
    ensures
        ratio == rounded_ratio_q32(numerator, denominator),
{
    saturating_mul_u128(numerator, Q32_ONE).saturating_add(denominator / 2) / denominator
}

fn alpha_q32_exec(register_count: u64) -> (alpha: u128)
    ensures
        alpha == alpha_q32(register_count),
{
    if register_count == 16 {
        rounded_ratio_q32_exec(673, 1000)
    } else if register_count == 32 {
        rounded_ratio_q32_exec(697, 1000)
    } else if register_count == 64 {
        rounded_ratio_q32_exec(709, 1000)
    } else {
        let scaled = saturating_mul_u128(1000, register_count as u128).saturating_add(1079);
        rounded_ratio_q32_exec(saturating_mul_u128(7213, register_count as u128), saturating_mul_u128(10, scaled))
    }
}

fn multiply_q64_exec(left: u128, right: u128) -> (product: u128)
    ensures
        product == multiply_q64(left, right),
{
    saturating_mul_u128(left, right) / Q64_ONE
}

proof fn lemma_halvings(numerator: u64, denominator: u64)
    requires
        0 < denominator <= numerator,
    ensures
        numerator / 2 < halvings(numerator, denominator).0 <= numerator,
        pow2(halvings(numerator, denominator).1) * denominator <= numerator,
        halvings(numerator, denominator).1 < 64,
    decreases numerator - denominator,
{
    lemma2_to64();
    lemma2_to64_rest();
    if denominator <= numerator / 2 {
        let doubled = (denominator * 2) as u64;
        lemma_halvings(numerator, doubled);
        let e = halvings(numerator, doubled).1;
        assert(halvings(numerator, denominator).1 == e + 1);
        assert(halvings(numerator, denominator).0 == halvings(numerator, doubled).0);
        vstd::arithmetic::power2::lemma_pow2_unfold(e + 1);
        assert(pow2(e + 1) * denominator == pow2(e) * doubled) by (nonlinear_arith)
            requires
                pow2(e + 1) == 2 * pow2(e),
                doubled == 2 * denominator,
        ;
    }
    let e = halvings(numerator, denominator).1;
    lemma_pow2_pos(e);
    if e >= 64 {
        lemma_pow2_le(64, e);
        assert(pow2(e) * denominator >= pow2(e)) by (nonlinear_arith)
            requires
                denominator >= 1,
                pow2(e) > 0,
        ;
    }
}

proof fn lemma_q64_product_bound(term: u128, z_squared: u128)
    requires
        term < Q64_ONE,
        z_squared < Q64_ONE,
    ensures
        multiply_q64(term, z_squared) <= term,
{
    assert(term * z_squared <= term * Q64_ONE) by (nonlinear_arith)
        requires
            z_squared < Q64_ONE,
            term >= 0,
    ;
    assert(term * Q64_ONE < Q64_ONE * Q64_ONE) by (nonlinear_arith)
        requires
            term < Q64_ONE,
    ;
    assert((term * z_squared) / (Q64_ONE as int) <= term) by (nonlinear_arith)
        requires
            term * z_squared <= term * Q64_ONE,
            term >= 0,
    ;
}

/// Doubling the numerator doubles the reduced denominator and takes one
/// more halving.
proof fn lemma_halvings_double(numerator: u64, denominator: u64)
    requires
        0 < denominator <= numerator,
        numerator <= u64::MAX / 2,
    ensures
        halvings((2 * numerator) as u64, denominator) == (
            (2 * halvings(numerator, denominator).0) as u64,
            halvings(numerator, denominator).1 + 1,
        ),
    decreases numerator - denominator,
{
    let doubled = (2 * numerator) as u64;
    let next = (denominator * 2) as u64;
    if denominator <= numerator / 2 {
        lemma_halvings_double(numerator, next);
        assert(halvings(doubled, denominator) == (halvings(doubled, next).0, halvings(doubled, next).1 + 1));
    } else {
        assert(halvings(numerator, denominator) == (denominator, 0nat));
        assert(halvings(doubled, next) == (next, 0nat));
    }
}

/// Every partial series sum over a Q64 term below one stays below
/// `(34 - iteration)` in Q64.
proof fn lemma_series_tail_bounds(term: u128, z_squared: u128, iteration: nat)
    requires
        term <= Q64_ONE,
        z_squared <= Q64_ONE,
        1 <= iteration,
    ensures
        0 <= series_tail(term, z_squared, iteration),
        iteration <= 33 ==> series_tail(term, z_squared, iteration) <= (34 - iteration) * Q64_ONE,
    decreases 33 - iteration,
{
    if iteration <= 32 {
        let next = multiply_q64(term, z_squared);
        assert(sat_mul(term, z_squared) <= Q64_ONE * Q64_ONE) by (nonlinear_arith)
            requires
                term <= Q64_ONE,
                z_squared <= Q64_ONE,
                sat_mul(term, z_squared) == if term * z_squared > u128::MAX {
                    u128::MAX as int
                } else {
                    term * z_squared
                },
        ;
        assert(next <= Q64_ONE) by (nonlinear_arith)
            requires
                next == sat_mul(term, z_squared) / Q64_ONE,
                sat_mul(term, z_squared) <= Q64_ONE * Q64_ONE,
        ;
        assert((next as int) / ((2 * iteration + 1) as int) <= next) by (nonlinear_arith)
            requires
                iteration >= 1,
        ;
        lemma_series_tail_bounds(next, z_squared, iteration + 1);
    }
}

/// The series of a zero term is zero.
proof fn lemma_series_tail_zero(z_squared: u128, iteration: nat)
    ensures
        series_tail(0, z_squared, iteration) == 0,
    decreases 33 - iteration,
{
    if iteration <= 32 {
        assert(multiply_q64(0, z_squared) == 0);
        lemma_series_tail_zero(z_squared, iteration + 1);
    }
}

/// Adding `c` to `x` raises `x / q` by `c / q`, or by one more.
proof fn lemma_floor_of_sum(x: int, c: int, q: int)
    requires
        0 <= x,
        0 <= c,
        0 < q,
    ensures
        (x + c) / q == x / q + c / q || (x + c) / q == x / q + c / q + 1,
{
    vstd::arithmetic::div_mod::lemma_fundamental_div_mod(x, q);
    vstd::arithmetic::div_mod::lemma_fundamental_div_mod(c, q);
    vstd::arithmetic::div_mod::lemma_mod_pos_bound(x, q);
    vstd::arithmetic::div_mod::lemma_mod_pos_bound(c, q);
    let r = x % q + c % q;
    assert(x + c == (x / q + c / q) * q + r) by (nonlinear_arith)
        requires
            x == q * (x / q) + x % q,
            c == q * (c / q) + c % q,
            r == x % q + c % q,
    ;
    assert(x + c == (x / q + c / q + 1) * q + (r - q)) by (nonlinear_arith)
        requires
            x + c == (x / q + c / q) * q + r,
    ;
    if r < q {
        lemma_fundamental_div_mod_converse(x + c, q, x / q + c / q, r);
    } else {
        lemma_fundamental_div_mod_converse(x + c, q, x / q + c / q + 1, r - q);
    }
}

/// The natural logarithm of two: `ln(2x / x)` is `ln 2 = 0.693147180559945...`,
/// which in Q32, rounded to nearest, is 2977044472.
pub proof fn law_ln_ratio_of_two(x: u64)
    requires
        0 < x <= u64::MAX / 2,
    ensures
        ln_ratio_q32((2 * x) as u64, x) == 2977044472,
{
    let n = (2 * x) as u64;
    assert(halvings(n, n) == (n, 0nat));
    assert(halvings(n, x) == (n, 1nat));
    assert(((n - n) * Q64_ONE) / (n + n) == 0);
    assert(multiply_q64(0, 0) == 0);
    lemma_series_tail_zero(0, 1);
    lemma_fundamental_div_mod_converse(
        LN_2_Q64 + Q32_HALF,
        Q32_ONE as int,
        2977044472,
        0x51cf79ab,
    );
}

/// The reduced denominator is the denominator doubled once per halving.
proof fn lemma_halvings_value(numerator: u64, denominator: u64)
    requires
        0 < denominator <= numerator,
    ensures
        halvings(numerator, denominator).0 == pow2(halvings(numerator, denominator).1) * denominator,
    decreases numerator - denominator,
{
    vstd::arithmetic::power2::lemma2_to64();
    if denominator <= numerator / 2 {
        let doubled = (denominator * 2) as u64;
        lemma_halvings_value(numerator, doubled);
        let e = halvings(numerator, doubled).1;
        assert(halvings(numerator, denominator) == (halvings(numerator, doubled).0, e + 1));
        vstd::arithmetic::power2::lemma_pow2_unfold(e + 1);
        assert(pow2(e + 1) * denominator == pow2(e) * doubled) by (nonlinear_arith)
            requires
                pow2(e + 1) == 2 * pow2(e),
                doubled == 2 * denominator,
        ;
        assert(halvings(numerator, doubled).0 == pow2(e) * doubled);
        assert(halvings(numerator, denominator).0 == pow2(e + 1) * denominator);
    } else {
        assert(halvings(numerator, denominator) == (denominator, 0nat));
        assert(pow2(0) == 1);
        assert(halvings(numerator, denominator).0 == pow2(0) * denominator);
    }
}

/// `ln x >= 1 - 1/x`: the logarithm of `n/d` in Q32 is at least
/// `(n - d)/n` in Q32, rounded down.
pub proof fn law_ln_ratio_lower_bound(numerator: u64, denominator: u64)
    requires
        0 < denominator < numerator,
    ensures
        ln_ratio_q32(numerator, denominator) >= ((numerator - denominator) * Q32_ONE) / (numerator as int),
{
    let n = numerator as int;
    lemma_halvings(numerator, denominator);
    lemma_halvings_value(numerator, denominator);
    let (dr, e) = halvings(numerator, denominator);
    let d = dr as int;
    let q = Q64_ONE as int;
    let a = (n - d) * q;
    let b = n + d;
    assert(0 <= n - d < b);
    assert(a / b < q) by (nonlinear_arith)
        requires
            a == (n - d) * q,
            0 <= n - d < b,
            q > 0,
    ;
    let z = (a / b) as u128;
    let z_squared = multiply_q64(z, z);
    assert(sat_mul(z, z) <= Q64_ONE * Q64_ONE) by (nonlinear_arith)
        requires
            z <= Q64_ONE,
            sat_mul(z, z) == if z * z > u128::MAX {
                u128::MAX as int
            } else {
                z * z
            },
    ;
    assert(z_squared <= Q64_ONE) by (nonlinear_arith)
        requires
            z_squared == sat_mul(z, z) / Q64_ONE,
            sat_mul(z, z) <= Q64_ONE * Q64_ONE,
    ;
    lemma_series_tail_bounds(z, z_squared, 1);
    let series = (z + series_tail(z, z_squared, 1)) as u128;
    assert(series >= z);
    assert(e * LN_2_Q64 <= 64 * LN_2_Q64) by (nonlinear_arith)
        requires
            e < 64,
    ;
    let log = sat_add(sat_mul(e as u128, LN_2_Q64), sat_mul(series, 2));
    assert(log == e * LN_2_Q64 + 2 * series);
    assert(ln_ratio_q32(numerator, denominator) == (sat_add(log, Q32_HALF) / Q32_ONE) as u128);
    // The bound in Q64, rounded down.
    let m = denominator as int;
    let w = ((n - m) * q) / n;
    vstd::arithmetic::div_mod::lemma_fundamental_div_mod((n - m) * q, n);
    vstd::arithmetic::div_mod::lemma_mod_pos_bound((n - m) * q, n);
    assert(w * n <= (n - m) * q) by (nonlinear_arith)
        requires
            (n - m) * q == n * w + ((n - m) * q) % n,
            ((n - m) * q) % n >= 0,
    ;
    vstd::arithmetic::div_mod::lemma_fundamental_div_mod(a, b);
    vstd::arithmetic::div_mod::lemma_mod_pos_bound(a, b);
    assert(a < (z + 1) * b) by (nonlinear_arith)
        requires
            a == b * z + a % b,
            a % b < b,
    ;
    assert(w < q) by (nonlinear_arith)
        requires
            w * n <= (n - m) * q,
            0 < m < n,
            q > 0,
    ;
    if e == 0 {
        assert(d == m);
        assert(2 * a * n >= (n - m) * q * b) by (nonlinear_arith)
            requires
                a == (n - m) * q,
                b == n + m,
                0 < m < n,
                q > 0,
        ;
        assert(w < 2 * z + 2) by (nonlinear_arith)
            requires
                w * n <= (n - m) * q,
                2 * a * n >= (n - m) * q * b,
                a < (z + 1) * b,
                n > 0,
                b > 0,
        ;
    } else if e == 1 {
        vstd::arithmetic::power2::lemma2_to64();
        assert(d == 2 * m);
        assert(100 * LN_2_Q64 >= 69 * q);
        assert(2 * w * n <= (2 * n - d) * q) by (nonlinear_arith)
            requires
                w * n <= (n - m) * q,
                d == 2 * m,
        ;
        assert(2 * n * b * LN_2_Q64 + 4 * n * (n - d) * q >= (2 * n - d) * b * q) by (nonlinear_arith)
            requires
                100 * LN_2_Q64 >= 69 * q,
                b == n + d,
                0 < d <= n,
                q > 0,
        {
            assert(100 * d * d - 362 * n * d + 338 * n * n == (10 * d - 18 * n) * (10 * d - 18 * n) + 2 * n * (
            7 * n - d)) by (nonlinear_arith);
            assert(2 * n * b * (100 * LN_2_Q64) >= 2 * n * b * (69 * q)) by (nonlinear_arith)
                requires
                    100 * LN_2_Q64 >= 69 * q,
                    n > 0,
                    b > 0,
            ;
        }
        assert(w < LN_2_Q64 + 2 * z + 2) by (nonlinear_arith)
            requires
                2 * w * n <= (2 * n - d) * q,
                2 * n * b * LN_2_Q64 + 4 * n * (n - d) * q >= (2 * n - d) * b * q,
                a == (n - d) * q,
                a < (z + 1) * b,
                n > 0,
                b > 0,
        ;
    } else {
        assert(2 * LN_2_Q64 >= q);
        assert(e * LN_2_Q64 >= 2 * LN_2_Q64) by (nonlinear_arith)
            requires
                e >= 2,
        ;
    }
    assert(log + 2 > w);
    assert((log + Q32_HALF) / (Q32_ONE as int) >= w / (Q32_ONE as int)) by (nonlinear_arith)
        requires
            log + Q32_HALF >= w,
    {
        vstd::arithmetic::div_mod::lemma_div_is_ordered(w, log + Q32_HALF, Q32_ONE as int);
    }
    vstd::arithmetic::div_mod::lemma_div_denominator((n - m) * q, n, Q32_ONE as int);
    assert(Q32_ONE * Q32_ONE == q);
    assert(n * (Q32_ONE as int) * (Q32_ONE as int) == q * n) by (nonlinear_arith)
        requires
            Q32_ONE * Q32_ONE == q,
    ;
    assert((n - m) * q == ((n - m) * Q32_ONE) * Q32_ONE) by (nonlinear_arith)
        requires
            Q32_ONE * Q32_ONE == q,
    ;
    vstd::arithmetic::div_mod::lemma_div_denominator((n - m) * Q32_ONE * Q32_ONE, Q32_ONE as int, n);
}

/// Doubling a ratio adds `ln 2` to its logarithm: `ln(2n/d) = ln(n/d) + ln 2`,
/// where `ln 2` in Q32 is 2977044471.8..., so the two Q32 results, each
/// rounded to nearest, differ by 2977044471 or 2977044472.
pub proof fn law_ln_ratio_doubling(numerator: u64, denominator: u64)
    requires
        0 < denominator < numerator,
        numerator <= u64::MAX / 2,
    ensures
        ln_ratio_q32((2 * numerator) as u64, denominator) == ln_ratio_q32(numerator, denominator) + 2977044471
            || ln_ratio_q32((2 * numerator) as u64, denominator) == ln_ratio_q32(numerator, denominator)
            + 2977044472,
{
    let n = numerator;
    let n2 = (2 * numerator) as u64;
    lemma_halvings(n, denominator);
    lemma_halvings_double(n, denominator);
    let (d, e) = halvings(n, denominator);
    assert(halvings(n2, denominator) == ((2 * d) as u64, e + 1));
    let a = (n - d) * Q64_ONE;
    let b = n + d;
    assert(0 <= n - d < b);
    assert(a / b < Q64_ONE) by (nonlinear_arith)
        requires
            a == (n - d) * Q64_ONE,
            0 <= n - d < b,
    ;
    vstd::arithmetic::div_mod::lemma_div_denominator(2 * a, 2, b);
    assert((2 * a) / 2 == a);
    assert(((n2 - 2 * d) * Q64_ONE) / (n2 + 2 * d) == a / b) by {
        assert((n2 - 2 * d) * Q64_ONE == 2 * a) by (nonlinear_arith)
            requires
                n2 == 2 * n,
                a == (n - d) * Q64_ONE,
        ;
        assert(n2 + 2 * d == 2 * b);
    }
    let z = (a / b) as u128;
    let z_squared = multiply_q64(z, z);
    assert(sat_mul(z, z) <= Q64_ONE * Q64_ONE) by (nonlinear_arith)
        requires
            z <= Q64_ONE,
            sat_mul(z, z) == if z * z > u128::MAX {
                u128::MAX as int
            } else {
                z * z
            },
    ;
    assert(z_squared <= Q64_ONE) by (nonlinear_arith)
        requires
            z_squared == sat_mul(z, z) / Q64_ONE,
            sat_mul(z, z) <= Q64_ONE * Q64_ONE,
    ;
    lemma_series_tail_bounds(z, z_squared, 1);
    let series = (z + series_tail(z, z_squared, 1)) as u128;
    assert(series <= 34 * Q64_ONE);
    assert(e * LN_2_Q64 <= 64 * LN_2_Q64) by (nonlinear_arith)
        requires
            e < 64,
    ;
    let base = sat_add(sat_mul(e as u128, LN_2_Q64), sat_mul(series, 2));
    let raised = sat_add(sat_mul((e + 1) as u128, LN_2_Q64), sat_mul(series, 2));
    assert(base == e * LN_2_Q64 + 2 * series);
    assert(raised == base + LN_2_Q64);
    assert(ln_ratio_q32(n, denominator) == (sat_add(base, Q32_HALF) / Q32_ONE) as u128);
    assert(ln_ratio_q32(n2, denominator) == (sat_add(raised, Q32_HALF) / Q32_ONE) as u128);
    lemma_floor_of_sum(base + Q32_HALF, LN_2_Q64 as int, Q32_ONE as int);
    lemma_fundamental_div_mod_converse(LN_2_Q64 as int, Q32_ONE as int, 2977044471, 0xd1cf79ab);
}

/// `ln(numerator / denominator)` in Q32; zero when the ratio is at most one.
fn ln_ratio_q32_exec(numerator: u64, denominator: u64) -> (log: u128)
    ensures
        log == ln_ratio_q32(numerator, denominator),
{
    if numerator <= denominator || denominator == 0 {
        return 0;
    }
    let mut reduced_denominator = denominator;
    let mut exponent: u32 = 0;
    proof {
        lemma_halvings(numerator, denominator);
    }
    while reduced_denominator <= numerator / 2
        invariant
            0 < denominator < numerator,
            0 < reduced_denominator <= numerator,
            halvings(numerator, reduced_denominator).0 == halvings(numerator, denominator).0,
            halvings(numerator, reduced_denominator).1 + exponent == halvings(numerator, denominator).1,
            halvings(numerator, denominator).1 < 64,
        decreases numerator - reduced_denominator,
    {
        reduced_denominator = reduced_denominator * 2;
        exponent = exponent + 1;
    }
    let n = numerator as u128;
    let d = reduced_denominator as u128;
    proof {
        assert(n - d < n + d);
        assert((n - d) * Q64_ONE < Q64_ONE * Q64_ONE) by (nonlinear_arith)
            requires
                n - d < Q64_ONE,
                n - d >= 0,
        ;
        assert(((n - d) * Q64_ONE) / (n + d) < Q64_ONE) by (nonlinear_arith)
            requires
                0 <= n - d < n + d,
        ;
    }
    let z_q64 = ((n - d) * Q64_ONE) / (n + d);
    let z_squared_q64 = multiply_q64_exec(z_q64, z_q64);
    proof {
        assert(z_q64 * z_q64 < Q64_ONE * Q64_ONE) by (nonlinear_arith)
            requires
                z_q64 < Q64_ONE,
        ;
        assert((z_q64 * z_q64) / (Q64_ONE as int) < Q64_ONE) by (nonlinear_arith)
            requires
                z_q64 * z_q64 < Q64_ONE * Q64_ONE,
        ;
    }
    let mut term_q64 = z_q64;
    let mut series_q64 = term_q64;
    let mut iteration: u128 = 1;
    while iteration <= 32
        invariant
            1 <= iteration <= 33,
            z_q64 < Q64_ONE,
            z_squared_q64 < Q64_ONE,
            term_q64 <= z_q64,
            series_q64 <= iteration * Q64_ONE,
            series_q64 + series_tail(term_q64, z_squared_q64, iteration as nat) == z_q64 + series_tail(
                z_q64,
                z_squared_q64,
                1,
            ),
        decreases 33 - iteration,
    {
        proof {
            lemma_q64_product_bound(term_q64, z_squared_q64);
        }
        term_q64 = multiply_q64_exec(term_q64, z_squared_q64);
        proof {
            assert((term_q64 as int) / (2 * iteration + 1) <= term_q64) by (nonlinear_arith)
                requires
                    iteration >= 1,
                    term_q64 >= 0,
            ;
        }
        series_q64 = series_q64 + term_q64 / (2 * iteration + 1);
        iteration = iteration + 1;
    }
    let log_q64 = saturating_mul_u128(exponent as u128, LN_2_Q64).saturating_add(saturating_mul_u128(series_q64, 2));
    log_q64.saturating_add(Q32_HALF) / Q32_ONE
}

/// Diagnostic text of a distinct-sketch failure.
pub open spec fn distinct_error_text(error: DistinctError) -> Seq<char> {
    match error {
        DistinctError::PrecisionOutOfRange { requested, minimum, maximum } => "distinct-sketch precision "@ + decimal(requested as nat) + " is outside "@ + decimal(minimum as nat) + "..="@ + decimal(maximum as nat),
        DistinctError::RegisterCountOverflow { precision } => "distinct-sketch register count for precision "@ + decimal(precision as nat) + " overflows usize"@,
        DistinctError::RegisterLimitExceeded { requested, limit } => "distinct sketch requires "@ + decimal(requested as nat) + " registers, configured limit is "@ + decimal(limit as nat),
        DistinctError::AllocationFailed { requested } => "could not reserve "@ + decimal(requested as nat) + " distinct-sketch registers"@,
        DistinctError::ProfileMismatch => "cannot merge distinct sketches with different profiles"@,
        DistinctError::NonCanonicalRegisters { index, value, maximum } => "distinct-sketch register "@ + decimal(index as nat) + " has rank "@ + decimal(value as nat) + ", maximum is "@ + decimal(maximum as nat),
        DistinctError::RebuildRequired => "distinct sketch cannot delete exactly; rebuild is required"@,
    }
}

impl DistinctError {
    /// Human-readable diagnostic.
    pub fn message(&self) -> (text: String)
        ensures
            text@ == distinct_error_text(*self),
    {
        let mut out = String::new();
        match *self {
            DistinctError::PrecisionOutOfRange { requested, minimum, maximum } => {
                push_text(&mut out, "distinct-sketch precision ");
                push_decimal(&mut out, requested as u64);
                push_text(&mut out, " is outside ");
                push_decimal(&mut out, minimum as u64);
                push_text(&mut out, "..=");
                push_decimal(&mut out, maximum as u64);
            },
            DistinctError::RegisterCountOverflow { precision } => {
                push_text(&mut out, "distinct-sketch register count for precision ");
                push_decimal(&mut out, precision as u64);
                push_text(&mut out, " overflows usize");
            },
            DistinctError::RegisterLimitExceeded { requested, limit } => {
                push_text(&mut out, "distinct sketch requires ");
                push_decimal(&mut out, requested as u64);
                push_text(&mut out, " registers, configured limit is ");
                push_decimal(&mut out, limit as u64);
            },
            DistinctError::AllocationFailed { requested } => {
                push_text(&mut out, "could not reserve ");
                push_decimal(&mut out, requested as u64);
                push_text(&mut out, " distinct-sketch registers");
            },
            DistinctError::ProfileMismatch => {
                push_text(&mut out, "cannot merge distinct sketches with different profiles");
            },
            DistinctError::NonCanonicalRegisters { index, value, maximum } => {
                push_text(&mut out, "distinct-sketch register ");
                push_decimal(&mut out, index as u64);
                push_text(&mut out, " has rank ");
                push_decimal(&mut out, value as u64);
                push_text(&mut out, ", maximum is ");
                push_decimal(&mut out, maximum as u64);
            },
            DistinctError::RebuildRequired => {
                push_text(&mut out, "distinct sketch cannot delete exactly; rebuild is required");
            },
        }
        proof {
            assert(out@ =~= distinct_error_text(*self));
        }
        out
    }
}

} // verus!
