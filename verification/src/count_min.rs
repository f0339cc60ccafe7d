//! Deterministic insertion-only Count-Min frequency sketches.
//!
//! Deletion returns [`CountMinError::RebuildRequired`] without changing state,
//! so an advisory frequency estimate cannot silently drift after a property or
//! edge is removed. Every row of the counter matrix sums to the total
//! accepted weight; this is a type invariant, so every sketch value encodes.

use vstd::prelude::*;
use crate::text::{byte_list, decimal, push_bytes8, push_decimal, push_text};
use crate::codec::{
    be_u16, be_u64, be_u64_seq, decode_be_u16, decode_be_u64, lemma_be_u64_seq_layout, lemma_be_u64_round_trip, lemma_be_u16_round_trip, lemma_be_u16_bytes_round_trip, lemma_be_u64_bytes_round_trip,
    push_u16, push_u64, read_u16_at, read_u64_at, extend_bytes, bytes_equal, u64_to_usize,
};
use crate::seeded_hash::{SeededHasher, seeded_hash, le_bytes};
use crate::seq_sum::{
    seq_sum, pointwise_sum, lemma_sum_concat, lemma_sum_bounds, lemma_sum_update, lemma_sum_pointwise,
    lemma_prefix_sum_le,
};

verus! {

/// Conservative default ceiling for one sketch's counter matrix.
pub const DEFAULT_MAX_CELLS: usize = 16 * 1024 * 1024;

const CANONICAL_VERSION: u16 = 1;
const CANONICAL_HEADER_BYTES: usize = 68;
const COUNTER_BYTES: usize = 8;
pub const DEFAULT_MAX_DECODED_DEPTH: usize = 64;
pub const DEFAULT_MAX_ENCODED_BYTES: usize = 68 + 16 * 1024 * 1024 * 8;

/// The eight-byte format discriminator `FGDBCMS1`.
pub open spec fn count_min_magic() -> Seq<u8> {
    seq![0x46u8, 0x47u8, 0x44u8, 0x42u8, 0x43u8, 0x4du8, 0x53u8, 0x31u8]
}

fn magic_bytes() -> (magic: [u8; 8])
    ensures
        magic@ == count_min_magic(),
{
    let magic = [0x46u8, 0x47u8, 0x44u8, 0x42u8, 0x43u8, 0x4du8, 0x53u8, 0x31u8];
    assert(magic@ =~= count_min_magic());
    magic
}

/// Stable Count-Min bucket-mapping algorithm.
#[derive(Clone, Copy, Debug, Eq, Hash, PartialEq, Structural)]
pub enum CountMinHashAlgorithm {
    /// Seeded FNV-1a stream followed by the pinned mix64 finalizer, with the
    /// row number written as little-endian `u64` before the key.
    SeededFnvMix64V1,
}

/// Complete profile governing shape, hashing, and resource bounds.
#[derive(Clone, Copy, Debug, Eq, Hash, PartialEq, Structural)]
pub struct CountMinProfile {
    /// Counters in each row.
    pub width: usize,
    /// Independently seeded rows.
    pub depth: usize,
    /// Stable bucket-mapping algorithm retained in merge identity.
    pub hash_algorithm: CountMinHashAlgorithm,
    /// Explicit deterministic root seed.
    pub seed: u64,
    /// Maximum accepted sum of observation weights.
    pub max_total_weight: u64,
    /// Maximum allocated counters.
    pub max_cells: usize,
}

impl CountMinProfile {
    /// Constructs a profile with the crate's conservative cell ceiling.
    pub fn new(width: usize, depth: usize, seed: u64, max_total_weight: u64) -> (profile: Self)
        ensures
            profile == (CountMinProfile {
                width,
                depth,
                hash_algorithm: CountMinHashAlgorithm::SeededFnvMix64V1,
                seed,
                max_total_weight,
                max_cells: DEFAULT_MAX_CELLS,
            }),
    {
        CountMinProfile {
            width,
            depth,
            hash_algorithm: CountMinHashAlgorithm::SeededFnvMix64V1,
            seed,
            max_total_weight,
            max_cells: DEFAULT_MAX_CELLS,
        }
    }
}

/// Caller-owned admission bounds for a canonical Count-Min value.
#[derive(Clone, Copy, Debug, Eq, PartialEq, Structural)]
pub struct CountMinDecodeLimits {
    /// Largest accepted row width.
    pub max_width: usize,
    /// Largest accepted row count and therefore per-key update cost.
    pub max_depth: usize,
    /// Largest accepted matrix, independent of its encoded profile ceiling.
    pub max_cells: usize,
    /// Largest complete canonical value.
    pub max_encoded_bytes: usize,
}

impl CountMinDecodeLimits {
    /// Conservative crate-level admission policy.
    pub fn conservative() -> (limits: Self)
        ensures
            limits == (CountMinDecodeLimits {
                max_width: DEFAULT_MAX_CELLS,
                max_depth: DEFAULT_MAX_DECODED_DEPTH,
                max_cells: DEFAULT_MAX_CELLS,
                max_encoded_bytes: DEFAULT_MAX_ENCODED_BYTES,
            }),
    {
        CountMinDecodeLimits {
            max_width: DEFAULT_MAX_CELLS,
            max_depth: DEFAULT_MAX_DECODED_DEPTH,
            max_cells: DEFAULT_MAX_CELLS,
            max_encoded_bytes: DEFAULT_MAX_ENCODED_BYTES,
        }
    }
}

/// Typed failure from construction or a state transition.
#[derive(Clone, Copy, Debug, Eq, PartialEq, Structural)]
pub enum CountMinError {
    /// Width and depth must both be nonzero.
    EmptyDimension { width: usize, depth: usize },
    /// Multiplying width by depth overflowed.
    CellCountOverflow,
    /// The configured matrix exceeds its explicit resource ceiling.
    CellLimitExceeded { requested: usize, limit: usize },
    /// The allocator rejected the checked matrix reservation.
    AllocationFailed { requested: usize },
    /// An update or merge would exceed a counter or total-weight bound.
    WeightOverflow,
    /// Merge operands use different complete profiles.
    ProfileMismatch,
    /// This profile cannot subtract observations exactly.
    RebuildRequired { requested_weight: u64 },
}

/// Strict canonical-codec failure.
#[derive(Clone, Copy, Debug, Eq, PartialEq)]
pub enum CountMinCodecError {
    /// The decoded sketch violates a construction invariant.
    State(CountMinError),
    /// A platform-sized profile field cannot be represented canonically.
    IntegerUnrepresentable,
    /// Computing the exact encoded size overflowed.
    LengthOverflow,
    /// The allocator rejected the exact canonical byte reservation.
    AllocationFailed { requested: usize },
    /// The eight-byte format discriminator did not match.
    MagicMismatch { actual: [u8; 8] },
    /// The format version is not implemented.
    UnsupportedVersion { actual: u16 },
    /// The encoded bucket-mapping algorithm is unsupported.
    UnsupportedHashAlgorithm { actual: u16 },
    /// Input ended before a complete field could be read.
    Truncated { offset: usize, needed: usize, remaining: usize },
    /// The encoded counter count disagrees with width times depth.
    CounterCountMismatch { expected: usize, actual: usize },
    /// Input contains bytes after the one canonical value.
    TrailingBytes { offset: usize, remaining: usize },
    /// The encoded total exceeds its declared profile ceiling.
    TotalWeightExceedsProfile { actual: u64, maximum: u64 },
    /// A counter exceeds the complete accepted weight.
    CounterExceedsTotal { index: usize, counter: u64, total_weight: u64 },
    /// One row does not sum to the complete accepted weight.
    RowWeightMismatch { row: usize, expected: u64, actual: u64 },
    /// The complete encoded value exceeds the caller-owned byte budget.
    EncodedByteLimitExceeded { actual: usize, maximum: usize },
    /// The encoded width exceeds the caller-owned CPU or memory budget.
    WidthLimitExceeded { actual: usize, maximum: usize },
    /// The encoded depth exceeds the caller-owned per-key CPU budget.
    DepthLimitExceeded { actual: usize, maximum: usize },
    /// The encoded profile or matrix exceeds the caller-owned cell budget.
    DecodeCellLimitExceeded { actual: usize, maximum: usize },
    /// The encoded profile is not the registry-selected profile.
    ProfileMismatch { expected: CountMinProfile, actual: CountMinProfile },
}

/// Canonical logical state borrowed from a sketch; counters are row-major.
#[derive(Clone, Copy, Debug, Eq, PartialEq)]
pub struct CountMinState<'sketch> {
    /// Complete behavior and hashing profile.
    pub profile: CountMinProfile,
    /// Sum of accepted observation weights.
    pub total_weight: u64,
    /// Row-major counter matrix.
    pub counters: &'sketch [u64],
}

/// Whether a profile describes a nonempty matrix within its cell ceiling.
pub open spec fn profile_ok(profile: CountMinProfile) -> bool {
    &&& profile.width > 0
    &&& profile.depth > 0
    &&& profile.width * profile.depth <= profile.max_cells
}

/// The first construction law a profile breaks, if any.
pub open spec fn profile_failure(profile: CountMinProfile) -> Option<CountMinError> {
    if profile.width == 0 || profile.depth == 0 {
        Some(CountMinError::EmptyDimension { width: profile.width, depth: profile.depth })
    } else if profile.width * profile.depth > usize::MAX {
        Some(CountMinError::CellCountOverflow)
    } else if profile.width * profile.depth > profile.max_cells {
        Some(
            CountMinError::CellLimitExceeded {
                requested: (profile.width * profile.depth) as usize,
                limit: profile.max_cells,
            },
        )
    } else {
        None
    }
}

/// Counters of row `row`.
pub open spec fn row_of(counters: Seq<u64>, width: int, row: int) -> Seq<u64> {
    counters.subrange(row * width, row * width + width)
}

/// A counter matrix whose rows each sum to `total`.
pub open spec fn rows_sum_to(counters: Seq<u64>, profile: CountMinProfile, total: u64) -> bool {
    &&& counters.len() == profile.width * profile.depth
    &&& forall|row: int| 0 <= row < profile.depth ==> #[trigger] seq_sum(row_of(counters, profile.width as int, row)) == total
}

/// The hash a key receives in one row.
pub open spec fn cm_hash(profile: CountMinProfile, row: int, key: Seq<u8>) -> u64 {
    seeded_hash(profile.seed, le_bytes(row as nat, 8) + key)
}

/// The row-major counter a key addresses in one row.
pub open spec fn cm_index(profile: CountMinProfile, row: int, key: Seq<u8>) -> int {
    row * profile.width + (cm_hash(profile, row, key) % (profile.width as u64)) as int
}

/// Counters after adding `weight` to the key's cell in each of the first
/// `rows` rows.
pub open spec fn add_rows(
    profile: CountMinProfile,
    counters: Seq<u64>,
    key: Seq<u8>,
    weight: u64,
    rows: nat,
) -> Seq<u64>
    decreases rows,
{
    if rows == 0 {
        counters
    } else {
        let previous = add_rows(profile, counters, key, weight, (rows - 1) as nat);
        let index = cm_index(profile, rows - 1, key);
        previous.update(index, (previous[index] + weight) as u64)
    }
}

/// Counters after one observation of `key` with `weight`.
pub open spec fn observe_counters(profile: CountMinProfile, counters: Seq<u64>, key: Seq<u8>, weight: u64) -> Seq<u64> {
    add_rows(profile, counters, key, weight, profile.depth as nat)
}

/// Whether counter `i` is the key's cell in its own row, among the first
/// `rows` rows.
pub open spec fn addressed(profile: CountMinProfile, key: Seq<u8>, rows: nat, i: int) -> bool {
    &&& i / (profile.width as int) < rows
    &&& i == cm_index(profile, i / (profile.width as int), key)
}

/// Minimum, over the first `rows` rows, of the key's counters.
pub open spec fn estimate_rows(profile: CountMinProfile, counters: Seq<u64>, key: Seq<u8>, rows: nat) -> u64
    decreases rows,
{
    if rows == 0 {
        u64::MAX
    } else {
        let rest = estimate_rows(profile, counters, key, (rows - 1) as nat);
        let here = counters[cm_index(profile, rows - 1, key)];
        if here < rest {
            here
        } else {
            rest
        }
    }
}

/// The Count-Min upper-bound estimate of a key.
pub open spec fn estimate_counters(profile: CountMinProfile, counters: Seq<u64>, key: Seq<u8>) -> u64 {
    estimate_rows(profile, counters, key, profile.depth as nat)
}

/// The canonical bytes of a profile, total, and row-major matrix.
pub open spec fn count_min_canonical_bytes(profile: CountMinProfile, total: u64, counters: Seq<u64>) -> Seq<u8> {
    count_min_magic() + be_u16(1) + be_u64(profile.width as u64) + be_u64(profile.depth as u64) + be_u16(1)
        + be_u64(profile.seed) + be_u64(profile.max_total_weight) + be_u64(profile.max_cells as u64) + be_u64(
        total,
    ) + be_u64(counters.len() as u64) + be_u64_seq(counters)
}

proof fn lemma_index_in_row(profile: CountMinProfile, row: int, key: Seq<u8>)
    requires
        profile.width > 0,
        0 <= row < profile.depth,
    ensures
        row * profile.width <= cm_index(profile, row, key) < row * profile.width + profile.width,
        cm_index(profile, row, key) < profile.width * profile.depth,
        cm_index(profile, row, key) / (profile.width as int) == row,
{
    let w = profile.width as int;
    let d = profile.depth as int;
    let h = (cm_hash(profile, row, key) % (profile.width as u64)) as int;
    assert(0 <= h < w);
    assert(row * w + w <= w * d) by (nonlinear_arith)
        requires
            0 <= row < d,
            w > 0,
    ;
    assert((row * w + h) / w == row) by (nonlinear_arith)
        requires
            0 <= h < w,
            w > 0,
    ;
}

proof fn lemma_row_bounds(width: int, depth: int, row: int)
    requires
        width > 0,
        0 <= row < depth,
    ensures
        0 <= row * width,
        row * width + width <= width * depth,
{
    assert(row * width + width <= width * depth) by (nonlinear_arith)
        requires
            0 <= row < depth,
            width > 0,
    ;
    assert(0 <= row * width) by (nonlinear_arith)
        requires
            0 <= row,
            width > 0,
    ;
}

proof fn lemma_rows_disjoint(width: int, r1: int, r2: int, i: int)
    requires
        width > 0,
        0 <= r1,
        0 <= r2,
        r1 != r2,
        r1 * width <= i < r1 * width + width,
    ensures
        !(r2 * width <= i < r2 * width + width),
{
    if r2 < r1 {
        assert(r2 * width + width <= r1 * width) by (nonlinear_arith)
            requires
                r2 < r1,
                width > 0,
        ;
    } else {
        assert(r1 * width + width <= r2 * width) by (nonlinear_arith)
            requires
                r1 < r2,
                width > 0,
        ;
    }
}

/// Adding to the key's cells changes exactly the addressed counters.
pub proof fn lemma_add_rows_pointwise(
    profile: CountMinProfile,
    counters: Seq<u64>,
    key: Seq<u8>,
    weight: u64,
    rows: nat,
)
    requires
        profile.width > 0,
        rows <= profile.depth,
        counters.len() == profile.width * profile.depth,
        forall|i: int| 0 <= i < counters.len() ==> counters[i] + weight <= u64::MAX,
    ensures
        add_rows(profile, counters, key, weight, rows).len() == counters.len(),
        forall|i: int|
            0 <= i < counters.len() ==> #[trigger] add_rows(profile, counters, key, weight, rows)[i] == if addressed(
                profile,
                key,
                rows,
                i,
            ) {
                counters[i] + weight
            } else {
                counters[i] as int
            },
    decreases rows,
{
    if rows > 0 {
        let r = rows - 1;
        lemma_add_rows_pointwise(profile, counters, key, weight, (rows - 1) as nat);
        lemma_index_in_row(profile, r, key);
        let w = profile.width as int;
        assert forall|i: int| 0 <= i < counters.len() implies #[trigger] add_rows(
            profile,
            counters,
            key,
            weight,
            rows,
        )[i] == if addressed(profile, key, rows, i) {
            counters[i] + weight
        } else {
            counters[i] as int
        } by {
            let index = cm_index(profile, r, key);
            if i == index {
                assert(i / w == r);
                assert(!addressed(profile, key, (rows - 1) as nat, i));
            } else {
                if addressed(profile, key, rows, i) {
                    assert(i / w != r);
                }
            }
        }
    }
}

/// The estimate lies at or below every addressed counter, and equals one.
proof fn lemma_estimate_rows(profile: CountMinProfile, counters: Seq<u64>, key: Seq<u8>, rows: nat)
    requires
        profile.width > 0,
        rows <= profile.depth,
        counters.len() == profile.width * profile.depth,
    ensures
        forall|r: int| 0 <= r < rows ==> estimate_rows(profile, counters, key, rows) <= #[trigger] counters[cm_index(profile, r, key)],
        rows > 0 ==> exists|r: int| 0 <= r < rows && estimate_rows(profile, counters, key, rows) == #[trigger] counters[cm_index(profile, r, key)],
    decreases rows,
{
    if rows > 0 {
        lemma_estimate_rows(profile, counters, key, (rows - 1) as nat);
        let r = rows - 1;
        if estimate_rows(profile, counters, key, rows) == counters[cm_index(profile, r, key)] {
            assert(0 <= r < rows);
        } else {
            let rr = choose|q: int| 0 <= q < rows - 1 && estimate_rows(profile, counters, key, (rows - 1) as nat)
                == #[trigger] counters[cm_index(profile, q, key)];
            assert(0 <= rr < rows);
        }
    }
}

/// One observation raises the key's estimate by exactly its weight.
pub proof fn law_observe_raises_own_estimate(profile: CountMinProfile, counters: Seq<u64>, key: Seq<u8>, weight: u64)
    requires
        profile_ok(profile),
        counters.len() == profile.width * profile.depth,
        forall|i: int| 0 <= i < counters.len() ==> counters[i] + weight <= u64::MAX,
    ensures
        estimate_counters(profile, observe_counters(profile, counters, key, weight), key) == estimate_counters(
            profile,
            counters,
            key,
        ) + weight,
{
    let after = observe_counters(profile, counters, key, weight);
    lemma_add_rows_pointwise(profile, counters, key, weight, profile.depth as nat);
    lemma_estimate_rows(profile, counters, key, profile.depth as nat);
    lemma_estimate_rows(profile, after, key, profile.depth as nat);
    let before_est = estimate_counters(profile, counters, key);
    let after_est = estimate_counters(profile, after, key);
    assert forall|r: int| 0 <= r < profile.depth implies #[trigger] after[cm_index(profile, r, key)]
        == counters[cm_index(profile, r, key)] + weight by {
        lemma_index_in_row(profile, r, key);
    }
    let ra = choose|r: int| 0 <= r < profile.depth && after_est == #[trigger] after[cm_index(profile, r, key)];
    let rb = choose|r: int| 0 <= r < profile.depth && before_est == #[trigger] counters[cm_index(profile, r, key)];
    assert(after_est <= after[cm_index(profile, rb, key)]);
    assert(before_est <= counters[cm_index(profile, ra, key)]);
}

/// An observation never lowers any key's estimate: estimates only grow, so
/// no observed weight is ever understated.
pub proof fn law_observe_never_lowers_estimates(
    profile: CountMinProfile,
    counters: Seq<u64>,
    key: Seq<u8>,
    weight: u64,
    other: Seq<u8>,
)
    requires
        profile_ok(profile),
        counters.len() == profile.width * profile.depth,
        forall|i: int| 0 <= i < counters.len() ==> counters[i] + weight <= u64::MAX,
    ensures
        estimate_counters(profile, observe_counters(profile, counters, key, weight), other) >= estimate_counters(
            profile,
            counters,
            other,
        ),
{
    let after = observe_counters(profile, counters, key, weight);
    lemma_add_rows_pointwise(profile, counters, key, weight, profile.depth as nat);
    lemma_estimate_rows(profile, counters, other, profile.depth as nat);
    lemma_estimate_rows(profile, after, other, profile.depth as nat);
    let after_est = estimate_counters(profile, after, other);
    let ra = choose|r: int| 0 <= r < profile.depth && after_est == #[trigger] after[cm_index(profile, r, other)];
    lemma_index_in_row(profile, ra, other);
    assert(after[cm_index(profile, ra, other)] >= counters[cm_index(profile, ra, other)]);
}

/// The matrix after a run of observations, in order.
pub open spec fn observe_run(profile: CountMinProfile, counters: Seq<u64>, run: Seq<(Seq<u8>, u64)>) -> Seq<u64>
    decreases run.len(),
{
    if run.len() == 0 {
        counters
    } else {
        observe_counters(
            profile,
            observe_run(profile, counters, run.drop_last()),
            run.last().0,
            run.last().1,
        )
    }
}

/// The total weight a run observes.
pub open spec fn run_total(run: Seq<(Seq<u8>, u64)>) -> int
    decreases run.len(),
{
    if run.len() == 0 {
        0
    } else {
        run_total(run.drop_last()) + run.last().1
    }
}

/// The total weight a run observes for `key`.
pub open spec fn run_weight(run: Seq<(Seq<u8>, u64)>, key: Seq<u8>) -> int
    decreases run.len(),
{
    if run.len() == 0 {
        0
    } else {
        run_weight(run.drop_last(), key) + if run.last().0 == key {
            run.last().1 as int
        } else {
            0
        }
    }
}

proof fn lemma_run_bounded(profile: CountMinProfile, counters: Seq<u64>, run: Seq<(Seq<u8>, u64)>)
    requires
        profile_ok(profile),
        counters.len() == profile.width * profile.depth,
        forall|i: int| 0 <= i < counters.len() ==> counters[i] + run_total(run) <= u64::MAX,
    ensures
        observe_run(profile, counters, run).len() == counters.len(),
        forall|i: int|
            0 <= i < counters.len() ==> #[trigger] observe_run(profile, counters, run)[i] <= counters[i] + run_total(run),
        run_total(run) >= 0,
    decreases run.len(),
{
    if run.len() > 0 {
        let prefix = run.drop_last();
        assert(run_total(prefix) <= run_total(run));
        lemma_run_bounded(profile, counters, prefix);
        let before = observe_run(profile, counters, prefix);
        lemma_add_rows_pointwise(profile, before, run.last().0, run.last().1, profile.depth as nat);
    }
}

/// Count-Min never understates: after any run of observations whose
/// weights cannot overflow a counter, every key's estimate has grown by at
/// least the weight the run observed for it.
pub proof fn law_run_never_understates(
    profile: CountMinProfile,
    counters: Seq<u64>,
    run: Seq<(Seq<u8>, u64)>,
    key: Seq<u8>,
)
    requires
        profile_ok(profile),
        counters.len() == profile.width * profile.depth,
        forall|i: int| 0 <= i < counters.len() ==> counters[i] + run_total(run) <= u64::MAX,
    ensures
        estimate_counters(profile, observe_run(profile, counters, run), key) >= estimate_counters(
            profile,
            counters,
            key,
        ) + run_weight(run, key),
    decreases run.len(),
{
    if run.len() > 0 {
        let prefix = run.drop_last();
        lemma_run_bounded(profile, counters, run);
        assert(run_total(prefix) <= run_total(run));
        law_run_never_understates(profile, counters, prefix, key);
        lemma_run_bounded(profile, counters, prefix);
        let before = observe_run(profile, counters, prefix);
        let (k, w) = run.last();
        assert forall|i: int| 0 <= i < before.len() implies before[i] + w <= u64::MAX by {
            assert(before[i] <= counters[i] + run_total(prefix));
        }
        if k == key {
            law_observe_raises_own_estimate(profile, before, key, w);
        } else {
            law_observe_never_lowers_estimates(profile, before, k, w, key);
        }
    }
}

/// Observations commute: the matrix after two observations does not depend
/// on their order.
pub proof fn law_observations_commute(
    profile: CountMinProfile,
    counters: Seq<u64>,
    k1: Seq<u8>,
    w1: u64,
    k2: Seq<u8>,
    w2: u64,
)
    requires
        profile_ok(profile),
        counters.len() == profile.width * profile.depth,
        forall|i: int| 0 <= i < counters.len() ==> counters[i] + w1 + w2 <= u64::MAX,
    ensures
        observe_counters(profile, observe_counters(profile, counters, k1, w1), k2, w2) == observe_counters(
            profile,
            observe_counters(profile, counters, k2, w2),
            k1,
            w1,
        ),
{
    let d = profile.depth as nat;
    let a1 = observe_counters(profile, counters, k1, w1);
    let a2 = observe_counters(profile, counters, k2, w2);
    lemma_add_rows_pointwise(profile, counters, k1, w1, d);
    lemma_add_rows_pointwise(profile, counters, k2, w2, d);
    lemma_add_rows_pointwise(profile, a1, k2, w2, d);
    lemma_add_rows_pointwise(profile, a2, k1, w1, d);
    assert(observe_counters(profile, a1, k2, w2) =~= observe_counters(profile, a2, k1, w1));
}

/// Merging two matrices is commutative.
pub proof fn law_merge_commutes(a: Seq<u64>, b: Seq<u64>)
    requires
        a.len() == b.len(),
    ensures
        pointwise_sum(a, b) == pointwise_sum(b, a),
{
    assert(pointwise_sum(a, b) =~= pointwise_sum(b, a));
}

/// Merging three matrices is associative.
pub proof fn law_merge_associates(a: Seq<u64>, b: Seq<u64>, c: Seq<u64>)
    requires
        a.len() == b.len(),
        b.len() == c.len(),
        forall|i: int| 0 <= i < a.len() ==> a[i] + b[i] + c[i] <= u64::MAX,
    ensures
        pointwise_sum(pointwise_sum(a, b), c) == pointwise_sum(a, pointwise_sum(b, c)),
{
    assert(pointwise_sum(pointwise_sum(a, b), c) =~= pointwise_sum(a, pointwise_sum(b, c)));
}

/// Mergeable frequency upper-bound summary.
#[derive(Debug, Eq, PartialEq)]
pub struct CountMinSketch {
    profile: CountMinProfile,
    counters: Vec<u64>,
    total_weight: u64,
}

impl Clone for CountMinSketch {
    fn clone(&self) -> (copy: Self)
        ensures
            copy.spec_profile() == self.spec_profile(),
            copy.spec_total() == self.spec_total(),
            copy.spec_counters() == self.spec_counters(),
    {
        proof {
            use_type_invariant(self);
        }
        let counters = self.counters.clone();
        proof {
            assert(counters@ =~= self.counters@);
        }
        CountMinSketch { profile: self.profile, counters, total_weight: self.total_weight }
    }
}

impl CountMinSketch {
    #[verifier::type_invariant]
    spec fn well_formed(self) -> bool {
        &&& profile_ok(self.profile)
        &&& self.total_weight <= self.profile.max_total_weight
        &&& rows_sum_to(self.counters@, self.profile, self.total_weight)
    }

    /// The complete profile.
    pub closed spec fn spec_profile(self) -> CountMinProfile {
        self.profile
    }

    /// Row-major counters.
    pub closed spec fn spec_counters(self) -> Seq<u64> {
        self.counters@
    }

    /// Sum of accepted observation weights.
    pub closed spec fn spec_total(self) -> u64 {
        self.total_weight
    }

    /// Every sketch has a valid profile and rows summing to its total.
    fn lemma_well_formed(&self)
        ensures
            profile_ok(self.spec_profile()),
            self.spec_total() <= self.spec_profile().max_total_weight,
            rows_sum_to(self.spec_counters(), self.spec_profile(), self.spec_total()),
            forall|i: int| 0 <= i < self.spec_counters().len() ==> #[trigger] self.spec_counters()[i] <= self.spec_total(),
    {
        proof {
        use_type_invariant(self);
        let w = self.profile.width as int;
        let c = self.counters@;
        assert forall|i: int| 0 <= i < c.len() implies #[trigger] c[i] <= self.total_weight by {
            let row = i / w;
            assert(0 <= row < self.profile.depth && row * w <= i < row * w + w) by (nonlinear_arith)
                requires
                    0 <= i < w * self.profile.depth,
                    w > 0,
                    row == i / w,
            ;
            lemma_row_bounds(w, self.profile.depth as int, row);
            lemma_sum_bounds(row_of(c, w, row));
            assert(row_of(c, w, row)[i - row * w] == c[i]);
        }
        }
    }

    /// Allocates an all-zero matrix after validating every resource bound.
    pub fn try_new(profile: CountMinProfile) -> (result: Result<Self, CountMinError>)
        ensures
            result is Ok <==> profile_failure(profile) is None,
            profile_failure(profile) matches Some(e) ==> result == Err::<Self, CountMinError>(e),
            result matches Ok(s) ==> {
                &&& s.spec_profile() == profile
                &&& s.spec_total() == 0
                &&& s.spec_counters() == Seq::new((profile.width * profile.depth) as nat, |i: int| 0u64)
            },
    {
        let cell_count = match validate_profile(profile) {
            Ok(count) => count,
            Err(e) => {
                return Err(e);
            },
        };
        let mut counters: Vec<u64> = Vec::new();
        let mut index: usize = 0;
        while index < cell_count
            invariant
                index <= cell_count,
                counters@ == Seq::new(index as nat, |i: int| 0u64),
            decreases cell_count - index,
        {
            counters.push(0);
            index = index + 1;
            proof {
                assert(counters@ =~= Seq::new(index as nat, |i: int| 0u64));
            }
        }
        proof {
            assert forall|row: int| 0 <= row < profile.depth implies #[trigger] seq_sum(
                row_of(counters@, profile.width as int, row),
            ) == 0 by {
                lemma_row_bounds(profile.width as int, profile.depth as int, row);
                lemma_zero_sum(row_of(counters@, profile.width as int, row));
            }
        }
        Ok(CountMinSketch { profile, counters, total_weight: 0 })
    }

    /// Returns the complete immutable profile.
    pub fn profile(&self) -> (profile: CountMinProfile)
        ensures
            profile == self.spec_profile(),
    {
        self.profile
    }

    /// Returns the sum of accepted observation weights.
    pub fn total_weight(&self) -> (total: u64)
        ensures
            total == self.spec_total(),
    {
        self.total_weight
    }

    /// Returns the canonical row-major state.
    pub fn canonical_state(&self) -> (state: CountMinState<'_>)
        ensures
            state.profile == self.spec_profile(),
            state.total_weight == self.spec_total(),
            state.counters@ == self.spec_counters(),
    {
        CountMinState {
            profile: self.profile,
            total_weight: self.total_weight,
            counters: self.counters.as_slice(),
        }
    }

    /// The row-major counter a key addresses in one row.
    pub fn counter_index(&self, row: usize, key: &[u8]) -> (index: usize)
        requires
            row < self.spec_profile().depth,
        ensures
            index == cm_index(self.spec_profile(), row as int, key@),
            index < self.spec_counters().len(),
    {
        proof {
            use_type_invariant(self);
            lemma_index_in_row(self.profile, row as int, key@);
        }
        let mut hasher = SeededHasher::new(self.profile.seed);
        hasher.write_u64(row as u64);
        hasher.write(key);
        let width = self.profile.width as u64;
        let hash = hasher.finish();
        proof {
            assert(hasher.spec_written() =~= le_bytes(row as nat, 8) + key@);
        }
        let offset = (hash % width) as usize;
        proof {
            lemma_row_bounds(self.profile.width as int, self.profile.depth as int, row as int);
        }
        row * self.profile.width + offset
    }

    /// Encodes the complete profile and logical state into one canonical
    /// value: fixed-width big-endian fields followed by the row-major matrix.
    pub fn try_to_canonical_bytes(&self) -> (result: Result<Vec<u8>, CountMinCodecError>)
        ensures
            result is Ok <==> 68 + 8 * self.spec_counters().len() <= usize::MAX,
            result matches Ok(bytes) ==> bytes@ == count_min_canonical_bytes(
                self.spec_profile(),
                self.spec_total(),
                self.spec_counters(),
            ),
            result matches Err(e) ==> e == CountMinCodecError::LengthOverflow,
    {
        proof {
            use_type_invariant(self);
        }
        let payload_bytes = match self.counters.len().checked_mul(COUNTER_BYTES) {
            Some(value) => value,
            None => {
                return Err(CountMinCodecError::LengthOverflow);
            },
        };
        match CANONICAL_HEADER_BYTES.checked_add(payload_bytes) {
            Some(_) => {},
            None => {
                return Err(CountMinCodecError::LengthOverflow);
            },
        }
        let mut bytes: Vec<u8> = Vec::new();
        let magic = magic_bytes();
        extend_bytes(&mut bytes, &magic);
        push_u16(&mut bytes, CANONICAL_VERSION);
        push_u64(&mut bytes, self.profile.width as u64);
        push_u64(&mut bytes, self.profile.depth as u64);
        push_u16(&mut bytes, hash_algorithm_tag(self.profile.hash_algorithm));
        push_u64(&mut bytes, self.profile.seed);
        push_u64(&mut bytes, self.profile.max_total_weight);
        push_u64(&mut bytes, self.profile.max_cells as u64);
        push_u64(&mut bytes, self.total_weight);
        push_u64(&mut bytes, self.counters.len() as u64);
        let ghost header = bytes@;
        let mut index: usize = 0;
        while index < self.counters.len()
            invariant
                index <= self.counters@.len(),
                bytes@ == header + be_u64_seq(self.counters@.subrange(0, index as int)),
            decreases self.counters@.len() - index,
        {
            push_u64(&mut bytes, self.counters[index]);
            proof {
                let s = self.counters@.subrange(0, index + 1);
                assert(s.drop_last() =~= self.counters@.subrange(0, index as int));
                assert(bytes@ =~= header + be_u64_seq(s));
            }
            index = index + 1;
        }
        proof {
            assert(self.counters@.subrange(0, self.counters@.len() as int) =~= self.counters@);
        }
        Ok(bytes)
    }

    /// Adds `weight` to a canonical byte key.
    ///
    /// A typed failure leaves the sketch unchanged.
    pub fn try_observe(&mut self, key: &[u8], weight: u64) -> (result: Result<(), CountMinError>)
        ensures
            result is Ok <==> old(self).spec_total() + weight <= old(self).spec_profile().max_total_weight,
            result is Ok ==> {
                &&& final(self).spec_profile() == old(self).spec_profile()
                &&& final(self).spec_total() == old(self).spec_total() + weight
                &&& final(self).spec_counters() == observe_counters(
                    old(self).spec_profile(),
                    old(self).spec_counters(),
                    key@,
                    weight,
                )
            },
            result matches Err(e) ==> e == CountMinError::WeightOverflow && *final(self) == *old(self),
    {
        self.lemma_well_formed();
        let next_total = match self.total_weight.checked_add(weight) {
            Some(total) => total,
            None => {
                return Err(CountMinError::WeightOverflow);
            },
        };
        if next_total > self.profile.max_total_weight {
            return Err(CountMinError::WeightOverflow);
        }
        let profile = self.profile;
        let total = self.total_weight;
        let mut counters = self.counters.clone();
        let ghost original = self.counters@;
        proof {
            assert(counters@ == original);
        }
        let mut row: usize = 0;
        while row < profile.depth
            invariant
                self.counters@ == original,
                self.profile == profile,
                profile_ok(profile),
                rows_sum_to(original, profile, total),
                total + weight <= profile.max_total_weight,
                row <= profile.depth,
                counters@ == add_rows(profile, original, key@, weight, row as nat),
                counters@.len() == original.len(),
                forall|r: int| 0 <= r < profile.depth ==> #[trigger] seq_sum(row_of(counters@, profile.width as int, r))
                    == if r < row { total + weight } else { total as int },
            decreases profile.depth - row,
        {
            let index = self.counter_index(row, key);
            let ghost before = counters@;
            proof {
                lemma_index_in_row(profile, row as int, key@);
                let w = profile.width as int;
                lemma_row_bounds(w, profile.depth as int, row as int);
                let this_row = row_of(before, w, row as int);
                lemma_sum_bounds(this_row);
                assert(this_row[index - row * w] == before[index as int]);
            }
            let value = counters[index] + weight;
            counters.set(index, value);
            proof {
                let w = profile.width as int;
                assert forall|r: int| 0 <= r < profile.depth implies #[trigger] seq_sum(row_of(counters@, w, r))
                    == if r < row + 1 { total + weight } else { total as int } by {
                    lemma_row_bounds(w, profile.depth as int, r);
                    if r == row {
                        let old_row = row_of(before, w, r);
                        assert(row_of(counters@, w, r) =~= old_row.update(index - r * w, value));
                        lemma_sum_update(old_row, index - r * w, value);
                    } else {
                        lemma_rows_disjoint(w, row as int, r, index as int);
                        assert(row_of(counters@, w, r) =~= row_of(before, w, r));
                    }
                }
            }
            row = row + 1;
        }
        *self = CountMinSketch { profile, counters, total_weight: next_total };
        Ok(())
    }

    /// Returns the Count-Min upper-bound estimate for `key`.
    pub fn estimate(&self, key: &[u8]) -> (estimate: u64)
        ensures
            estimate == estimate_counters(self.spec_profile(), self.spec_counters(), key@),
    {
        proof {
            use_type_invariant(self);
        }
        let mut estimate = u64::MAX;
        let mut row: usize = 0;
        while row < self.profile.depth
            invariant
                row <= self.spec_profile().depth,
                estimate == estimate_rows(self.spec_profile(), self.spec_counters(), key@, row as nat),
            decreases self.spec_profile().depth - row,
        {
            let value = self.counters[self.counter_index(row, key)];
            if value < estimate {
                estimate = value;
            }
            row = row + 1;
        }
        estimate
    }

    /// Rejects deletion without mutating the insertion-only sketch.
    pub fn try_remove(&mut self, key: &[u8], weight: u64) -> (result: Result<(), CountMinError>)
        ensures
            result == Err::<(), CountMinError>(CountMinError::RebuildRequired { requested_weight: weight }),
            *final(self) == *old(self),
    {
        Err(CountMinError::RebuildRequired { requested_weight: weight })
    }

    /// Merges another sketch with the identical complete profile by adding
    /// counters element-wise. Failure leaves the receiver unchanged.
    pub fn try_merge(&mut self, other: &Self) -> (result: Result<(), CountMinError>)
        ensures
            old(self).spec_profile() != other.spec_profile() ==> result == Err::<(), CountMinError>(
                CountMinError::ProfileMismatch,
            ),
            result is Ok <==> (old(self).spec_profile() == other.spec_profile() && old(self).spec_total()
                + other.spec_total() <= old(self).spec_profile().max_total_weight),
            result is Ok ==> {
                &&& final(self).spec_profile() == old(self).spec_profile()
                &&& final(self).spec_total() == old(self).spec_total() + other.spec_total()
                &&& final(self).spec_counters() == pointwise_sum(old(self).spec_counters(), other.spec_counters())
            },
            result matches Err(e) ==> (e == CountMinError::ProfileMismatch || e == CountMinError::WeightOverflow)
                && *final(self) == *old(self),
    {
        self.lemma_well_formed();
        other.lemma_well_formed();
        if self.profile != other.profile {
            return Err(CountMinError::ProfileMismatch);
        }
        let next_total = match self.total_weight.checked_add(other.total_weight) {
            Some(total) => total,
            None => {
                return Err(CountMinError::WeightOverflow);
            },
        };
        if next_total > self.profile.max_total_weight {
            return Err(CountMinError::WeightOverflow);
        }
        let mut merged: Vec<u64> = Vec::new();
        let mut index: usize = 0;
        let len = self.counters.len();
        while index < len
            invariant
                len == self.counters@.len(),
                len == other.counters@.len(),
                index <= len,
                forall|i: int| 0 <= i < len ==> #[trigger] self.counters@[i] <= self.total_weight,
                forall|i: int| 0 <= i < len ==> #[trigger] other.counters@[i] <= other.total_weight,
                self.total_weight + other.total_weight <= u64::MAX,
                merged@ == pointwise_sum(self.counters@, other.counters@).subrange(0, index as int),
            decreases len - index,
        {
            merged.push(self.counters[index] + other.counters[index]);
            proof {
                assert(merged@ =~= pointwise_sum(self.counters@, other.counters@).subrange(0, index + 1));
            }
            index = index + 1;
        }
        proof {
            let w = self.profile.width as int;
            let sum = pointwise_sum(self.counters@, other.counters@);
            assert(merged@ =~= sum);
            assert forall|r: int| 0 <= r < self.profile.depth implies #[trigger] seq_sum(row_of(merged@, w, r))
                == self.total_weight + other.total_weight by {
                lemma_row_bounds(w, self.profile.depth as int, r);
                let a = row_of(self.counters@, w, r);
                let b = row_of(other.counters@, w, r);
                assert(row_of(merged@, w, r) =~= pointwise_sum(a, b));
                lemma_sum_pointwise(a, b);
            }
        }
        *self = CountMinSketch { profile: self.profile, counters: merged, total_weight: next_total };
        Ok(())
    }

    /// Decodes one strict canonical value and revalidates every state law.
    ///
    /// A value decodes exactly when it is the canonical encoding of a valid
    /// sketch with the expected profile that fits the caller's limits.
    #[verifier::spinoff_prover]
    #[verifier::rlimit(100)]
    pub fn try_from_canonical_bytes(
        bytes: &[u8],
        expected_profile: CountMinProfile,
        limits: CountMinDecodeLimits,
    ) -> (result: Result<Self, CountMinCodecError>)
        ensures
            result matches Ok(s) ==> {
                &&& s.spec_profile() == expected_profile
                &&& bytes@ == count_min_canonical_bytes(s.spec_profile(), s.spec_total(), s.spec_counters())
                &&& bytes@.len() <= limits.max_encoded_bytes
                &&& expected_profile.width <= limits.max_width
                &&& expected_profile.depth <= limits.max_depth
                &&& expected_profile.max_cells <= limits.max_cells
                &&& expected_profile.width * expected_profile.depth <= limits.max_cells
            },
            bytes@.len() > limits.max_encoded_bytes ==> result == Err::<Self, CountMinCodecError>(
                CountMinCodecError::EncodedByteLimitExceeded {
                    actual: bytes@.len() as usize,
                    maximum: limits.max_encoded_bytes,
                },
            ),
            (exists|total: u64, counters: Seq<u64>| canonical_within(bytes@, expected_profile, limits, total, counters))
                ==> result is Ok,
            result matches Err(CountMinCodecError::MagicMismatch { actual }) ==> bytes@.len() >= 8
                && actual@ == bytes@.subrange(0, 8) && actual@ != count_min_magic(),
            result matches Err(CountMinCodecError::UnsupportedVersion { actual }) ==> bytes@.len() >= 10
                && bytes@.subrange(0, 8) == count_min_magic() && actual == decode_be_u16(bytes@.subrange(8, 10))
                && actual != 1,
            match decode_fault(bytes@, expected_profile, limits) {
                Some(e) => result == Err::<Self, CountMinCodecError>(e),
                None => result is Ok,
            },
    {
        proof {
            if exists|total: u64, counters: Seq<u64>| canonical_within(bytes@, expected_profile, limits, total, counters) {
                let (t, c) = choose|total: u64, counters: Seq<u64>| canonical_within(
                    bytes@,
                    expected_profile,
                    limits,
                    total,
                    counters,
                );
                lemma_canonical_fields(bytes@, expected_profile, t, c);
            }
        }
        if bytes.len() > limits.max_encoded_bytes {
            return Err(
                CountMinCodecError::EncodedByteLimitExceeded {
                    actual: bytes.len(),
                    maximum: limits.max_encoded_bytes,
                },
            );
        }
        let len = bytes.len();
        if len < 8 {
            return Err(CountMinCodecError::Truncated { offset: 0, needed: 8, remaining: len });
        }
        let mut magic = [0u8; 8];
        let mut m: usize = 0;
        while m < 8
            invariant
                m <= 8,
                len == bytes@.len(),
                len >= 8,
                magic@.len() == 8,
                forall|i: int| 0 <= i < m ==> magic@[i] == bytes@[i],
            decreases 8 - m,
        {
            magic[m] = bytes[m];
            m = m + 1;
        }
        proof {
            assert(magic@ =~= bytes@.subrange(0, 8));
        }
        let expected_magic = magic_bytes();
        if !bytes_equal(&magic, &expected_magic) {
            proof {
                broadcast use vstd::array::axiom_array_ext_equal;

                let chosen = leading_magic(bytes@);
                assert(magic@ == bytes@.subrange(0, 8));
                assert(chosen@ == bytes@.subrange(0, 8));
                assert(chosen =~= magic);
            }
            return Err(CountMinCodecError::MagicMismatch { actual: magic });
        }
        if len < 10 {
            return Err(CountMinCodecError::Truncated { offset: 8, needed: 2, remaining: len - 8 });
        }
        let version = read_u16_at(bytes, 8);
        if version != CANONICAL_VERSION {
            return Err(CountMinCodecError::UnsupportedVersion { actual: version });
        }
        // Fixed header fields after the version, in order.
        if len < 18 {
            return Err(CountMinCodecError::Truncated { offset: 10, needed: 8, remaining: len - 10 });
        }
        let width = match u64_to_usize(read_u64_at(bytes, 10)) {
            Some(v) => v,
            None => {
                return Err(CountMinCodecError::IntegerUnrepresentable);
            },
        };
        if len < 26 {
            return Err(CountMinCodecError::Truncated { offset: 18, needed: 8, remaining: len - 18 });
        }
        let depth = match u64_to_usize(read_u64_at(bytes, 18)) {
            Some(v) => v,
            None => {
                return Err(CountMinCodecError::IntegerUnrepresentable);
            },
        };
        if len < 28 {
            return Err(CountMinCodecError::Truncated { offset: 26, needed: 2, remaining: len - 26 });
        }
        let algorithm_tag = read_u16_at(bytes, 26);
        if algorithm_tag != 1 {
            return Err(CountMinCodecError::UnsupportedHashAlgorithm { actual: algorithm_tag });
        }
        if len < 36 {
            return Err(CountMinCodecError::Truncated { offset: 28, needed: 8, remaining: len - 28 });
        }
        let seed = read_u64_at(bytes, 28);
        if len < 44 {
            return Err(CountMinCodecError::Truncated { offset: 36, needed: 8, remaining: len - 36 });
        }
        let max_total_weight = read_u64_at(bytes, 36);
        if len < 52 {
            return Err(CountMinCodecError::Truncated { offset: 44, needed: 8, remaining: len - 44 });
        }
        let max_cells = match u64_to_usize(read_u64_at(bytes, 44)) {
            Some(v) => v,
            None => {
                return Err(CountMinCodecError::IntegerUnrepresentable);
            },
        };
        if len < 60 {
            return Err(CountMinCodecError::Truncated { offset: 52, needed: 8, remaining: len - 52 });
        }
        let total_weight = read_u64_at(bytes, 52);
        if len < 68 {
            return Err(CountMinCodecError::Truncated { offset: 60, needed: 8, remaining: len - 60 });
        }
        let encoded_counter_count = match u64_to_usize(read_u64_at(bytes, 60)) {
            Some(v) => v,
            None => {
                return Err(CountMinCodecError::IntegerUnrepresentable);
            },
        };
        let profile = CountMinProfile {
            width,
            depth,
            hash_algorithm: CountMinHashAlgorithm::SeededFnvMix64V1,
            seed,
            max_total_weight,
            max_cells,
        };
        if profile != expected_profile {
            return Err(CountMinCodecError::ProfileMismatch { expected: expected_profile, actual: profile });
        }
        if width > limits.max_width {
            return Err(CountMinCodecError::WidthLimitExceeded { actual: width, maximum: limits.max_width });
        }
        if depth > limits.max_depth {
            return Err(CountMinCodecError::DepthLimitExceeded { actual: depth, maximum: limits.max_depth });
        }
        if max_cells > limits.max_cells {
            return Err(CountMinCodecError::DecodeCellLimitExceeded { actual: max_cells, maximum: limits.max_cells });
        }
        let expected_counter_count = match validate_profile(profile) {
            Ok(count) => count,
            Err(e) => {
                return Err(CountMinCodecError::State(e));
            },
        };
        if expected_counter_count > limits.max_cells {
            return Err(
                CountMinCodecError::DecodeCellLimitExceeded {
                    actual: expected_counter_count,
                    maximum: limits.max_cells,
                },
            );
        }
        if encoded_counter_count != expected_counter_count {
            return Err(
                CountMinCodecError::CounterCountMismatch {
                    expected: expected_counter_count,
                    actual: encoded_counter_count,
                },
            );
        }
        let payload_bytes = match encoded_counter_count.checked_mul(COUNTER_BYTES) {
            Some(v) => v,
            None => {
                return Err(CountMinCodecError::LengthOverflow);
            },
        };
        let expected_len = match CANONICAL_HEADER_BYTES.checked_add(payload_bytes) {
            Some(v) => v,
            None => {
                return Err(CountMinCodecError::LengthOverflow);
            },
        };
        if len < expected_len {
            return Err(CountMinCodecError::Truncated { offset: 68, needed: payload_bytes, remaining: len - 68 });
        }
        if len > expected_len {
            return Err(CountMinCodecError::TrailingBytes { offset: expected_len, remaining: len - expected_len });
        }
        if total_weight > max_total_weight {
            return Err(
                CountMinCodecError::TotalWeightExceedsProfile { actual: total_weight, maximum: max_total_weight },
            );
        }
        let counters = match read_counter_rows(bytes, profile, total_weight) {
            Ok(c) => c,
            Err(e) => {
                return Err(e);
            },
        };
        proof {
            let header = bytes@.subrange(0, 68);
            lemma_be_u16_bytes_round_trip(bytes@.subrange(8, 10));
            lemma_be_u16_bytes_round_trip(bytes@.subrange(26, 28));
            lemma_be_u64_bytes_round_trip(bytes@.subrange(10, 18));
            lemma_be_u64_bytes_round_trip(bytes@.subrange(18, 26));
            lemma_be_u64_bytes_round_trip(bytes@.subrange(28, 36));
            lemma_be_u64_bytes_round_trip(bytes@.subrange(36, 44));
            lemma_be_u64_bytes_round_trip(bytes@.subrange(44, 52));
            lemma_be_u64_bytes_round_trip(bytes@.subrange(52, 60));
            lemma_be_u64_bytes_round_trip(bytes@.subrange(60, 68));
            assert(bytes@ =~= count_min_canonical_bytes(profile, total_weight, counters@));
        }
        Ok(CountMinSketch { profile, counters, total_weight })
    }
}

/// The two-byte tag of a bucket-mapping algorithm.
pub fn hash_algorithm_tag(algorithm: CountMinHashAlgorithm) -> (tag: u16)
    ensures
        tag == 1,
{
    match algorithm {
        CountMinHashAlgorithm::SeededFnvMix64V1 => 1,
    }
}

proof fn lemma_zero_sum(s: Seq<u64>)
    requires
        forall|i: int| 0 <= i < s.len() ==> s[i] == 0,
    ensures
        seq_sum(s) == 0,
    decreases s.len(),
{
    if s.len() > 0 {
        lemma_zero_sum(s.drop_last());
    }
}

/// Checks a profile's shape and returns its cell count.
pub fn validate_profile(profile: CountMinProfile) -> (result: Result<usize, CountMinError>)
    ensures
        match profile_failure(profile) {
            Some(e) => result == Err::<usize, CountMinError>(e),
            None => result == Ok::<usize, CountMinError>((profile.width * profile.depth) as usize),
        },
{
    if profile.width == 0 || profile.depth == 0 {
        return Err(CountMinError::EmptyDimension { width: profile.width, depth: profile.depth });
    }
    let cell_count = match profile.width.checked_mul(profile.depth) {
        Some(count) => count,
        None => {
            return Err(CountMinError::CellCountOverflow);
        },
    };
    if cell_count > profile.max_cells {
        return Err(CountMinError::CellLimitExceeded { requested: cell_count, limit: profile.max_cells });
    }
    Ok(cell_count)
}

/// `bytes` is the canonical encoding of a valid sketch with the given
/// profile, total, and counters, within the caller's limits.
pub open spec fn canonical_within(
    bytes: Seq<u8>,
    profile: CountMinProfile,
    limits: CountMinDecodeLimits,
    total: u64,
    counters: Seq<u64>,
) -> bool {
    &&& bytes == count_min_canonical_bytes(profile, total, counters)
    &&& profile_ok(profile)
    &&& total <= profile.max_total_weight
    &&& rows_sum_to(counters, profile, total)
    &&& bytes.len() <= limits.max_encoded_bytes
    &&& profile.width <= limits.max_width
    &&& profile.depth <= limits.max_depth
    &&& profile.max_cells <= limits.max_cells
    &&& profile.width * profile.depth <= limits.max_cells
}

proof fn lemma_canonical_fields(bytes: Seq<u8>, profile: CountMinProfile, total: u64, counters: Seq<u64>)
    requires
        bytes == count_min_canonical_bytes(profile, total, counters),
    ensures
        bytes.len() == 68 + 8 * counters.len(),
        bytes.subrange(0, 8) == count_min_magic(),
        decode_be_u16(bytes.subrange(8, 10)) == 1,
        decode_be_u64(bytes.subrange(10, 18)) == profile.width as u64,
        decode_be_u64(bytes.subrange(18, 26)) == profile.depth as u64,
        decode_be_u16(bytes.subrange(26, 28)) == 1,
        decode_be_u64(bytes.subrange(28, 36)) == profile.seed,
        decode_be_u64(bytes.subrange(36, 44)) == profile.max_total_weight,
        decode_be_u64(bytes.subrange(44, 52)) == profile.max_cells as u64,
        decode_be_u64(bytes.subrange(52, 60)) == total,
        decode_be_u64(bytes.subrange(60, 68)) == counters.len() as u64,
        payload_counters(bytes, counters.len()) == counters,
{
    lemma_be_u64_seq_layout(counters);
    lemma_be_u16_round_trip(1);
    lemma_be_u64_round_trip(profile.width as u64);
    lemma_be_u64_round_trip(profile.depth as u64);
    lemma_be_u64_round_trip(profile.seed);
    lemma_be_u64_round_trip(profile.max_total_weight);
    lemma_be_u64_round_trip(profile.max_cells as u64);
    lemma_be_u64_round_trip(total);
    lemma_be_u64_round_trip(counters.len() as u64);
    assert(bytes.subrange(0, 8) =~= count_min_magic());
    assert(bytes.subrange(8, 10) =~= be_u16(1));
    assert(bytes.subrange(10, 18) =~= be_u64(profile.width as u64));
    assert(bytes.subrange(18, 26) =~= be_u64(profile.depth as u64));
    assert(bytes.subrange(26, 28) =~= be_u16(1));
    assert(bytes.subrange(28, 36) =~= be_u64(profile.seed));
    assert(bytes.subrange(36, 44) =~= be_u64(profile.max_total_weight));
    assert(bytes.subrange(44, 52) =~= be_u64(profile.max_cells as u64));
    assert(bytes.subrange(52, 60) =~= be_u64(total));
    assert(bytes.subrange(60, 68) =~= be_u64(counters.len() as u64));
    let payload = be_u64_seq(counters);
    assert forall|i: int| 0 <= i < counters.len() implies #[trigger] payload_counters(bytes, counters.len())[i]
        == counters[i] by {
        assert(bytes.subrange(68 + 8 * i, 68 + 8 * i + 8) =~= payload.subrange(8 * i, 8 * i + 8));
        lemma_be_u64_round_trip(counters[i]);
    }
    assert(payload_counters(bytes, counters.len()) =~= counters);
}

/// The counters a byte string holds after its 68-byte header.
pub open spec fn payload_counters(bytes: Seq<u8>, count: nat) -> Seq<u64> {
    Seq::new(count, |i: int| decode_be_u64(bytes.subrange(68 + 8 * i, 68 + 8 * i + 8)))
}

/// The eight-byte array whose bytes open `bytes`.
pub open spec fn leading_magic(bytes: Seq<u8>) -> [u8; 8] {
    choose|actual: [u8; 8]| actual@ == bytes.subrange(0, 8)
}

/// The first failure of the row-major counter scan from `(row, column)`,
/// with `weight` the running sum of the row so far: a counter above the
/// total, a row sum that overflows, or a row whose sum differs from the
/// total.
pub open spec fn row_fault(
    counters: Seq<u64>,
    width: int,
    depth: int,
    total: u64,
    row: int,
    column: int,
    weight: int,
) -> Option<CountMinCodecError>
    decreases depth - row, width - column,
{
    if row < 0 || row >= depth || width <= 0 || column < 0 {
        None
    } else if column >= width {
        if weight != total {
            Some(
                CountMinCodecError::RowWeightMismatch {
                    row: row as usize,
                    expected: total,
                    actual: weight as u64,
                },
            )
        } else {
            row_fault(counters, width, depth, total, row + 1, 0, 0)
        }
    } else {
        let index = row * width + column;
        let counter = counters[index];
        if counter > total {
            Some(
                CountMinCodecError::CounterExceedsTotal {
                    index: index as usize,
                    counter,
                    total_weight: total,
                },
            )
        } else if weight + counter > u64::MAX {
            Some(CountMinCodecError::State(CountMinError::WeightOverflow))
        } else {
            row_fault(counters, width, depth, total, row, column + 1, weight + counter)
        }
    }
}

/// The first check that refuses `bytes` as the canonical encoding of a
/// sketch with `expected` profile within `limits`, in decoding order: the
/// byte limit; the magic, version and each fixed header field as it is
/// reached (a short input is truncated where it ends, an integer beyond
/// `usize` is unrepresentable, the algorithm tag must be known); the profile
/// against `expected`, then against the limits and the construction laws;
/// the counter count; the exact length; the total against the profile's
/// ceiling; then the counter rows.
pub open spec fn decode_fault(
    bytes: Seq<u8>,
    expected: CountMinProfile,
    limits: CountMinDecodeLimits,
) -> Option<CountMinCodecError> {
    let len = bytes.len();
    let width = decode_be_u64(bytes.subrange(10, 18));
    let depth = decode_be_u64(bytes.subrange(18, 26));
    let tag = decode_be_u16(bytes.subrange(26, 28));
    let seed = decode_be_u64(bytes.subrange(28, 36));
    let max_total_weight = decode_be_u64(bytes.subrange(36, 44));
    let max_cells = decode_be_u64(bytes.subrange(44, 52));
    let total = decode_be_u64(bytes.subrange(52, 60));
    let count = decode_be_u64(bytes.subrange(60, 68));
    if len > limits.max_encoded_bytes {
        Some(
            CountMinCodecError::EncodedByteLimitExceeded {
                actual: len as usize,
                maximum: limits.max_encoded_bytes,
            },
        )
    } else if len < 8 {
        Some(CountMinCodecError::Truncated { offset: 0, needed: 8, remaining: len as usize })
    } else if bytes.subrange(0, 8) != count_min_magic() {
        Some(CountMinCodecError::MagicMismatch { actual: leading_magic(bytes) })
    } else if len < 10 {
        Some(CountMinCodecError::Truncated { offset: 8, needed: 2, remaining: (len - 8) as usize })
    } else if decode_be_u16(bytes.subrange(8, 10)) != 1 {
        Some(CountMinCodecError::UnsupportedVersion { actual: decode_be_u16(bytes.subrange(8, 10)) })
    } else if len < 18 {
        Some(CountMinCodecError::Truncated { offset: 10, needed: 8, remaining: (len - 10) as usize })
    } else if width > usize::MAX {
        Some(CountMinCodecError::IntegerUnrepresentable)
    } else if len < 26 {
        Some(CountMinCodecError::Truncated { offset: 18, needed: 8, remaining: (len - 18) as usize })
    } else if depth > usize::MAX {
        Some(CountMinCodecError::IntegerUnrepresentable)
    } else if len < 28 {
        Some(CountMinCodecError::Truncated { offset: 26, needed: 2, remaining: (len - 26) as usize })
    } else if tag != 1 {
        Some(CountMinCodecError::UnsupportedHashAlgorithm { actual: tag })
    } else if len < 36 {
        Some(CountMinCodecError::Truncated { offset: 28, needed: 8, remaining: (len - 28) as usize })
    } else if len < 44 {
        Some(CountMinCodecError::Truncated { offset: 36, needed: 8, remaining: (len - 36) as usize })
    } else if len < 52 {
        Some(CountMinCodecError::Truncated { offset: 44, needed: 8, remaining: (len - 44) as usize })
    } else if max_cells > usize::MAX {
        Some(CountMinCodecError::IntegerUnrepresentable)
    } else if len < 60 {
        Some(CountMinCodecError::Truncated { offset: 52, needed: 8, remaining: (len - 52) as usize })
    } else if len < 68 {
        Some(CountMinCodecError::Truncated { offset: 60, needed: 8, remaining: (len - 60) as usize })
    } else if count > usize::MAX {
        Some(CountMinCodecError::IntegerUnrepresentable)
    } else {
        let profile = CountMinProfile {
            width: width as usize,
            depth: depth as usize,
            hash_algorithm: CountMinHashAlgorithm::SeededFnvMix64V1,
            seed,
            max_total_weight,
            max_cells: max_cells as usize,
        };
        let cells = width * depth;
        if profile != expected {
            Some(CountMinCodecError::ProfileMismatch { expected, actual: profile })
        } else if width > limits.max_width {
            Some(CountMinCodecError::WidthLimitExceeded { actual: width as usize, maximum: limits.max_width })
        } else if depth > limits.max_depth {
            Some(CountMinCodecError::DepthLimitExceeded { actual: depth as usize, maximum: limits.max_depth })
        } else if max_cells > limits.max_cells {
            Some(
                CountMinCodecError::DecodeCellLimitExceeded {
                    actual: max_cells as usize,
                    maximum: limits.max_cells,
                },
            )
        } else if profile_failure(profile) is Some {
            Some(CountMinCodecError::State(profile_failure(profile)->0))
        } else if cells > limits.max_cells {
            Some(
                CountMinCodecError::DecodeCellLimitExceeded { actual: cells as usize, maximum: limits.max_cells },
            )
        } else if count != cells {
            Some(CountMinCodecError::CounterCountMismatch { expected: cells as usize, actual: count as usize })
        } else if 8 * count > usize::MAX || 68 + 8 * count > usize::MAX {
            Some(CountMinCodecError::LengthOverflow)
        } else if len < 68 + 8 * count {
            Some(
                CountMinCodecError::Truncated {
                    offset: 68,
                    needed: (8 * count) as usize,
                    remaining: (len - 68) as usize,
                },
            )
        } else if len > 68 + 8 * count {
            Some(
                CountMinCodecError::TrailingBytes {
                    offset: (68 + 8 * count) as usize,
                    remaining: (len - 68 - 8 * count) as usize,
                },
            )
        } else if total > max_total_weight {
            Some(CountMinCodecError::TotalWeightExceedsProfile { actual: total, maximum: max_total_weight })
        } else {
            row_fault(payload_counters(bytes, cells as nat), width as int, depth as int, total, 0, 0, 0)
        }
    }
}

/// Reads and validates the row-major counter payload that starts at byte 68.
fn read_counter_rows(bytes: &[u8], profile: CountMinProfile, total_weight: u64) -> (result: Result<
    Vec<u64>,
    CountMinCodecError,
>)
    requires
        profile_ok(profile),
        total_weight <= profile.max_total_weight,
        bytes@.len() == 68 + 8 * (profile.width * profile.depth),
    ensures
        result matches Err(e) ==> (e is CounterExceedsTotal || e is RowWeightMismatch || e is State),
        result matches Ok(counters) ==> {
            &&& rows_sum_to(counters@, profile, total_weight)
            &&& bytes@.subrange(68, bytes@.len() as int) == be_u64_seq(counters@)
        },
        rows_sum_to(payload_counters(bytes@, (profile.width * profile.depth) as nat), profile, total_weight)
            ==> result is Ok,
        match row_fault(
            payload_counters(bytes@, (profile.width * profile.depth) as nat),
            profile.width as int,
            profile.depth as int,
            total_weight,
            0,
            0,
            0,
        ) {
            Some(e) => result == Err::<Vec<u64>, CountMinCodecError>(e),
            None => result is Ok,
        },
{
    let width = profile.width;
    let depth = profile.depth;
    let mut counters: Vec<u64> = Vec::new();
    let mut row: usize = 0;
    proof {
        lemma_row_bounds(width as int, depth as int, 0);
    }
    while row < depth
        invariant
            profile_ok(profile),
            width == profile.width,
            depth == profile.depth,
            bytes@.len() == 68 + 8 * (width * depth),
            row <= depth,
            counters@.len() == row * width,
            forall|r: int| 0 <= r < row ==> #[trigger] seq_sum(row_of(counters@, width as int, r)) == total_weight,
            bytes@.subrange(68, (68 + 8 * counters@.len()) as int) == be_u64_seq(counters@),
            counters@ == payload_counters(bytes@, (width * depth) as nat).subrange(0, counters@.len() as int),
            row_fault(payload_counters(bytes@, (width * depth) as nat), width as int, depth as int, total_weight, 0, 0, 0)
                == row_fault(
                payload_counters(bytes@, (width * depth) as nat),
                width as int,
                depth as int,
                total_weight,
                row as int,
                0,
                0,
            ),
        decreases depth - row,
    {
        let mut row_weight: u64 = 0;
        let mut column: usize = 0;
        let row_start = counters.len();
        proof {
            lemma_row_bounds(width as int, depth as int, row as int);
        }
        while column < width
            invariant
                profile_ok(profile),
                width == profile.width,
                depth == profile.depth,
                bytes@.len() == 68 + 8 * (width * depth),
                row < depth,
                row_start == row * width,
                row * width + width <= width * depth,
                column <= width,
                counters@.len() == row_start + column,
                row_weight == seq_sum(counters@.subrange(row_start as int, counters@.len() as int)),
                forall|r: int| 0 <= r < row ==> #[trigger] seq_sum(row_of(counters@, width as int, r)) == total_weight,
                bytes@.subrange(68, (68 + 8 * counters@.len()) as int) == be_u64_seq(counters@),
                counters@ == payload_counters(bytes@, (width * depth) as nat).subrange(0, counters@.len() as int),
                row_fault(payload_counters(bytes@, (width * depth) as nat), width as int, depth as int, total_weight, 0, 0, 0)
                    == row_fault(
                    payload_counters(bytes@, (width * depth) as nat),
                    width as int,
                    depth as int,
                    total_weight,
                    row as int,
                    column as int,
                    row_weight as int,
                ),
            decreases width - column,
        {
            let index = row_start + column;
            assert(index < width * depth);
            let total_len = bytes.len();
            assert(68 + 8 * index + 8 <= total_len);
            let offset = 68 + 8 * index;
            let counter = read_u64_at(bytes, offset);
            let ghost payload = payload_counters(bytes@, (width * depth) as nat);
            let ghost good = rows_sum_to(payload, profile, total_weight);
            proof {
                assert(payload[index as int] == counter);
                if good {
                    let this_row = row_of(payload, width as int, row as int);
                    assert(seq_sum(this_row) == total_weight);
                    lemma_sum_bounds(this_row);
                    assert(this_row[column as int] == counter);
                    lemma_prefix_sum_le(this_row, column + 1);
                    assert(this_row.subrange(0, column + 1).drop_last() =~= counters@.subrange(
                        row_start as int,
                        counters@.len() as int,
                    ));
                    assert(seq_sum(this_row.subrange(0, column + 1)) == row_weight + counter);
                }
            }
            if counter > total_weight {
                return Err(CountMinCodecError::CounterExceedsTotal { index, counter, total_weight });
            }
            row_weight = match row_weight.checked_add(counter) {
                Some(v) => v,
                None => {
                    return Err(CountMinCodecError::State(CountMinError::WeightOverflow));
                },
            };
            let ghost before = counters@;
            counters.push(counter);
            proof {
                assert(counters@.drop_last() =~= before);
                assert(counters@ =~= payload.subrange(0, counters@.len() as int));
                assert(counters@.subrange(row_start as int, counters@.len() as int).drop_last() =~= before.subrange(
                    row_start as int,
                    before.len() as int,
                ));
                lemma_be_u64_bytes_round_trip(bytes@.subrange(offset as int, offset + 8));
                assert(bytes@.subrange(68, (68 + 8 * counters@.len()) as int) =~= bytes@.subrange(68, (68 + 8 * before.len()) as int)
                    + bytes@.subrange(offset as int, offset + 8));
                assert forall|r: int| 0 <= r < row implies #[trigger] seq_sum(row_of(counters@, width as int, r))
                    == total_weight by {
                    lemma_row_bounds(width as int, depth as int, r);
                    assert(r * width + width <= row * width) by (nonlinear_arith)
                        requires
                            r < row,
                            width > 0,
                    ;
                    assert(row_of(counters@, width as int, r) =~= row_of(before, width as int, r));
                }
            }
            column = column + 1;
        }
        proof {
            let payload = payload_counters(bytes@, (width * depth) as nat);
            if rows_sum_to(payload, profile, total_weight) {
                assert(row_of(payload, width as int, row as int) =~= counters@.subrange(
                    row_start as int,
                    counters@.len() as int,
                ));
            }
        }
        if row_weight != total_weight {
            return Err(CountMinCodecError::RowWeightMismatch { row, expected: total_weight, actual: row_weight });
        }
        proof {
            assert(row_of(counters@, width as int, row as int) =~= counters@.subrange(
                row_start as int,
                counters@.len() as int,
            ));
            assert((row + 1) * width == row * width + width) by (nonlinear_arith);
        }
        row = row + 1;
    }
    proof {
        assert(counters@.len() == width * depth) by (nonlinear_arith)
            requires
                counters@.len() == row * width,
                row == depth,
        ;
        assert(bytes@.subrange(68, bytes@.len() as int) =~= bytes@.subrange(68, (68 + 8 * counters@.len()) as int));
    }
    Ok(counters)
}

/// Diagnostic text of a Count-Min failure.
pub open spec fn count_min_error_text(error: CountMinError) -> Seq<char> {
    match error {
        CountMinError::EmptyDimension { width, depth } => "Count-Min dimensions must be nonzero, got "@ + decimal(width as nat) + "x"@ + decimal(depth as nat),
        CountMinError::CellCountOverflow => "Count-Min counter count overflows usize"@,
        CountMinError::CellLimitExceeded { requested, limit } => "Count-Min requires "@ + decimal(requested as nat) + " counters, configured limit is "@ + decimal(limit as nat),
        CountMinError::AllocationFailed { requested } => "could not reserve "@ + decimal(requested as nat) + " Count-Min counters"@,
        CountMinError::WeightOverflow => "Count-Min weight transition exceeds its exact bound"@,
        CountMinError::ProfileMismatch => "cannot merge Count-Min sketches with different profiles"@,
        CountMinError::RebuildRequired { requested_weight } => "Count-Min cannot remove weight "@ + decimal(requested_weight as nat) + "; rebuild is required"@,
    }
}

impl CountMinError {
    /// Human-readable diagnostic.
    pub fn message(&self) -> (text: String)
        ensures
            text@ == count_min_error_text(*self),
    {
        let mut out = String::new();
        match *self {
            CountMinError::EmptyDimension { width, depth } => {
                push_text(&mut out, "Count-Min dimensions must be nonzero, got ");
                push_decimal(&mut out, width as u64);
                push_text(&mut out, "x");
                push_decimal(&mut out, depth as u64);
            },
            CountMinError::CellCountOverflow => {
                push_text(&mut out, "Count-Min counter count overflows usize");
            },
            CountMinError::CellLimitExceeded { requested, limit } => {
                push_text(&mut out, "Count-Min requires ");
                push_decimal(&mut out, requested as u64);
                push_text(&mut out, " counters, configured limit is ");
                push_decimal(&mut out, limit as u64);
            },
            CountMinError::AllocationFailed { requested } => {
                push_text(&mut out, "could not reserve ");
                push_decimal(&mut out, requested as u64);
                push_text(&mut out, " Count-Min counters");
            },
            CountMinError::WeightOverflow => {
                push_text(&mut out, "Count-Min weight transition exceeds its exact bound");
            },
            CountMinError::ProfileMismatch => {
                push_text(&mut out, "cannot merge Count-Min sketches with different profiles");
            },
            CountMinError::RebuildRequired { requested_weight } => {
                push_text(&mut out, "Count-Min cannot remove weight ");
                push_decimal(&mut out, requested_weight as u64);
                push_text(&mut out, "; rebuild is required");
            },
        }
        proof {
            assert(out@ =~= count_min_error_text(*self));
        }
        out
    }
}

/// The `Debug` rendering of a hash algorithm.
pub open spec fn hash_algorithm_debug(value: CountMinHashAlgorithm) -> Seq<char> {
    match value {
        CountMinHashAlgorithm::SeededFnvMix64V1 => "SeededFnvMix64V1"@,
    }
}

fn push_hash_algorithm_debug(out: &mut String, value: CountMinHashAlgorithm)
    ensures
        final(out)@ == old(out)@ + hash_algorithm_debug(value),
{
    match value {
        CountMinHashAlgorithm::SeededFnvMix64V1 => push_text(out, "SeededFnvMix64V1"),
    }
    proof {
        assert(out@ =~= old(out)@ + hash_algorithm_debug(value));
    }
}
/// The `Debug` rendering of a profile.
pub open spec fn profile_debug(value: CountMinProfile) -> Seq<char> {
    "CountMinProfile { width: "@ + decimal(value.width as nat) + ", depth: "@ + decimal(value.depth as nat) + ", hash_algorithm: "@ + hash_algorithm_debug(value.hash_algorithm) + ", seed: "@ + decimal(value.seed as nat) + ", max_total_weight: "@ + decimal(value.max_total_weight as nat) + ", max_cells: "@ + decimal(value.max_cells as nat) + " }"@
}

fn push_profile_debug(out: &mut String, value: CountMinProfile)
    ensures
        final(out)@ == old(out)@ + profile_debug(value),
{
    push_text(out, "CountMinProfile { width: ");
    push_decimal(out, value.width as u64);
    push_text(out, ", depth: ");
    push_decimal(out, value.depth as u64);
    push_text(out, ", hash_algorithm: ");
    push_hash_algorithm_debug(out, value.hash_algorithm);
    push_text(out, ", seed: ");
    push_decimal(out, value.seed as u64);
    push_text(out, ", max_total_weight: ");
    push_decimal(out, value.max_total_weight as u64);
    push_text(out, ", max_cells: ");
    push_decimal(out, value.max_cells as u64);
    push_text(out, " }");
    proof {
        assert(out@ =~= old(out)@ + profile_debug(value));
    }
}
/// The `Debug` rendering of a sketch failure.
pub open spec fn error_debug(value: CountMinError) -> Seq<char> {
    match value {
        CountMinError::EmptyDimension { width, depth } => "EmptyDimension { width: "@ + decimal(width as nat) + ", depth: "@ + decimal(depth as nat) + " }"@,
        CountMinError::CellCountOverflow => "CellCountOverflow"@,
        CountMinError::CellLimitExceeded { requested, limit } => "CellLimitExceeded { requested: "@ + decimal(requested as nat) + ", limit: "@ + decimal(limit as nat) + " }"@,
        CountMinError::AllocationFailed { requested } => "AllocationFailed { requested: "@ + decimal(requested as nat) + " }"@,
        CountMinError::WeightOverflow => "WeightOverflow"@,
        CountMinError::ProfileMismatch => "ProfileMismatch"@,
        CountMinError::RebuildRequired { requested_weight } => "RebuildRequired { requested_weight: "@ + decimal(requested_weight as nat) + " }"@,
    }
}

fn push_error_debug(out: &mut String, value: CountMinError)
    ensures
        final(out)@ == old(out)@ + error_debug(value),
{
    match value {
        CountMinError::EmptyDimension { width, depth } => {
            push_text(out, "EmptyDimension { width: ");
            push_decimal(out, width as u64);
            push_text(out, ", depth: ");
            push_decimal(out, depth as u64);
            push_text(out, " }");
        },
        CountMinError::CellCountOverflow => push_text(out, "CellCountOverflow"),
        CountMinError::CellLimitExceeded { requested, limit } => {
            push_text(out, "CellLimitExceeded { requested: ");
            push_decimal(out, requested as u64);
            push_text(out, ", limit: ");
            push_decimal(out, limit as u64);
            push_text(out, " }");
        },
        CountMinError::AllocationFailed { requested } => {
            push_text(out, "AllocationFailed { requested: ");
            push_decimal(out, requested as u64);
            push_text(out, " }");
        },
        CountMinError::WeightOverflow => push_text(out, "WeightOverflow"),
        CountMinError::ProfileMismatch => push_text(out, "ProfileMismatch"),
        CountMinError::RebuildRequired { requested_weight } => {
            push_text(out, "RebuildRequired { requested_weight: ");
            push_decimal(out, requested_weight as u64);
            push_text(out, " }");
        },
    }
    proof {
        assert(out@ =~= old(out)@ + error_debug(value));
    }
}
/// Diagnostic text of a codec failure: the error as `Debug` prints it.
pub open spec fn codec_error_text(value: CountMinCodecError) -> Seq<char> {
    match value {
        CountMinCodecError::State(error) => "State("@ + error_debug(error) + ")"@,
        CountMinCodecError::IntegerUnrepresentable => "IntegerUnrepresentable"@,
        CountMinCodecError::LengthOverflow => "LengthOverflow"@,
        CountMinCodecError::AllocationFailed { requested } => "AllocationFailed { requested: "@ + decimal(requested as nat) + " }"@,
        CountMinCodecError::MagicMismatch { actual } => "MagicMismatch { actual: "@ + "["@ + byte_list(actual@) + "]"@ + " }"@,
        CountMinCodecError::UnsupportedVersion { actual } => "UnsupportedVersion { actual: "@ + decimal(actual as nat) + " }"@,
        CountMinCodecError::UnsupportedHashAlgorithm { actual } => "UnsupportedHashAlgorithm { actual: "@ + decimal(actual as nat) + " }"@,
        CountMinCodecError::Truncated { offset, needed, remaining } => "Truncated { offset: "@ + decimal(offset as nat) + ", needed: "@ + decimal(needed as nat) + ", remaining: "@ + decimal(remaining as nat) + " }"@,
        CountMinCodecError::CounterCountMismatch { expected, actual } => "CounterCountMismatch { expected: "@ + decimal(expected as nat) + ", actual: "@ + decimal(actual as nat) + " }"@,
        CountMinCodecError::TrailingBytes { offset, remaining } => "TrailingBytes { offset: "@ + decimal(offset as nat) + ", remaining: "@ + decimal(remaining as nat) + " }"@,
        CountMinCodecError::TotalWeightExceedsProfile { actual, maximum } => "TotalWeightExceedsProfile { actual: "@ + decimal(actual as nat) + ", maximum: "@ + decimal(maximum as nat) + " }"@,
        CountMinCodecError::CounterExceedsTotal { index, counter, total_weight } => "CounterExceedsTotal { index: "@ + decimal(index as nat) + ", counter: "@ + decimal(counter as nat) + ", total_weight: "@ + decimal(total_weight as nat) + " }"@,
        CountMinCodecError::RowWeightMismatch { row, expected, actual } => "RowWeightMismatch { row: "@ + decimal(row as nat) + ", expected: "@ + decimal(expected as nat) + ", actual: "@ + decimal(actual as nat) + " }"@,
        CountMinCodecError::EncodedByteLimitExceeded { actual, maximum } => "EncodedByteLimitExceeded { actual: "@ + decimal(actual as nat) + ", maximum: "@ + decimal(maximum as nat) + " }"@,
        CountMinCodecError::WidthLimitExceeded { actual, maximum } => "WidthLimitExceeded { actual: "@ + decimal(actual as nat) + ", maximum: "@ + decimal(maximum as nat) + " }"@,
        CountMinCodecError::DepthLimitExceeded { actual, maximum } => "DepthLimitExceeded { actual: "@ + decimal(actual as nat) + ", maximum: "@ + decimal(maximum as nat) + " }"@,
        CountMinCodecError::DecodeCellLimitExceeded { actual, maximum } => "DecodeCellLimitExceeded { actual: "@ + decimal(actual as nat) + ", maximum: "@ + decimal(maximum as nat) + " }"@,
        CountMinCodecError::ProfileMismatch { expected, actual } => "ProfileMismatch { expected: "@ + profile_debug(expected) + ", actual: "@ + profile_debug(actual) + " }"@,
    }
}

#[verifier::spinoff_prover]
#[verifier::rlimit(100)]
fn push_codec_error_text(out: &mut String, value: CountMinCodecError)
    ensures
        final(out)@ == old(out)@ + codec_error_text(value),
{
    match value {
        CountMinCodecError::State(error) => {
            push_text(out, "State(");
            push_error_debug(out, error);
            push_text(out, ")");
        },
        CountMinCodecError::IntegerUnrepresentable => push_text(out, "IntegerUnrepresentable"),
        CountMinCodecError::LengthOverflow => push_text(out, "LengthOverflow"),
        CountMinCodecError::AllocationFailed { requested } => {
            push_text(out, "AllocationFailed { requested: ");
            push_decimal(out, requested as u64);
            push_text(out, " }");
        },
        CountMinCodecError::MagicMismatch { actual } => {
            push_text(out, "MagicMismatch { actual: ");
            push_bytes8(out, actual);
            push_text(out, " }");
        },
        CountMinCodecError::UnsupportedVersion { actual } => {
            push_text(out, "UnsupportedVersion { actual: ");
            push_decimal(out, actual as u64);
            push_text(out, " }");
        },
        CountMinCodecError::UnsupportedHashAlgorithm { actual } => {
            push_text(out, "UnsupportedHashAlgorithm { actual: ");
            push_decimal(out, actual as u64);
            push_text(out, " }");
        },
        CountMinCodecError::Truncated { offset, needed, remaining } => {
            push_text(out, "Truncated { offset: ");
            push_decimal(out, offset as u64);
            push_text(out, ", needed: ");
            push_decimal(out, needed as u64);
            push_text(out, ", remaining: ");
            push_decimal(out, remaining as u64);
            push_text(out, " }");
        },
        CountMinCodecError::CounterCountMismatch { expected, actual } => {
            push_text(out, "CounterCountMismatch { expected: ");
            push_decimal(out, expected as u64);
            push_text(out, ", actual: ");
            push_decimal(out, actual as u64);
            push_text(out, " }");
        },
        CountMinCodecError::TrailingBytes { offset, remaining } => {
            push_text(out, "TrailingBytes { offset: ");
            push_decimal(out, offset as u64);
            push_text(out, ", remaining: ");
            push_decimal(out, remaining as u64);
            push_text(out, " }");
        },
        CountMinCodecError::TotalWeightExceedsProfile { actual, maximum } => {
            push_text(out, "TotalWeightExceedsProfile { actual: ");
            push_decimal(out, actual as u64);
            push_text(out, ", maximum: ");
            push_decimal(out, maximum as u64);
            push_text(out, " }");
        },
        CountMinCodecError::CounterExceedsTotal { index, counter, total_weight } => {
            push_text(out, "CounterExceedsTotal { index: ");
            push_decimal(out, index as u64);
            push_text(out, ", counter: ");
            push_decimal(out, counter as u64);
            push_text(out, ", total_weight: ");
            push_decimal(out, total_weight as u64);
            push_text(out, " }");
        },
        CountMinCodecError::RowWeightMismatch { row, expected, actual } => {
            push_text(out, "RowWeightMismatch { row: ");
            push_decimal(out, row as u64);
            push_text(out, ", expected: ");
            push_decimal(out, expected as u64);
            push_text(out, ", actual: ");
            push_decimal(out, actual as u64);
            push_text(out, " }");
        },
        CountMinCodecError::EncodedByteLimitExceeded { actual, maximum } => {
            push_text(out, "EncodedByteLimitExceeded { actual: ");
            push_decimal(out, actual as u64);
            push_text(out, ", maximum: ");
            push_decimal(out, maximum as u64);
            push_text(out, " }");
        },
        CountMinCodecError::WidthLimitExceeded { actual, maximum } => {
            push_text(out, "WidthLimitExceeded { actual: ");
            push_decimal(out, actual as u64);
            push_text(out, ", maximum: ");
            push_decimal(out, maximum as u64);
            push_text(out, " }");
        },
        CountMinCodecError::DepthLimitExceeded { actual, maximum } => {
            push_text(out, "DepthLimitExceeded { actual: ");
            push_decimal(out, actual as u64);
            push_text(out, ", maximum: ");
            push_decimal(out, maximum as u64);
            push_text(out, " }");
        },
        CountMinCodecError::DecodeCellLimitExceeded { actual, maximum } => {
            push_text(out, "DecodeCellLimitExceeded { actual: ");
            push_decimal(out, actual as u64);
            push_text(out, ", maximum: ");
            push_decimal(out, maximum as u64);
            push_text(out, " }");
        },
        CountMinCodecError::ProfileMismatch { expected, actual } => {
            push_text(out, "ProfileMismatch { expected: ");
            push_profile_debug(out, expected);
            push_text(out, ", actual: ");
            push_profile_debug(out, actual);
            push_text(out, " }");
        },
    }
    proof {
        assert(out@ =~= old(out)@ + codec_error_text(value));
    }
}

impl CountMinCodecError {
    /// Human-readable diagnostic: the error as `Debug` prints it.
    pub fn message(&self) -> (text: String)
        ensures
            text@ == codec_error_text(*self),
    {
        let mut out = String::new();
        push_codec_error_text(&mut out, *self);
        proof {
            assert(out@ =~= codec_error_text(*self));
        }
        out
    }
}

} // verus!
