//! Immutable scalar bitvectors with rank and bounded-local select.
//!
//! Bits are numbered from the least-significant bit of word zero. Construction
//! accepts an explicit logical bit length and rejects both a non-exact word
//! count and non-zero padding in the final word, so equal logical vectors
//! always have equal words.
//!
//! Rank uses a two-level directory: one cumulative count per eight-word
//! (512-bit) superblock and one `u16` count per word relative to its
//! superblock. Rank performs a fixed number of directory accesses and one
//! population count. Select binary-searches the superblock directory, then
//! examines at most eight words and at most 64 bit positions of the selected
//! word; no query scans the complete bitvector.

use vstd::prelude::*;
use vstd::arithmetic::div_mod::lemma_fundamental_div_mod_converse;
use vstd::layout::layout_of_primitives;
use crate::vec_alloc::{try_reserve_exact, vec_capacity};
use crate::text::{decimal, hex_fixed, push_decimal, push_hex_fixed, push_text};

verus! {

/// Whether bit `b` of `word` is set.
pub open spec fn word_bit(word: u64, b: int) -> bool {
    (word >> (b as u64)) & 1u64 == 1u64
}

/// Number of set bits among the low `n` bits of `word`.
pub open spec fn ones_below(word: u64, n: int) -> nat
    decreases n,
{
    if n <= 0 {
        0
    } else {
        ones_below(word, n - 1) + if word_bit(word, n - 1) {
            1nat
        } else {
            0nat
        }
    }
}

/// Number of set bits of a word.
pub open spec fn popcount(word: u64) -> nat {
    ones_below(word, 64)
}

/// Set bits in the first `n` words.
pub open spec fn words_ones(words: Seq<u64>, n: int) -> nat
    decreases n,
{
    if n <= 0 {
        0
    } else {
        words_ones(words, n - 1) + popcount(words[n - 1])
    }
}

/// Bit `i` of a little-bit-endian word sequence.
pub open spec fn bit_at(words: Seq<u64>, i: int) -> bool {
    word_bit(words[i / 64], i % 64)
}

/// The first `len` logical bits of a word sequence.
pub open spec fn bits_of(len: nat, words: Seq<u64>) -> Seq<bool> {
    Seq::new(len, |i: int| bit_at(words, i))
}

/// Number of one bits among the first `end` bits.
pub open spec fn ones_before(bits: Seq<bool>, end: int) -> nat
    decreases end,
{
    if end <= 0 {
        0
    } else {
        ones_before(bits, end - 1) + if bits[end - 1] {
            1nat
        } else {
            0nat
        }
    }
}

/// Number of zero bits among the first `end` bits.
pub open spec fn zeros_before(bits: Seq<bool>, end: int) -> nat
    decreases end,
{
    if end <= 0 {
        0
    } else {
        zeros_before(bits, end - 1) + if bits[end - 1] {
            0nat
        } else {
            1nat
        }
    }
}

/// Canonical number of words for a logical length: `ceil(bit_len / 64)`.
pub open spec fn spec_word_count(bit_len: nat) -> nat {
    bit_len / 64 + if bit_len % 64 == 0 {
        0nat
    } else {
        1nat
    }
}

/// Every bit at or above `bit_len` is zero.
pub open spec fn padding_clear(bit_len: nat, words: Seq<u64>) -> bool {
    forall|i: int| bit_len <= i < 64 * words.len() ==> !#[trigger] bit_at(words, i)
}

proof fn lemma_div64(w: int, b: int)
    requires
        w >= 0,
        0 <= b < 64,
    ensures
        (64 * w + b) / 64 == w,
        (64 * w + b) % 64 == b,
{
    lemma_fundamental_div_mod_converse(64 * w + b, 64, w, b);
}

/// A number of bits is at most the number of positions counted.
proof fn lemma_ones_below_bound(word: u64, n: int)
    requires
        n >= 0,
    ensures
        ones_below(word, n) <= n,
    decreases n,
{
    if n > 0 {
        lemma_ones_below_bound(word, n - 1);
    }
}

/// Counting more positions never counts fewer bits.
proof fn lemma_ones_below_monotone(word: u64, a: int, b: int)
    requires
        0 <= a <= b,
    ensures
        ones_below(word, a) <= ones_below(word, b),
    decreases b - a,
{
    if a < b {
        lemma_ones_below_monotone(word, a, b - 1);
    }
}

/// Word prefixes count more bits as they grow.
proof fn lemma_words_ones_monotone(words: Seq<u64>, a: int, b: int)
    requires
        0 <= a <= b,
    ensures
        words_ones(words, a) <= words_ones(words, b),
    decreases b - a,
{
    if a < b {
        lemma_words_ones_monotone(words, a, b - 1);
    }
}

/// The first `n` words hold at most `64 n` set bits.
proof fn lemma_words_ones_bound(words: Seq<u64>, n: int)
    requires
        n >= 0,
    ensures
        words_ones(words, n) <= 64 * n,
    decreases n,
{
    if n > 0 {
        lemma_words_ones_bound(words, n - 1);
        lemma_ones_below_bound(words[n - 1], 64);
    }
}

/// Ones and zeros partition a prefix.
pub proof fn lemma_ones_zeros_partition(bits: Seq<bool>, end: int)
    requires
        0 <= end,
    ensures
        ones_before(bits, end) + zeros_before(bits, end) == end,
    decreases end,
{
    if end > 0 {
        lemma_ones_zeros_partition(bits, end - 1);
    }
}

/// Prefix counts grow with the prefix.
pub proof fn lemma_ones_before_monotone(bits: Seq<bool>, a: int, b: int)
    requires
        0 <= a <= b,
    ensures
        ones_before(bits, a) <= ones_before(bits, b),
        zeros_before(bits, a) <= zeros_before(bits, b),
    decreases b - a,
{
    if a < b {
        lemma_ones_before_monotone(bits, a, b - 1);
    }
}

/// The rank of a prefix splits into whole words and a partial word.
proof fn lemma_rank_split(words: Seq<u64>, len: nat, w: int, b: int)
    requires
        0 <= w,
        0 <= b <= 64,
        64 * w + b <= len,
        b > 0 ==> w < words.len(),
        w <= words.len(),
    ensures
        ones_before(bits_of(len, words), 64 * w + b) == words_ones(words, w) + ones_below(
            if w < words.len() {
                words[w]
            } else {
                0u64
            },
            b,
        ),
    decreases 65 * w + b,
{
    let bits = bits_of(len, words);
    if b > 0 {
        lemma_rank_split(words, len, w, b - 1);
        lemma_div64(w, b - 1);
        assert(bits[64 * w + b - 1] == word_bit(words[w], b - 1));
    } else if w > 0 {
        lemma_rank_split(words, len, w - 1, 64);
    }
}

/// A zero bit at `i` means `i` lies below the logical length.
proof fn lemma_set_bit_inside(bit_len: nat, words: Seq<u64>, i: int)
    requires
        padding_clear(bit_len, words),
        0 <= i < 64 * words.len(),
        bit_at(words, i),
    ensures
        i < bit_len,
{
}

/// Bits of `low_mask(n)`.
proof fn lemma_low_mask_bits(n: u64, mask: u64, j: u64)
    by (bit_vector)
    requires
        n <= 64,
        j < 64,
        n == 0 ==> mask == 0,
        n == 64 ==> mask == 0xffff_ffff_ffff_ffffu64,
        0 < n < 64 ==> mask == ((1u64 << n) - 1u64) as u64,
    ensures
        ((mask >> j) & 1u64 == 1u64) <==> j < n,
{
}

/// Mask of the low `n` bits, for `n <= 64`.
pub open spec fn spec_low_mask(n: nat) -> u64 {
    if n == 0 {
        0
    } else if n >= 64 {
        0xffff_ffff_ffff_ffffu64
    } else {
        ((1u64 << (n as u64)) - 1u64) as u64
    }
}

/// The set bits of the final word at or above `bit_len`.
pub open spec fn nonzero_padding(bit_len: nat, words: Seq<u64>) -> u64 {
    if bit_len % 64 == 0 || words.len() == 0 {
        0
    } else {
        words.last() & !spec_low_mask(bit_len % 64)
    }
}

proof fn lemma_clear_padding_bits(x: u64, m: u64, j: u64)
    by (bit_vector)
    requires
        x & !m == 0u64,
        j < 64,
        (x >> j) & 1u64 == 1u64,
    ensures
        (m >> j) & 1u64 == 1u64,
{
}

/// A zero padding word leaves every bit beyond the logical length clear.
proof fn lemma_padding_clear(bit_len: nat, words: Seq<u64>)
    requires
        words.len() == spec_word_count(bit_len),
        nonzero_padding(bit_len, words) == 0,
    ensures
        padding_clear(bit_len, words),
{
    let n = words.len() as int;
    assert forall|i: int| bit_len <= i < 64 * n implies !#[trigger] bit_at(words, i) by {
        let r = (bit_len % 64) as int;
        let q = (bit_len / 64) as int;
        lemma_fundamental_div_mod_converse(bit_len as int, 64, q, r);
        assert(r != 0);
        assert(n == q + 1);
        lemma_div64(q, i - 64 * q);
        if bit_at(words, i) {
            let m = spec_low_mask(r as nat);
            let j = (i - 64 * q) as u64;
            lemma_clear_padding_bits(words.last(), m, j);
            lemma_low_mask_bits(r as u64, m, j);
        }
    }
}

/// Beyond the logical length, clear padding adds no ones.
proof fn lemma_padding_adds_nothing(bit_len: nat, words: Seq<u64>, e: int)
    requires
        padding_clear(bit_len, words),
        bit_len <= e <= 64 * words.len(),
    ensures
        ones_before(bits_of((64 * words.len()) as nat, words), e) == ones_before(
            bits_of((64 * words.len()) as nat, words),
            bit_len as int,
        ),
    decreases e,
{
    if e > bit_len {
        lemma_padding_adds_nothing(bit_len, words, e - 1);
        assert(!bit_at(words, e - 1));
    }
}

/// Bit sequences that agree on a prefix count it identically.
proof fn lemma_prefix_counts(a: Seq<bool>, b: Seq<bool>, e: int)
    requires
        0 <= e <= a.len(),
        e <= b.len(),
        forall|i: int| 0 <= i < e ==> a[i] == b[i],
    ensures
        ones_before(a, e) == ones_before(b, e),
        zeros_before(a, e) == zeros_before(b, e),
    decreases e,
{
    if e > 0 {
        lemma_prefix_counts(a, b, e - 1);
    }
}

/// A prefix holds at most as many ones as positions.
proof fn lemma_ones_before_bound(bits: Seq<bool>, e: int)
    requires
        0 <= e,
    ensures
        ones_before(bits, e) <= e,
        zeros_before(bits, e) <= e,
{
    lemma_ones_zeros_partition(bits, e);
}

/// Word-level and bit-level ranks agree at whole-word boundaries.
proof fn lemma_words_ones_rank(bit_len: nat, words: Seq<u64>, k: int)
    requires
        words.len() == spec_word_count(bit_len),
        padding_clear(bit_len, words),
        0 <= k <= words.len(),
    ensures
        words_ones(words, k) == ones_before(
            bits_of(bit_len, words),
            if 64 * k <= bit_len {
                64 * k
            } else {
                bit_len as int
            },
        ),
        words_ones(words, k) <= bit_len,
{
    let n = words.len() as int;
    let full = bits_of((64 * n) as nat, words);
    let view = bits_of(bit_len, words);
    lemma_rank_split(words, (64 * n) as nat, k, 0);
    let e = if 64 * k <= bit_len {
        64 * k
    } else {
        bit_len as int
    };
    if 64 * k > bit_len {
        lemma_padding_adds_nothing(bit_len, words, 64 * k);
    }
    lemma_prefix_counts(full, view, e);
    lemma_ones_before_bound(view, e);
}

/// The ones in a run of words are at most 64 per word.
proof fn lemma_words_ones_diff(words: Seq<u64>, a: int, b: int)
    requires
        0 <= a <= b,
    ensures
        words_ones(words, a) <= words_ones(words, b) <= words_ones(words, a) + 64 * (b - a),
    decreases b - a,
{
    if a < b {
        lemma_words_ones_diff(words, a, b - 1);
        lemma_ones_below_bound(words[b - 1], 64);
    }
}

/// Mask of the low `bits` bits of a word.
fn low_mask(bits: usize) -> (mask: u64)
    requires
        bits <= 64,
    ensures
        mask == spec_low_mask(bits as nat),
        forall|j: int| 0 <= j < 64 ==> (word_bit(mask, j) <==> j < bits),
{
    let mask: u64 = if bits == 0 {
        0
    } else if bits == 64 {
        u64::MAX
    } else {
        let shift = bits as u64;
        assert(1u64 << shift >= 1u64) by (bit_vector)
            requires
                0 < shift < 64,
        ;
        (1u64 << shift) - 1
    };
    proof {
        let n = bits as u64;
        assert forall|j: int| 0 <= j < 64 implies (word_bit(mask, j) <==> j < bits) by {
            lemma_low_mask_bits(n, mask, j as u64);
        }
    }
    mask
}

/// Number of set bits of a word.
pub(crate) fn count_word_ones(word: u64) -> (count: usize)
    ensures
        count == popcount(word),
        count <= 64,
{
    let mut count: usize = 0;
    let mut b: u64 = 0;
    while b < 64
        invariant
            b <= 64,
            count == ones_below(word, b as int),
            count <= b,
        decreases 64 - b,
    {
        if (word >> b) & 1 == 1 {
            count = count + 1;
        }
        b = b + 1;
    }
    count
}

/// Canonical number of words for a logical length.
/// Chunking cannot change a builder's result: appending `first` and then
/// `second` fits the maximum exactly when appending their concatenation
/// does, and then gives the same bits.
pub proof fn law_extend_chunking(bits: Seq<bool>, first: Seq<bool>, second: Seq<bool>, max_bits: nat)
    ensures
        ((bits + first).len() + second.len() <= max_bits && bits.len() + first.len() <= max_bits) == (bits.len()
            + (first + second).len() <= max_bits),
        (bits + first) + second == bits + (first + second),
{
    assert((bits + first) + second =~= bits + (first + second));
}

/// The bits that `words` allocated words hold, capped at `max_bits` once
/// they hold every word `max_bits` needs.
pub open spec fn capped_bits(words: usize, max_bits: usize) -> int {
    if words >= spec_word_count(max_bits as nat) {
        max_bits as int
    } else {
        words * 64
    }
}

fn word_count(bit_len: usize) -> (count: usize)
    ensures
        count == spec_word_count(bit_len as nat),
{
    bit_len / 64 + if bit_len % 64 == 0 {
        0
    } else {
        1
    }
}

/// Internal allocation named by a fallible construction error.
#[derive(Clone, Copy, Debug, Eq, Hash, PartialEq, Structural)]
pub enum AllocationTarget {
    /// Canonical bit words.
    Words,
    /// Cumulative counts at 512-bit boundaries.
    RankSuperblocks,
    /// Counts at 64-bit boundaries relative to a superblock.
    RankSubblocks,
    /// Exact byte accounting for the completed representation.
    StorageAccounting,
}

/// Typed failure from succinct bitvector construction.
#[derive(Clone, Copy, Debug, Eq, PartialEq, Structural)]
pub enum BitVectorError {
    /// The supplied word count is not exactly `ceil(bit_len / 64)`.
    WordCountMismatch { bit_len: usize, expected_words: usize, actual_words: usize },
    /// Bits outside the explicit logical length were set.
    NonZeroPadding { bit_len: usize, word_index: usize, word: u64, non_zero_padding: u64 },
    /// Appending bits would exceed a builder's explicit maximum.
    BitLimitExceeded { attempted_bits: usize, max_bits: usize },
    /// Computing an appended length exceeded the platform index domain.
    LengthOverflow { current_bits: usize, additional_bits: usize },
    /// Directory-size arithmetic exceeded `usize`.
    SizeOverflow { target: AllocationTarget },
    /// Reserving one representation component failed before publication.
    AllocationFailed { target: AllocationTarget, requested: usize },
}

/// Bytes of one `usize`.
pub open spec fn usize_bytes() -> nat {
    (usize::BITS / 8) as nat
}

/// Byte accounting of arrays of `words` words, `supers` cumulative counts and
/// `subs` relative counts, when every product and the total fit in `usize`.
pub open spec fn storage_fits(words: nat, supers: nat, subs: nat) -> bool {
    8 * words + usize_bytes() * supers + 2 * subs <= usize::MAX
}

/// Exact byte accounting for the vector's three heap-owned arrays.
///
/// Values use logical element widths and exact array lengths or capacities;
/// they exclude inline fields and allocator bookkeeping.
#[derive(Clone, Copy, Debug, Default, Eq, Hash, PartialEq, Structural)]
pub struct StorageBreakdown {
    word_bytes: usize,
    rank_superblock_bytes: usize,
    rank_subblock_bytes: usize,
    total_bytes: usize,
}

impl StorageBreakdown {
    /// Bytes in word elements.
    pub closed spec fn spec_word_bytes(self) -> usize {
        self.word_bytes
    }

    /// Bytes in superblock-directory elements.
    pub closed spec fn spec_rank_superblock_bytes(self) -> usize {
        self.rank_superblock_bytes
    }

    /// Bytes in subblock-directory elements.
    pub closed spec fn spec_rank_subblock_bytes(self) -> usize {
        self.rank_subblock_bytes
    }

    /// Sum of the three components.
    pub closed spec fn spec_total_bytes(self) -> usize {
        self.total_bytes
    }

    /// Whether this accounts for the given element counts.
    pub open spec fn accounts(self, words: nat, supers: nat, subs: nat) -> bool {
        &&& self.spec_word_bytes() == 8 * words
        &&& self.spec_rank_superblock_bytes() == usize_bytes() * supers
        &&& self.spec_rank_subblock_bytes() == 2 * subs
        &&& self.spec_total_bytes() == 8 * words + usize_bytes() * supers + 2 * subs
    }

    /// Bytes in canonical bit-word elements.
    pub fn word_bytes(self) -> (bytes: usize)
        ensures
            bytes == self.spec_word_bytes(),
    {
        self.word_bytes
    }

    /// Bytes in cumulative superblock-directory elements.
    pub fn rank_superblock_bytes(self) -> (bytes: usize)
        ensures
            bytes == self.spec_rank_superblock_bytes(),
    {
        self.rank_superblock_bytes
    }

    /// Bytes in relative subblock-directory elements.
    pub fn rank_subblock_bytes(self) -> (bytes: usize)
        ensures
            bytes == self.spec_rank_subblock_bytes(),
    {
        self.rank_subblock_bytes
    }

    /// Exact sum of all heap-owned representation arrays.
    pub fn total_bytes(self) -> (bytes: usize)
        ensures
            bytes == self.spec_total_bytes(),
    {
        self.total_bytes
    }

    /// Accounts for the given element counts, or reports that the byte
    /// total does not fit in `usize`.
    fn try_from_elements(word_elements: usize, superblock_elements: usize, subblock_elements: usize) -> (result:
        Result<Self, BitVectorError>)
        ensures
            storage_fits(word_elements as nat, superblock_elements as nat, subblock_elements as nat) ==> (
            result matches Ok(b) && b.accounts(word_elements as nat, superblock_elements as nat, subblock_elements as nat)),
            !storage_fits(word_elements as nat, superblock_elements as nat, subblock_elements as nat) ==> result
                == Err::<Self, BitVectorError>(BitVectorError::SizeOverflow { target: AllocationTarget::StorageAccounting }),
    {
        broadcast use layout_of_primitives;

        let overflow = BitVectorError::SizeOverflow { target: AllocationTarget::StorageAccounting };
        let usize_width = core::mem::size_of::<usize>();
        assert(usize_width == usize_bytes());
        assert(usize_width == 4 || usize_width == 8);
        let word_bytes = match word_elements.checked_mul(8) {
            Some(v) => v,
            None => return Err(overflow),
        };
        let rank_superblock_bytes = match superblock_elements.checked_mul(usize_width) {
            Some(v) => v,
            None => return Err(overflow),
        };
        let rank_subblock_bytes = match subblock_elements.checked_mul(2) {
            Some(v) => v,
            None => return Err(overflow),
        };
        let partial = match word_bytes.checked_add(rank_superblock_bytes) {
            Some(v) => v,
            None => return Err(overflow),
        };
        let total_bytes = match partial.checked_add(rank_subblock_bytes) {
            Some(v) => v,
            None => return Err(overflow),
        };
        Ok(StorageBreakdown { word_bytes, rank_superblock_bytes, rank_subblock_bytes, total_bytes })
    }
}

/// Number of superblocks over `words` words: `ceil(words / 8)`.
pub open spec fn superblock_count(words: nat) -> nat {
    (words + 7) / 8
}

/// Set bits in the words before superblock `s`, clamped to the words.
pub open spec fn superblock_prefix(words: Seq<u64>, s: int) -> nat {
    words_ones(words, if 8 * s <= words.len() {
        8 * s
    } else {
        words.len() as int
    })
}

/// The rank directory that a word sequence determines.
pub open spec fn directory_of(words: Seq<u64>, supers: Seq<usize>, subs: Seq<u16>) -> bool {
    &&& supers.len() == superblock_count(words.len()) + 1
    &&& forall|s: int| 0 <= s < supers.len() ==> #[trigger] supers[s] == superblock_prefix(words, s)
    &&& subs.len() == words.len()
    &&& forall|w: int| 0 <= w < subs.len() ==> #[trigger] subs[w] + words_ones(words, 8 * (w / 8)) == words_ones(words, w)
}

/// Immutable canonical bitvector with scalar rank/select support.
#[derive(Debug)]
pub struct SuccinctBitVector {
    bit_len: usize,
    words: Vec<u64>,
    rank_superblocks: Vec<usize>,
    rank_subblocks: Vec<u16>,
    one_count: usize,
    logical_storage: StorageBreakdown,
    retained_storage: StorageBreakdown,
}

impl View for SuccinctBitVector {
    type V = Seq<bool>;

    /// The logical bits.
    closed spec fn view(&self) -> Seq<bool> {
        bits_of(self.bit_len as nat, self.words@)
    }
}

impl SuccinctBitVector {
    #[verifier::type_invariant]
    spec fn well_formed(self) -> bool {
        &&& self.words@.len() == spec_word_count(self.bit_len as nat)
        &&& padding_clear(self.bit_len as nat, self.words@)
        &&& directory_of(self.words@, self.rank_superblocks@, self.rank_subblocks@)
        &&& self.one_count == words_ones(self.words@, self.words@.len() as int)
        &&& self.logical_storage.accounts(
            self.words@.len() as nat,
            self.rank_superblocks@.len() as nat,
            self.rank_subblocks@.len() as nat,
        )
        &&& self.retained_storage.spec_word_bytes() >= 8 * self.words@.len()
        &&& self.retained_storage.spec_rank_superblock_bytes() >= usize_bytes() * self.rank_superblocks@.len()
        &&& self.retained_storage.spec_rank_subblock_bytes() >= 2 * self.rank_subblocks@.len()
        &&& self.retained_storage.spec_total_bytes() == self.retained_storage.spec_word_bytes()
            + self.retained_storage.spec_rank_superblock_bytes() + self.retained_storage.spec_rank_subblock_bytes()
    }

    /// Canonical words.
    pub closed spec fn spec_words(self) -> Seq<u64> {
        self.words@
    }

    /// Byte accounting of the backing capacities.
    pub closed spec fn spec_retained(self) -> StorageBreakdown {
        self.retained_storage
    }
}


/// Facts about superblock arithmetic used by the directory builder.
proof fn lemma_superblock_step(i: int)
    requires
        i >= 0,
    ensures
        i % 8 == 0 ==> (i + 8) / 8 == (i + 7) / 8 + 1 && 8 * (i / 8) == i,
        i % 8 != 0 ==> (i + 8) / 8 == (i + 7) / 8 && i / 8 == (i - 1) / 8 && 8 * (i / 8) < i && i - 8 * (i / 8)
            <= 7,
        i > 0 ==> 8 * ((i - 1) / 8) <= i - 1,
        i > 0 ==> (i - 1) / 8 < (i + 7) / 8,
        8 * ((i + 7) / 8) >= i,
        i > 0 ==> 8 * ((i - 1) / 8) + 8 > i - 1,
{
}

impl SuccinctBitVector {
    /// Constructs a vector from canonical little-bit-endian words.
    ///
    /// `words.len()` must equal `ceil(bit_len / 64)`, and when the final word
    /// is partial every bit at or beyond `bit_len` must be zero. Validation
    /// completes before any directory allocation.
    #[verifier::rlimit(50)]
    pub fn try_from_words(bit_len: usize, words: Vec<u64>) -> (result: Result<Self, BitVectorError>)
        ensures
            words@.len() != spec_word_count(bit_len as nat) ==> result == Err::<Self, BitVectorError>(
                BitVectorError::WordCountMismatch {
                    bit_len,
                    expected_words: spec_word_count(bit_len as nat) as usize,
                    actual_words: words@.len() as usize,
                },
            ),
            words@.len() == spec_word_count(bit_len as nat) && nonzero_padding(bit_len as nat, words@) != 0 ==> result
                == Err::<Self, BitVectorError>(
                BitVectorError::NonZeroPadding {
                    bit_len,
                    word_index: (words@.len() - 1) as usize,
                    word: words@.last(),
                    non_zero_padding: nonzero_padding(bit_len as nat, words@),
                },
            ),
            words@.len() == spec_word_count(bit_len as nat) && nonzero_padding(bit_len as nat, words@) == 0 ==> match result {
                Ok(v) => v@ == bits_of(bit_len as nat, words@) && v.spec_words() == words@,
                Err(e) => e == BitVectorError::AllocationFailed {
                    target: AllocationTarget::RankSuperblocks,
                    requested: (superblock_count(words@.len()) + 1) as usize,
                } || e == BitVectorError::AllocationFailed {
                    target: AllocationTarget::RankSubblocks,
                    requested: words@.len() as usize,
                } || e == BitVectorError::SizeOverflow { target: AllocationTarget::StorageAccounting },
            },
    {
        let expected_words = word_count(bit_len);
        if words.len() != expected_words {
            return Err(
                BitVectorError::WordCountMismatch { bit_len, expected_words, actual_words: words.len() },
            );
        }
        let final_bits = bit_len % 64;
        if final_bits != 0 {
            let word_index = words.len() - 1;
            let word = words[word_index];
            let non_zero_padding = word & !low_mask(final_bits);
            if non_zero_padding != 0 {
                return Err(BitVectorError::NonZeroPadding { bit_len, word_index, word, non_zero_padding });
            }
        }
        proof {
            lemma_padding_clear(bit_len as nat, words@);
        }
        let n = words.len();
        let superblock_entries = (n + 7) / 8 + 1;
        let mut rank_superblocks: Vec<usize> = Vec::new();
        if !try_reserve_exact(&mut rank_superblocks, superblock_entries) {
            return Err(
                BitVectorError::AllocationFailed {
                    target: AllocationTarget::RankSuperblocks,
                    requested: superblock_entries,
                },
            );
        }
        let mut rank_subblocks: Vec<u16> = Vec::new();
        if !try_reserve_exact(&mut rank_subblocks, n) {
            return Err(BitVectorError::AllocationFailed { target: AllocationTarget::RankSubblocks, requested: n });
        }
        let mut total: usize = 0;
        let mut within: u16 = 0;
        let mut i: usize = 0;
        while i < n
            invariant
                n == words@.len(),
                words@.len() == spec_word_count(bit_len as nat),
                padding_clear(bit_len as nat, words@),
                i <= n,
                total == words_ones(words@, i as int),
                rank_superblocks@.len() == (i + 7) / 8,
                forall|s: int|
                    0 <= s < rank_superblocks@.len() ==> #[trigger] rank_superblocks@[s] == words_ones(words@, 8 * s),
                rank_subblocks@.len() == i,
                forall|w: int|
                    0 <= w < i ==> #[trigger] rank_subblocks@[w] + words_ones(words@, 8 * (w / 8)) == words_ones(
                        words@,
                        w,
                    ),
                i > 0 ==> within + words_ones(words@, 8 * ((i - 1) / 8)) == total,
                i > 0 ==> within <= 64 * (i - 8 * ((i - 1) / 8)),
            decreases n - i,
        {
            proof {
                lemma_superblock_step(i as int);
                lemma_words_ones_rank(bit_len as nat, words@, (i + 1) as int);
                lemma_words_ones_diff(words@, 8 * (i as int / 8), i as int);
            }
            if i % 8 == 0 {
                rank_superblocks.push(total);
                within = 0;
            }
            let ghost start = 8 * (i as int / 8);
            assert(within + words_ones(words@, start) == total) by {
                if i % 8 != 0 {
                    assert(start == 8 * ((i - 1) / 8));
                }
            }
            rank_subblocks.push(within);
            let ones = count_word_ones(words[i]);
            proof {
                lemma_words_ones_diff(words@, start, i + 1);
            }
            within = within + ones as u16;
            total = total + ones;
            i = i + 1;
            proof {
                assert forall|w: int| 0 <= w < i implies #[trigger] rank_subblocks@[w] + words_ones(
                    words@,
                    8 * (w / 8),
                ) == words_ones(words@, w) by {
                    if w == i - 1 {
                        assert(rank_subblocks@[w] + words_ones(words@, start) == words_ones(words@, w));
                    }
                }
                lemma_superblock_step(i as int);
            }
        }
        proof {
            lemma_words_ones_rank(bit_len as nat, words@, n as int);
        }
        rank_superblocks.push(total);
        proof {
            let supers = rank_superblocks@;
            assert forall|s: int| 0 <= s < supers.len() implies #[trigger] supers[s] == superblock_prefix(words@, s) by {
                if s < supers.len() - 1 {
                    assert(8 * s <= n) by {
                        lemma_superblock_step(n as int);
                    }
                }
            }
            assert forall|w: int| 0 <= w < rank_subblocks@.len() implies #[trigger] rank_subblocks@[w] + words_ones(
                words@,
                8 * (w / 8),
            ) == words_ones(words@, w) by {}
        }
        let logical_storage = match StorageBreakdown::try_from_elements(
            n,
            rank_superblocks.len(),
            rank_subblocks.len(),
        ) {
            Ok(b) => b,
            Err(e) => return Err(e),
        };
        let word_capacity = vec_capacity(&words);
        let superblock_capacity = vec_capacity(&rank_superblocks);
        let subblock_capacity = vec_capacity(&rank_subblocks);
        let retained_storage = match StorageBreakdown::try_from_elements(
            word_capacity,
            superblock_capacity,
            subblock_capacity,
        ) {
            Ok(b) => b,
            Err(e) => return Err(e),
        };
        proof {
            let ub = usize_bytes() as int;
            let sc = superblock_capacity as int;
            let need = rank_superblocks@.len() as int;
            assert(ub * sc >= ub * need) by (nonlinear_arith)
                requires
                    sc >= need,
                    ub >= 0,
            ;
        }
        Ok(
            SuccinctBitVector {
                bit_len,
                words,
                rank_superblocks,
                rank_subblocks,
                one_count: total,
                logical_storage,
                retained_storage,
            },
        )
    }
}

proof fn lemma_and_bit(x: u64, m: u64, j: u64)
    by (bit_vector)
    requires
        j < 64,
    ensures
        (((x & m) >> j) & 1u64 == 1u64) <==> ((x >> j) & 1u64 == 1u64 && (m >> j) & 1u64 == 1u64),
        (((!x & m) >> j) & 1u64 == 1u64) <==> ((x >> j) & 1u64 != 1u64 && (m >> j) & 1u64 == 1u64),
{
}

proof fn lemma_single_bit(x: u64, j: u64)
    by (bit_vector)
    requires
        j < 64,
    ensures
        ((x & (1u64 << j)) != 0u64) <==> ((x >> j) & 1u64 == 1u64),
{
}

/// Counting a word under a low mask counts the word's low bits.
proof fn lemma_masked_ones(x: u64, b: nat, k: int)
    requires
        b <= 64,
        0 <= k <= 64,
    ensures
        ones_below(x & spec_low_mask(b), k) == ones_below(x, if k <= b {
            k
        } else {
            b as int
        }),
    decreases k,
{
    if k > 0 {
        lemma_masked_ones(x, b, k - 1);
        lemma_and_bit(x, spec_low_mask(b), (k - 1) as u64);
        lemma_low_mask_bits(b as u64, spec_low_mask(b), (k - 1) as u64);
    }
}

/// Counting the complement of a word under a low mask counts the word's low
/// zero bits, and nothing beyond the mask.
proof fn lemma_masked_zeros(bit_len: nat, words: Seq<u64>, wi: int, valid: nat, k: int)
    requires
        words.len() == spec_word_count(bit_len),
        0 <= wi < words.len(),
        valid <= 64,
        64 * wi + valid <= bit_len,
        valid == 64 || 64 * wi + valid == bit_len,
        0 <= k <= 64,
    ensures
        k <= valid ==> zeros_before(bits_of(bit_len, words), 64 * wi + k) == zeros_before(
            bits_of(bit_len, words),
            64 * wi,
        ) + ones_below(!words[wi] & spec_low_mask(valid), k),
        k > valid ==> ones_below(!words[wi] & spec_low_mask(valid), k) == ones_below(
            !words[wi] & spec_low_mask(valid),
            valid as int,
        ),
    decreases k,
{
    if k > 0 {
        lemma_masked_zeros(bit_len, words, wi, valid, k - 1);
        let j = (k - 1) as u64;
        lemma_and_bit(words[wi], spec_low_mask(valid), j);
        lemma_low_mask_bits(valid as u64, spec_low_mask(valid), j);
        if k <= valid {
            lemma_div64(wi, k - 1);
        }
    }
}

/// First bit position of superblock `s`, clamped to the logical length.
pub open spec fn superblock_start(s: int, bit_len: int) -> int {
    if 512 * s <= bit_len {
        512 * s
    } else {
        bit_len
    }
}

/// Superblock prefixes grow with the superblock index.
proof fn lemma_superblock_monotone(words: Seq<u64>, a: int, b: int)
    requires
        0 <= a <= b,
    ensures
        superblock_prefix(words, a) <= superblock_prefix(words, b),
{
    let ka = if 8 * a <= words.len() {
        8 * a
    } else {
        words.len() as int
    };
    let kb = if 8 * b <= words.len() {
        8 * b
    } else {
        words.len() as int
    };
    lemma_words_ones_monotone(words, ka, kb);
}

/// Position of the zero-based `ordinal`th set bit of a word, found by
/// examining at most 64 bit positions.
fn select_in_word(word: u64, ordinal: usize) -> (bit: usize)
    requires
        ordinal < popcount(word),
    ensures
        bit < 64,
        word_bit(word, bit as int),
        ones_below(word, bit as int) == ordinal,
{
    let mut seen: usize = 0;
    let mut b: u64 = 0;
    while b < 64
        invariant
            b <= 64,
            seen == ones_below(word, b as int),
            seen <= ordinal,
            ordinal < popcount(word),
        decreases 64 - b,
    {
        if (word >> b) & 1 == 1 {
            if seen == ordinal {
                return b as usize;
            }
            seen = seen + 1;
        }
        b = b + 1;
    }
    proof {
        assert(false);
    }
    0
}

impl SuccinctBitVector {
    proof fn lemma_one_count(self)
        requires
            self.well_formed(),
        ensures
            self.one_count == ones_before(self@, self@.len() as int),
            self.one_count <= self.bit_len,
            self.rank_superblocks@.len() == superblock_count(self.words@.len()) + 1,
    {
        lemma_words_ones_rank(self.bit_len as nat, self.words@, self.words@.len() as int);
    }

    /// Number of one bits in the whole vector.
    pub open spec fn spec_count_ones(self) -> nat {
        ones_before(self@, self@.len() as int)
    }

    /// Explicit logical length in bits.
    pub fn len(&self) -> (len: usize)
        ensures
            len == self@.len(),
    {
        self.bit_len
    }

    /// Whether the vector contains no logical bits.
    pub fn is_empty(&self) -> (empty: bool)
        ensures
            empty == (self@.len() == 0),
    {
        self.bit_len == 0
    }

    /// Canonical little-bit-endian words; the last has zero bits outside the
    /// logical length.
    pub fn as_words(&self) -> (words: &[u64])
        ensures
            words@ == self.spec_words(),
            words@.len() == spec_word_count(self@.len()),
            padding_clear(self@.len(), words@),
            self@ == bits_of(self@.len(), words@),
    {
        proof {
            use_type_invariant(self);
        }
        self.words.as_slice()
    }

    /// The bit at `index`, or `None` beyond the logical length.
    pub fn get(&self, index: usize) -> (bit: Option<bool>)
        ensures
            index >= self@.len() ==> bit is None,
            index < self@.len() ==> bit == Some(self@[index as int]),
    {
        proof {
            use_type_invariant(self);
        }
        if index >= self.bit_len {
            return None;
        }
        let word = self.words[index / 64];
        let shift = (index % 64) as u64;
        proof {
            lemma_single_bit(word, shift);
        }
        Some(word & (1u64 << shift) != 0)
    }

    /// Number of one bits in the complete logical vector.
    pub fn count_ones(&self) -> (count: usize)
        ensures
            count == self.spec_count_ones(),
    {
        proof {
            use_type_invariant(self);
            self.lemma_one_count();
        }
        self.one_count
    }

    /// Number of zero bits in the complete logical vector.
    pub fn count_zeros(&self) -> (count: usize)
        ensures
            count == zeros_before(self@, self@.len() as int),
    {
        proof {
            use_type_invariant(self);
            self.lemma_one_count();
            lemma_ones_zeros_partition(self@, self@.len() as int);
        }
        self.bit_len - self.one_count
    }

    /// Counts one bits in the half-open prefix `[0, end)`; `None` when
    /// `end` exceeds the length. Fixed directory work plus one population
    /// count.
    pub fn rank1(&self, end: usize) -> (rank: Option<usize>)
        ensures
            end > self@.len() ==> rank is None,
            end <= self@.len() ==> rank == Some(ones_before(self@, end as int) as usize),
    {
        proof {
            use_type_invariant(self);
            use_type_invariant(self);
            self.lemma_one_count();
        }
        if end > self.bit_len {
            return None;
        }
        if end == self.bit_len {
            return Some(self.one_count);
        }
        let word_index = end / 64;
        let bit_in_word = end % 64;
        let superblock_index = word_index / 8;
        proof {
            lemma_div64(word_index as int, bit_in_word as int);
            assert(word_index < self.words@.len());
            assert(8 * superblock_index <= word_index);
            assert(superblock_index < self.rank_superblocks@.len());
            assert(self.rank_superblocks@[superblock_index as int] == superblock_prefix(
                self.words@,
                superblock_index as int,
            ));
            assert(self.rank_subblocks@[word_index as int] + words_ones(self.words@, 8 * (word_index as int / 8))
                == words_ones(self.words@, word_index as int));
            lemma_rank_split(self.words@, self.bit_len as nat, word_index as int, bit_in_word as int);
            lemma_masked_ones(self.words@[word_index as int], bit_in_word as nat, 64);
            lemma_ones_before_bound(self@, end as int);
        }
        let preceding = self.rank_superblocks[superblock_index] + self.rank_subblocks[word_index] as usize;
        let word_prefix = self.words[word_index] & low_mask(bit_in_word);
        Some(preceding + count_word_ones(word_prefix))
    }

    /// Counts zero bits in the half-open prefix `[0, end)`; `None` when
    /// `end` exceeds the length.
    pub fn rank0(&self, end: usize) -> (rank: Option<usize>)
        ensures
            end > self@.len() ==> rank is None,
            end <= self@.len() ==> rank == Some(zeros_before(self@, end as int) as usize),
    {
        match self.rank1(end) {
            Some(ones) => {
                proof {
                    lemma_ones_zeros_partition(self@, end as int);
                }
                Some(end - ones)
            },
            None => None,
        }
    }

    /// Position of the zero-based `ordinal`th one bit: the superblock
    /// directory is binary-searched, then at most eight words and 64 bit
    /// positions are examined.
    #[verifier::rlimit(50)]
    pub fn select1(&self, ordinal: usize) -> (position: Option<usize>)
        ensures
            ordinal >= self.spec_count_ones() ==> position is None,
            ordinal < self.spec_count_ones() ==> (position matches Some(p) && p < self@.len() && self@[p as int]
                && ones_before(self@, p as int) == ordinal),
    {
        proof {
            use_type_invariant(self);
            use_type_invariant(self);
            self.lemma_one_count();
        }
        if ordinal >= self.one_count {
            return None;
        }
        let ghost words = self.words@;
        let ghost n = words.len() as int;
        let ghost supers = self.rank_superblocks@;
        let ghost nsuper = superblock_count(n as nat) as int;
        assert(supers[nsuper] == words_ones(words, n));
        let mut lo: usize = 0;
        let mut hi: usize = self.rank_superblocks.len();
        while lo < hi
            invariant
                supers == self.rank_superblocks@,
                directory_of(words, supers, self.rank_subblocks@),
                lo <= hi <= supers.len(),
                forall|j: int| 0 <= j < lo ==> #[trigger] supers[j] <= ordinal,
                forall|j: int| hi <= j < supers.len() ==> #[trigger] supers[j] > ordinal,
            decreases hi - lo,
        {
            let middle = lo + (hi - lo) / 2;
            if self.rank_superblocks[middle] <= ordinal {
                proof {
                    assert forall|j: int| 0 <= j <= middle implies #[trigger] supers[j] <= ordinal by {
                        lemma_superblock_monotone(words, j, middle as int);
                    }
                }
                lo = middle + 1;
            } else {
                proof {
                    assert forall|j: int| middle <= j < supers.len() implies #[trigger] supers[j] > ordinal by {
                        lemma_superblock_monotone(words, middle as int, j);
                    }
                }
                hi = middle;
            }
        }
        assert(supers[0] == 0);
        let superblock_index = lo - 1;
        assert(superblock_index < nsuper);
        let word_start = superblock_index * 8;
        let word_end = if word_start + 8 < self.words.len() {
            word_start + 8
        } else {
            self.words.len()
        };
        assert(supers[superblock_index + 1] == words_ones(words, word_end as int));
        let mut within = ordinal - self.rank_superblocks[superblock_index];
        let mut word_index = word_start;
        while word_index < word_end
            invariant
                words == self.words@,
                words.len() == spec_word_count(self.bit_len as nat),
                padding_clear(self.bit_len as nat, words),
                ordinal < self.spec_count_ones(),
                word_start <= word_index <= word_end <= words.len(),
                within + words_ones(words, word_index as int) == ordinal,
                ordinal < words_ones(words, word_end as int),
            decreases word_end - word_index,
        {
            let word = self.words[word_index];
            let count = count_word_ones(word);
            if within < count {
                let bit = select_in_word(word, within);
                proof {
                    let p = 64 * word_index + bit;
                    lemma_div64(word_index as int, bit as int);
                    assert(bit_at(words, p));
                    lemma_set_bit_inside(self.bit_len as nat, words, p);
                    lemma_rank_split(words, self.bit_len as nat, word_index as int, bit as int);
                }
                return Some(word_index * 64 + bit);
            }
            within = within - count;
            word_index = word_index + 1;
        }
        proof {
            assert(false);
        }
        None
    }

    /// Zero bits before the superblock boundary `superblock_index`.
    fn zeros_before_superblock(&self, superblock_index: usize) -> (zeros: usize)
        requires
            superblock_index < self.rank_superblocks@.len(),
        ensures
            zeros == zeros_before(self@, if 512 * superblock_index <= self@.len() {
                512 * superblock_index
            } else {
                self@.len() as int
            }),
    {
        proof {
            use_type_invariant(self);
        }
        let bit_start = match superblock_index.checked_mul(512) {
            Some(v) => if v < self.bit_len {
                v
            } else {
                self.bit_len
            },
            None => self.bit_len,
        };
        proof {
            let words = self.words@;
            let n = words.len() as int;
            let k = if 8 * superblock_index <= n {
                8 * superblock_index
            } else {
                n
            };
            assert(self.rank_superblocks@[superblock_index as int] == words_ones(words, k));
            lemma_words_ones_rank(self.bit_len as nat, words, k);
            lemma_ones_zeros_partition(self@, bit_start as int);
        }
        bit_start - self.rank_superblocks[superblock_index]
    }

    /// Logical bits of word `word_index`.
    fn valid_bits_in_word(&self, word_index: usize) -> (valid: usize)
        requires
            word_index < self.words@.len(),
        ensures
            valid <= 64,
            64 * word_index + valid <= self@.len(),
            valid == 64 || 64 * word_index + valid == self@.len(),
            valid > 0,
    {
        proof {
            use_type_invariant(self);
        }
        let bit_start = word_index * 64;
        let remaining = self.bit_len - bit_start;
        if remaining < 64 {
            remaining
        } else {
            64
        }
    }

    /// Position of the zero-based `ordinal`th zero bit: zero counts derived
    /// from the same directory are binary-searched, then at most eight words
    /// and 64 bit positions are examined. Final padding is never counted.
    #[verifier::rlimit(60)]
    pub fn select0(&self, ordinal: usize) -> (position: Option<usize>)
        ensures
            ordinal >= zeros_before(self@, self@.len() as int) ==> position is None,
            ordinal < zeros_before(self@, self@.len() as int) ==> (position matches Some(p) && p < self@.len()
                && !self@[p as int] && zeros_before(self@, p as int) == ordinal),
    {
        proof {
            use_type_invariant(self);
            use_type_invariant(self);
            self.lemma_one_count();
        }
        let zero_count = self.count_zeros();
        if ordinal >= zero_count {
            return None;
        }
        let ghost words = self.words@;
        let ghost n = words.len() as int;
        let ghost view = self@;
        let ghost bit_len = self.bit_len as int;
        let superblock_count = self.rank_superblocks.len() - 1;
        let mut lo: usize = 0;
        let mut hi: usize = superblock_count + 1;
        proof {
            assert(512 * superblock_count >= bit_len) by {
                lemma_superblock_step(n);
            }
        }
        while lo < hi
            invariant
                view == self@,
                bit_len == self@.len(),
                superblock_count + 1 == self.rank_superblocks@.len(),
                512 * superblock_count >= bit_len,
                lo <= hi <= superblock_count + 1,
                forall|j: int| 0 <= j < lo ==> zeros_before(view, #[trigger] superblock_start(j, bit_len)) <= ordinal,
                forall|j: int| hi <= j <= superblock_count ==> zeros_before(view, #[trigger] superblock_start(j, bit_len)) > ordinal,
                ordinal < zeros_before(view, bit_len),
            decreases hi - lo,
        {
            let middle = lo + (hi - lo) / 2;
            if self.zeros_before_superblock(middle) <= ordinal {
                proof {
                    assert forall|j: int| 0 <= j <= middle implies zeros_before(view, #[trigger] superblock_start(j, bit_len)) <= ordinal by {
                        lemma_ones_before_monotone(view, superblock_start(j, bit_len), superblock_start(middle as int, bit_len));
                    }
                }
                lo = middle + 1;
            } else {
                proof {
                    assert forall|j: int| middle <= j <= superblock_count implies zeros_before(view, #[trigger] superblock_start(j, bit_len))
                        > ordinal by {
                        lemma_ones_before_monotone(view, superblock_start(middle as int, bit_len), superblock_start(j, bit_len));
                    }
                }
                hi = middle;
            }
        }
        assert(superblock_start(0, bit_len) == 0);
        assert(superblock_start(superblock_count as int, bit_len) == bit_len);
        let superblock_index = lo - 1;
        assert(zeros_before(view, superblock_start(superblock_index as int, bit_len)) <= ordinal);
        let word_start = superblock_index * 8;
        let word_end = if word_start + 8 < self.words.len() {
            word_start + 8
        } else {
            self.words.len()
        };
        proof {
            lemma_superblock_step(n);
            assert(word_start < n);
            assert(superblock_start(superblock_index + 1, bit_len) == if 64 * word_end <= bit_len { 64 * word_end } else { bit_len });
        }
        let mut within = ordinal - self.zeros_before_superblock(superblock_index);
        let mut word_index = word_start;
        while word_index < word_end
            invariant
                words == self.words@,
                n == words.len(),
                view == self@,
                bit_len == self@.len(),
                words.len() == spec_word_count(bit_len as nat),
                view == bits_of(bit_len as nat, words),
                word_start <= word_index <= word_end <= words.len(),
                64 * word_index <= bit_len,
                within + zeros_before(view, 64 * word_index) == ordinal,
                ordinal < zeros_before(view, bit_len),
                ordinal < zeros_before(view, if 64 * word_end <= bit_len { 64 * word_end } else { bit_len }),
            decreases word_end - word_index,
        {
            let valid_bits = self.valid_bits_in_word(word_index);
            let zero_word = !self.words[word_index] & low_mask(valid_bits);
            let count = count_word_ones(zero_word);
            proof {
                lemma_masked_zeros(bit_len as nat, words, word_index as int, valid_bits as nat, valid_bits as int);
                lemma_masked_zeros(bit_len as nat, words, word_index as int, valid_bits as nat, 64);
            }
            if within < count {
                let bit = select_in_word(zero_word, within);
                proof {
                    lemma_and_bit(words[word_index as int], spec_low_mask(valid_bits as nat), bit as u64);
                    lemma_low_mask_bits(valid_bits as u64, spec_low_mask(valid_bits as nat), bit as u64);
                    lemma_masked_zeros(bit_len as nat, words, word_index as int, valid_bits as nat, bit as int);
                    lemma_div64(word_index as int, bit as int);
                }
                return Some(word_index * 64 + bit);
            }
            within = within - count;
            proof {
                if word_index + 1 < word_end {
                    assert(valid_bits == 64) by {
                        lemma_superblock_step(n);
                    }
                }
                if word_index + 1 == word_end {
                    assert(64 * word_index + valid_bits == if 64 * word_end <= bit_len { 64 * word_end } else { bit_len });
                }
            }
            word_index = word_index + 1;
        }
        proof {
            assert(false);
        }
        None
    }
}

proof fn lemma_shift_step(x: u64, k: u64)
    by (bit_vector)
    requires
        k < 64,
        x >> ((k + 1) as u64) == 0u64,
        (x >> k) & 1u64 != 1u64,
    ensures
        x >> k == 0u64,
{
}

/// A word none of whose bits at or above `k` is set shifts to zero by `k`.
pub(crate) proof fn lemma_zero_from_bits(x: u64, k: int)
    requires
        0 <= k <= 64,
        forall|j: int| k <= j < 64 ==> !#[trigger] word_bit(x, j),
    ensures
        x >> (k as u64) == 0u64,
    decreases 64 - k,
{
    if k == 64 {
        assert(x >> 64u64 == 0u64) by (bit_vector);
    } else {
        lemma_zero_from_bits(x, k + 1);
        assert(!word_bit(x, k));
        lemma_shift_step(x, k as u64);
    }
}

/// Clear padding bits mean a zero padding value.
proof fn lemma_padding_value(bit_len: nat, words: Seq<u64>)
    requires
        words.len() == spec_word_count(bit_len),
        padding_clear(bit_len, words),
    ensures
        nonzero_padding(bit_len, words) == 0,
{
    if bit_len % 64 != 0 {
        let q = (bit_len / 64) as int;
        let r = (bit_len % 64) as int;
        let m = spec_low_mask(r as nat);
        let last = words.last();
        let v = last & !m;
        assert(words.len() == q + 1);
        assert forall|j: int| 0 <= j < 64 implies !#[trigger] word_bit(v, j) by {
            let ju = j as u64;
            lemma_and_bit(last, !m, ju);
            lemma_low_mask_bits(r as u64, m, ju);
            assert(((!m) >> ju) & 1u64 == 1u64 <==> (m >> ju) & 1u64 != 1u64) by (bit_vector)
                requires
                    ju < 64,
            ;
            if word_bit(last, j) && j >= r {
                lemma_div64(q, j);
                assert(bit_at(words, 64 * q + j));
            }
        }
        lemma_zero_from_bits(v, 0);
        assert(v >> 0u64 == v) by (bit_vector);
    }
}

proof fn lemma_or_bit(x: u64, b: u64, j: u64)
    by (bit_vector)
    requires
        b < 64,
        j < 64,
    ensures
        (((x | (1u64 << b)) >> j) & 1u64 == 1u64) <==> ((x >> j) & 1u64 == 1u64 || j == b),
{
}

/// Checked length after appending, against an explicit maximum.
pub fn checked_appended_len(current_bits: usize, additional_bits: usize, max_bits: usize) -> (result: Result<
    usize,
    BitVectorError,
>)
    ensures
        current_bits + additional_bits > usize::MAX ==> result == Err::<usize, BitVectorError>(
            BitVectorError::LengthOverflow { current_bits, additional_bits },
        ),
        current_bits + additional_bits <= usize::MAX && current_bits + additional_bits > max_bits ==> result == Err::<
            usize,
            BitVectorError,
        >(BitVectorError::BitLimitExceeded { attempted_bits: (current_bits + additional_bits) as usize, max_bits }),
        current_bits + additional_bits <= max_bits ==> result == Ok::<usize, BitVectorError>(
            (current_bits + additional_bits) as usize,
        ),
{
    let attempted_bits = match current_bits.checked_add(additional_bits) {
        Some(v) => v,
        None => return Err(BitVectorError::LengthOverflow { current_bits, additional_bits }),
    };
    if attempted_bits > max_bits {
        return Err(BitVectorError::BitLimitExceeded { attempted_bits, max_bits });
    }
    Ok(attempted_bits)
}

/// Fallible canonical word builder for [`SuccinctBitVector`].
///
/// The maximum is immutable and checked before any mutating append. Slice
/// extension is transactional with respect to limit and allocation failures:
/// either every bit is appended or the builder is unchanged. Unused bits in
/// the final word are always zero.
#[derive(Debug, Eq, PartialEq)]
pub struct SuccinctBitVectorBuilder {
    max_bits: usize,
    bit_len: usize,
    words: Vec<u64>,
}

impl View for SuccinctBitVectorBuilder {
    type V = Seq<bool>;

    /// The bits appended so far.
    closed spec fn view(&self) -> Seq<bool> {
        bits_of(self.bit_len as nat, self.words@)
    }
}

impl Clone for SuccinctBitVectorBuilder {
    fn clone(&self) -> (copy: Self)
        ensures
            copy@ == self@,
            copy.spec_max_bits() == self.spec_max_bits(),
            copy.spec_words() == self.spec_words(),
    {
        proof {
            use_type_invariant(self);
        }
        let words = self.words.clone();
        proof {
            assert(words@ =~= self.words@);
        }
        SuccinctBitVectorBuilder { max_bits: self.max_bits, bit_len: self.bit_len, words }
    }
}

impl SuccinctBitVectorBuilder {
    #[verifier::type_invariant]
    spec fn well_formed(self) -> bool {
        &&& self.words@.len() == spec_word_count(self.bit_len as nat)
        &&& padding_clear(self.bit_len as nat, self.words@)
        &&& self.bit_len <= self.max_bits
    }

    /// Immutable maximum logical length.
    pub closed spec fn spec_max_bits(self) -> usize {
        self.max_bits
    }

    /// Packed words accumulated so far.
    pub closed spec fn spec_words(self) -> Seq<u64> {
        self.words@
    }

    /// Creates an empty builder without allocating.
    pub fn new(max_bits: usize) -> (builder: Self)
        ensures
            builder@ == Seq::<bool>::empty(),
            builder.spec_max_bits() == max_bits,
    {
        let builder = SuccinctBitVectorBuilder { max_bits, bit_len: 0, words: Vec::new() };
        proof {
            assert(builder@ =~= Seq::<bool>::empty());
        }
        builder
    }

    /// Creates an empty builder and fallibly reserves words for
    /// `capacity_bits`, which may not exceed `max_bits`.
    pub fn try_with_capacity(max_bits: usize, capacity_bits: usize) -> (result: Result<Self, BitVectorError>)
        ensures
            capacity_bits > max_bits ==> result == Err::<Self, BitVectorError>(
                BitVectorError::BitLimitExceeded { attempted_bits: capacity_bits, max_bits },
            ),
            capacity_bits <= max_bits ==> match result {
                Ok(b) => b@ == Seq::<bool>::empty() && b.spec_max_bits() == max_bits,
                Err(e) => e == BitVectorError::AllocationFailed {
                    target: AllocationTarget::Words,
                    requested: spec_word_count(capacity_bits as nat) as usize,
                },
            },
    {
        if capacity_bits > max_bits {
            return Err(BitVectorError::BitLimitExceeded { attempted_bits: capacity_bits, max_bits });
        }
        let mut words: Vec<u64> = Vec::new();
        let requested = word_count(capacity_bits);
        if !try_reserve_exact(&mut words, requested) {
            return Err(BitVectorError::AllocationFailed { target: AllocationTarget::Words, requested });
        }
        let builder = SuccinctBitVectorBuilder { max_bits, bit_len: 0, words };
        proof {
            assert(builder@ =~= Seq::<bool>::empty());
        }
        Ok(builder)
    }

    /// Current logical length.
    pub fn len(&self) -> (len: usize)
        ensures
            len == self@.len(),
    {
        self.bit_len
    }

    /// Whether no bits have been appended.
    pub fn is_empty(&self) -> (empty: bool)
        ensures
            empty == (self@.len() == 0),
    {
        self.bit_len == 0
    }

    /// Immutable maximum logical length.
    pub fn max_bits(&self) -> (max_bits: usize)
        ensures
            max_bits == self.spec_max_bits(),
    {
        self.max_bits
    }

    /// Bits that may still be appended before reaching the maximum.
    pub fn remaining_bits(&self) -> (remaining: usize)
        ensures
            remaining == self.spec_max_bits() - self@.len(),
    {
        proof {
            use_type_invariant(self);
        }
        self.max_bits - self.bit_len
    }

    /// Current packed-word length.
    pub fn word_len(&self) -> (words: usize)
        ensures
            words == spec_word_count(self@.len()),
            words == self.spec_words().len(),
    {
        proof {
            use_type_invariant(self);
        }
        self.words.len()
    }

    /// Packed-word capacity retained by the allocator.
    pub fn word_capacity(&self) -> (capacity: usize)
        ensures
            capacity >= self.spec_words().len(),
    {
        vec_capacity(&self.words)
    }

    /// Logical capacity available without another word allocation, capped at
    /// the explicit maximum.
    pub fn capacity_bits(&self) -> (bits: usize)
        ensures
            self@.len() <= bits <= self.spec_max_bits(),
            exists|words: usize|
                words >= self.spec_words().len() && bits == #[trigger] capped_bits(
                    words,
                    self.spec_max_bits(),
                ),
    {
        proof {
            use_type_invariant(self);
        }
        let maximum_words = word_count(self.max_bits);
        let capacity = vec_capacity(&self.words);
        let bits = if capacity >= maximum_words {
            self.max_bits
        } else {
            capacity * 64
        };
        proof {
            assert(bits == capped_bits(capacity, self.spec_max_bits()));
        }
        bits
    }

    /// Bits appendable without a word allocation.
    pub fn spare_capacity_bits(&self) -> (bits: usize)
        ensures
            bits <= self.spec_max_bits() - self@.len(),
            exists|words: usize|
                words >= self.spec_words().len() && bits + self@.len() == #[trigger] capped_bits(
                    words,
                    self.spec_max_bits(),
                ),
    {
        proof {
            use_type_invariant(self);
        }
        self.capacity_bits() - self.bit_len
    }

    /// Bytes occupied by the current logical words.
    pub fn logical_word_bytes(&self) -> (bytes: usize)
        ensures
            bytes == 8 * spec_word_count(self@.len()),
    {
        proof {
            use_type_invariant(self);
        }
        self.words.len() * 8
    }

    /// Bytes represented by the word vector's element capacity.
    pub fn retained_word_bytes(&self) -> (bytes: usize)
        ensures
            bytes >= 8 * spec_word_count(self@.len()),
            bytes % 8 == 0,
    {
        broadcast use layout_of_primitives;

        proof {
            use_type_invariant(self);
        }
        vec_capacity(&self.words) * 8
    }

    /// Packed words accumulated so far; unused bits of the final word are
    /// zero.
    pub fn as_words(&self) -> (words: &[u64])
        ensures
            words@ == self.spec_words(),
            words@.len() == spec_word_count(self@.len()),
            nonzero_padding(self@.len(), words@) == 0,
            self@ == bits_of(self@.len(), words@),
    {
        proof {
            use_type_invariant(self);
            lemma_padding_value(self.bit_len as nat, self.words@);
        }
        self.words.as_slice()
    }

    /// Fallibly appends one bit; a failure leaves the builder unchanged.
    pub fn push(&mut self, bit: bool) -> (result: Result<(), BitVectorError>)
        ensures
            final(self).spec_max_bits() == old(self).spec_max_bits(),
            old(self)@.len() + 1 > usize::MAX ==> result == Err::<(), BitVectorError>(
                BitVectorError::LengthOverflow { current_bits: old(self)@.len() as usize, additional_bits: 1 },
            ) && final(self)@ == old(self)@,
            old(self)@.len() + 1 <= usize::MAX && old(self)@.len() + 1 > old(self).spec_max_bits() ==> result == Err::<
                (),
                BitVectorError,
            >(
                BitVectorError::BitLimitExceeded {
                    attempted_bits: (old(self)@.len() + 1) as usize,
                    max_bits: old(self).spec_max_bits(),
                },
            ) && final(self)@ == old(self)@,
            old(self)@.len() + 1 <= old(self).spec_max_bits() ==> match result {
                Ok(()) => final(self)@ == old(self)@.push(bit),
                Err(e) => final(self)@ == old(self)@ && spec_word_count((old(self)@.len() + 1) as nat)
                    > old(self).spec_words().len() && e == (BitVectorError::AllocationFailed {
                    target: AllocationTarget::Words,
                    requested: (spec_word_count((old(self)@.len() + 1) as nat) - old(self).spec_words().len()) as usize,
                }),
            },
    {
        let bits = [bit];
        let result = self.extend(&bits);
        proof {
            assert(old(self)@ + bits@ =~= old(self)@.push(bit));
        }
        result
    }

    /// Fallibly appends a bit slice. Length overflow, the explicit maximum
    /// and any allocation are checked before any word changes, so a failure
    /// leaves the builder unchanged and chunking cannot change the result.
    #[verifier::rlimit(60)]
    pub fn extend(&mut self, bits: &[bool]) -> (result: Result<(), BitVectorError>)
        ensures
            final(self).spec_max_bits() == old(self).spec_max_bits(),
            old(self)@.len() + bits@.len() > usize::MAX ==> result == Err::<(), BitVectorError>(
                BitVectorError::LengthOverflow {
                    current_bits: old(self)@.len() as usize,
                    additional_bits: bits@.len() as usize,
                },
            ) && final(self)@ == old(self)@,
            old(self)@.len() + bits@.len() <= usize::MAX && old(self)@.len() + bits@.len() > old(self).spec_max_bits()
                ==> result == Err::<(), BitVectorError>(
                BitVectorError::BitLimitExceeded {
                    attempted_bits: (old(self)@.len() + bits@.len()) as usize,
                    max_bits: old(self).spec_max_bits(),
                },
            ) && final(self)@ == old(self)@,
            old(self)@.len() + bits@.len() <= old(self).spec_max_bits() ==> match result {
                Ok(()) => final(self)@ == old(self)@ + bits@,
                Err(e) => final(self)@ == old(self)@ && spec_word_count(
                    (old(self)@.len() + bits@.len()) as nat,
                ) > old(self).spec_words().len() && e == (BitVectorError::AllocationFailed {
                    target: AllocationTarget::Words,
                    requested: (spec_word_count((old(self)@.len() + bits@.len()) as nat)
                        - old(self).spec_words().len()) as usize,
                }),
            },
    {
        proof {
            use_type_invariant(&*self);
        }
        let target_len = match checked_appended_len(self.bit_len, bits.len(), self.max_bits) {
            Ok(v) => v,
            Err(e) => return Err(e),
        };
        let target_words = word_count(target_len);
        let ghost old_view = self@;
        let mut taken = SuccinctBitVectorBuilder::new(self.max_bits);
        std::mem::swap(self, &mut taken);
        let SuccinctBitVectorBuilder { max_bits, bit_len, mut words } = taken;
        let ghost old_words = words@;
        assert(old_view == bits_of(bit_len as nat, old_words));
        if target_words > words.len() {
            let additional = target_words - words.len();
            if !try_reserve_exact(&mut words, additional) {
                *self = SuccinctBitVectorBuilder { max_bits, bit_len, words };
                return Err(BitVectorError::AllocationFailed { target: AllocationTarget::Words, requested: additional });
            }
            while words.len() < target_words
                invariant
                    old_words.len() <= words@.len() <= target_words,
                    words@.subrange(0, old_words.len() as int) == old_words,
                    forall|w: int| old_words.len() <= w < words@.len() ==> #[trigger] words@[w] == 0u64,
                decreases target_words - words.len(),
            {
                words.push(0);
            }
        }
        let ghost combined = old_view + bits@;
        proof {
            assert(spec_word_count(bit_len as nat) <= target_words);
            assert forall|i: int| 0 <= i < 64 * words@.len() implies #[trigger] bit_at(words@, i) == (i < bit_len
                && old_view[i]) by {
                lemma_div64(i / 64, i % 64);
                if i / 64 < old_words.len() {
                    assert(words@[i / 64] == old_words[i / 64]);
                    if i >= bit_len {
                        assert(!bit_at(old_words, i));
                    }
                } else {
                    assert(words@[i / 64] == 0u64);
                    let sh = (i % 64) as u64;
                    assert((0u64 >> sh) & 1u64 != 1u64) by (bit_vector);
                }
            }
        }
        let mut offset: usize = 0;
        while offset < bits.len()
            invariant
                words@.len() == target_words,
                target_words == spec_word_count(target_len as nat),
                target_len == bit_len + bits@.len(),
                combined == old_view + bits@,
                old_view.len() == bit_len,
                offset <= bits@.len(),
                forall|i: int| 0 <= i < 64 * words@.len() ==> #[trigger] bit_at(words@, i) == (i < bit_len + offset
                    && combined[i]),
            decreases bits@.len() - offset,
        {
            if bits[offset] {
                let bit_index = bit_len + offset;
                let word_index = bit_index / 64;
                let shift = (bit_index % 64) as u64;
                let ghost before = words@;
                let updated = words[word_index] | (1u64 << shift);
                words.set(word_index, updated);
                proof {
                    lemma_div64(word_index as int, shift as int);
                    assert forall|i: int| 0 <= i < 64 * words@.len() implies #[trigger] bit_at(words@, i) == (i < bit_len
                        + offset + 1 && combined[i]) by {
                        lemma_div64(i / 64, i % 64);
                        assert(bit_at(before, i) == (i < bit_len + offset && combined[i]));
                        if i / 64 == word_index {
                            lemma_or_bit(before[word_index as int], shift, (i % 64) as u64);
                        }
                    }
                }
            } else {
                proof {
                    assert forall|i: int| 0 <= i < 64 * words@.len() implies #[trigger] bit_at(words@, i) == (i < bit_len
                        + offset + 1 && combined[i]) by {
                        assert(bit_at(words@, i) == (i < bit_len + offset && combined[i]));
                    }
                }
            }
            offset = offset + 1;
        }
        *self = SuccinctBitVectorBuilder { max_bits, bit_len: target_len, words };
        proof {
            assert(self@ =~= combined);
        }
        Ok(())
    }

    /// Finishes the vector and fallibly builds its rank directories; the
    /// packed word vector moves into the result without a copy.
    pub fn finish(self) -> (result: Result<SuccinctBitVector, BitVectorError>)
        ensures
            match result {
                Ok(v) => v@ == self@,
                Err(e) => e is AllocationFailed || e == BitVectorError::SizeOverflow {
                    target: AllocationTarget::StorageAccounting,
                },
            },
    {
        proof {
            use_type_invariant(&self);
            lemma_padding_value(self.bit_len as nat, self.words@);
        }
        let ghost view = self@;
        let SuccinctBitVectorBuilder { max_bits: _, bit_len, words } = self;
        SuccinctBitVector::try_from_words(bit_len, words)
    }
}

impl SuccinctBitVector {
    /// Constructs a canonical vector from a logical bit slice; the word and
    /// directory allocations are fallible.
    pub fn try_from_bits(bits: &[bool]) -> (result: Result<Self, BitVectorError>)
        ensures
            match result {
                Ok(v) => v@ == bits@,
                Err(e) => e is AllocationFailed || e == BitVectorError::SizeOverflow {
                    target: AllocationTarget::StorageAccounting,
                },
            },
    {
        let mut builder = match SuccinctBitVectorBuilder::try_with_capacity(bits.len(), bits.len()) {
            Ok(b) => b,
            Err(e) => return Err(e),
        };
        match builder.extend(bits) {
            Ok(()) => {},
            Err(e) => return Err(e),
        }
        proof {
            assert(Seq::<bool>::empty() + bits@ =~= bits@);
        }
        builder.finish()
    }
}

impl SuccinctBitVector {
    /// Byte accounting of the exact array lengths.
    pub fn storage_breakdown(&self) -> (storage: StorageBreakdown)
        ensures
            storage.accounts(
                spec_word_count(self@.len()),
                superblock_count(spec_word_count(self@.len())) + 1,
                spec_word_count(self@.len()),
            ),
    {
        proof {
            use_type_invariant(self);
        }
        self.logical_storage
    }

    /// Exact total bytes of the heap-owned arrays, by their lengths.
    pub fn logical_storage_bytes(&self) -> (bytes: usize)
        ensures
            bytes == 8 * spec_word_count(self@.len()) + usize_bytes() * (superblock_count(
                spec_word_count(self@.len()),
            ) + 1) + 2 * spec_word_count(self@.len()),
    {
        proof {
            use_type_invariant(self);
        }
        self.logical_storage.total_bytes()
    }

    /// Byte accounting of the three backing vectors' capacities, which the
    /// allocator chose and which are never below their lengths.
    pub fn retained_storage_breakdown(&self) -> (storage: StorageBreakdown)
        ensures
            storage == self.spec_retained(),
            storage.spec_word_bytes() >= 8 * spec_word_count(self@.len()),
            storage.spec_rank_superblock_bytes() >= usize_bytes() * (superblock_count(spec_word_count(self@.len()))
                + 1),
            storage.spec_rank_subblock_bytes() >= 2 * spec_word_count(self@.len()),
            storage.spec_total_bytes() == storage.spec_word_bytes() + storage.spec_rank_superblock_bytes()
                + storage.spec_rank_subblock_bytes(),
    {
        proof {
            use_type_invariant(self);
        }
        self.retained_storage
    }

    /// Total bytes of the three backing vectors' capacities.
    pub fn retained_storage_bytes(&self) -> (bytes: usize)
        ensures
            bytes == self.spec_retained().spec_total_bytes(),
    {
        self.retained_storage.total_bytes()
    }

    /// Compares the logical length and canonical words.
    fn same_bits(&self, other: &Self) -> (same: bool)
        ensures
            same == (self@.len() == other@.len() && self.spec_words() == other.spec_words()),
    {
        if self.bit_len != other.bit_len || self.words.len() != other.words.len() {
            return false;
        }
        let mut i: usize = 0;
        while i < self.words.len()
            invariant
                self.words@.len() == other.words@.len(),
                i <= self.words@.len(),
                forall|j: int| 0 <= j < i ==> self.words@[j] == other.words@[j],
            decreases self.words@.len() - i,
        {
            if self.words[i] != other.words[i] {
                return false;
            }
            i = i + 1;
        }
        proof {
            assert(self.words@ =~= other.words@);
        }
        true
    }

    /// Ascending iterator over one-bit positions.
    pub fn iter_ones(&self) -> (ones: Ones<'_>)
        ensures
            ones.spec_bits() == self@,
            ones.spec_emitted() == 0,
    {
        Ones { vector: self, next_ordinal: 0 }
    }
}

impl PartialEq for SuccinctBitVector {
    fn eq(&self, other: &Self) -> (equal: bool) {
        self.same_bits(other)
    }
}

impl Eq for SuccinctBitVector {
}

impl vstd::std_specs::cmp::PartialEqSpecImpl for SuccinctBitVector {
    open spec fn obeys_eq_spec() -> bool {
        true
    }

    open spec fn eq_spec(&self, other: &Self) -> bool {
        self@.len() == other@.len() && self.spec_words() == other.spec_words()
    }
}

/// Ascending iterator over the one-bit positions of a vector.
#[derive(Clone, Copy, Debug)]
pub struct Ones<'a> {
    vector: &'a SuccinctBitVector,
    next_ordinal: usize,
}

impl<'a> Ones<'a> {
    #[verifier::type_invariant]
    spec fn within_count(self) -> bool {
        self.next_ordinal <= self.vector.spec_count_ones()
    }

    /// Bits of the vector being iterated.
    pub closed spec fn spec_bits(self) -> Seq<bool> {
        self.vector@
    }

    /// Number of positions already produced.
    pub closed spec fn spec_emitted(self) -> nat {
        self.next_ordinal as nat
    }

    /// The next one-bit position: the one bit whose rank is the number of
    /// positions produced so far. `None` once every one bit was produced,
    /// and on every later call.
    pub fn next(&mut self) -> (one: Option<usize>)
        ensures
            final(self).spec_bits() == old(self).spec_bits(),
            old(self).spec_emitted() >= ones_before(old(self).spec_bits(), old(self).spec_bits().len() as int) ==> (
            one is None && final(self).spec_emitted() == old(self).spec_emitted()),
            old(self).spec_emitted() < ones_before(old(self).spec_bits(), old(self).spec_bits().len() as int) ==> (
            one matches Some(p) && p < old(self).spec_bits().len() && old(self).spec_bits()[p as int] && ones_before(
                old(self).spec_bits(),
                p as int,
            ) == old(self).spec_emitted() && final(self).spec_emitted() == old(self).spec_emitted() + 1),
    {
        proof {
            use_type_invariant(&*self);
            use_type_invariant(self.vector);
            self.vector.lemma_one_count();
        }
        let vector = self.vector;
        let ordinal = self.next_ordinal;
        match vector.select1(ordinal) {
            Some(position) => {
                *self = Ones { vector, next_ordinal: ordinal + 1 };
                Some(position)
            },
            None => None,
        }
    }

    /// Exact number of positions still to come.
    pub fn len(&self) -> (remaining: usize)
        ensures
            remaining == ones_before(self.spec_bits(), self.spec_bits().len() as int) - self.spec_emitted(),
    {
        proof {
            use_type_invariant(self);
        }
        self.vector.count_ones() - self.next_ordinal
    }
}

proof fn lemma_xor_step(x: u64, y: u64, k: u64)
    by (bit_vector)
    requires
        k < 64,
        (x >> ((k + 1) as u64)) == (y >> ((k + 1) as u64)),
        ((x >> k) & 1u64 == 1u64) == ((y >> k) & 1u64 == 1u64),
    ensures
        x >> k == y >> k,
{
}

/// Words that agree on every bit at or above `k` agree after shifting by
/// `k`.
proof fn lemma_equal_from_bits(x: u64, y: u64, k: int)
    requires
        0 <= k <= 64,
        forall|j: int| k <= j < 64 ==> #[trigger] word_bit(x, j) == word_bit(y, j),
    ensures
        x >> (k as u64) == y >> (k as u64),
    decreases 64 - k,
{
    if k == 64 {
        assert(x >> 64u64 == 0u64 && y >> 64u64 == 0u64) by (bit_vector);
    } else {
        lemma_equal_from_bits(x, y, k + 1);
        assert(word_bit(x, k) == word_bit(y, k));
        lemma_xor_step(x, y, k as u64);
    }
}

/// Canonical representation: two canonical word sequences that hold the
/// same logical bits are the same words. Equal logical vectors therefore
/// always expose equal words.
pub proof fn law_canonical_words(bit_len: nat, a: Seq<u64>, b: Seq<u64>)
    requires
        a.len() == spec_word_count(bit_len),
        b.len() == spec_word_count(bit_len),
        nonzero_padding(bit_len, a) == 0,
        nonzero_padding(bit_len, b) == 0,
        bits_of(bit_len, a) == bits_of(bit_len, b),
    ensures
        a == b,
{
    lemma_padding_clear(bit_len, a);
    lemma_padding_clear(bit_len, b);
    assert forall|w: int| 0 <= w < a.len() implies a[w] == b[w] by {
        assert forall|j: int| 0 <= j < 64 implies #[trigger] word_bit(a[w], j) == word_bit(b[w], j) by {
            lemma_div64(w, j);
            let i = 64 * w + j;
            assert(bit_at(a, i) == word_bit(a[w], j));
            assert(bit_at(b, i) == word_bit(b[w], j));
            if i < bit_len {
                assert(bits_of(bit_len, a)[i] == bit_at(a, i));
                assert(bits_of(bit_len, b)[i] == bit_at(b, i));
                assert(bits_of(bit_len, a)[i] == bits_of(bit_len, b)[i]);
            } else {
                assert(i < 64 * a.len());
                assert(!bit_at(a, i));
                assert(!bit_at(b, i));
            }
        }
        let x = a[w];
        let y = b[w];
        lemma_equal_from_bits(x, y, 0);
        assert(x >> 0u64 == x && y >> 0u64 == y) by (bit_vector);
    }
    assert(a =~= b);
}

/// Select is well defined: distinct one bits have distinct ranks, and
/// distinct zero bits have distinct zero ranks.
pub proof fn law_rank_separates_positions(bits: Seq<bool>, p: int, q: int)
    requires
        0 <= p < q < bits.len(),
    ensures
        bits[p] ==> ones_before(bits, p) < ones_before(bits, q),
        !bits[p] ==> zeros_before(bits, p) < zeros_before(bits, q),
{
    lemma_ones_before_monotone(bits, p + 1, q);
}

/// The `Debug` name of a representation component.
pub open spec fn target_name(target: AllocationTarget) -> Seq<char> {
    match target {
        AllocationTarget::Words => "Words"@,
        AllocationTarget::RankSuperblocks => "RankSuperblocks"@,
        AllocationTarget::RankSubblocks => "RankSubblocks"@,
        AllocationTarget::StorageAccounting => "StorageAccounting"@,
    }
}

fn push_target(out: &mut String, target: AllocationTarget)
    ensures
        final(out)@ == old(out)@ + target_name(target),
{
    match target {
        AllocationTarget::Words => push_text(out, "Words"),
        AllocationTarget::RankSuperblocks => push_text(out, "RankSuperblocks"),
        AllocationTarget::RankSubblocks => push_text(out, "RankSubblocks"),
        AllocationTarget::StorageAccounting => push_text(out, "StorageAccounting"),
    }
}

/// Diagnostic text of a construction failure; padding prints as sixteen
/// zero-padded lowercase hexadecimal digits after `0x`.
pub open spec fn bit_vector_error_text(error: BitVectorError) -> Seq<char> {
    match error {
        BitVectorError::WordCountMismatch { bit_len, expected_words, actual_words } => "bit length "@
            + decimal(bit_len as nat) + " requires exactly "@ + decimal(expected_words as nat)
            + " words, got "@ + decimal(actual_words as nat),
        BitVectorError::NonZeroPadding { bit_len, word_index, non_zero_padding, .. } => "word "@
            + decimal(word_index as nat) + " has non-zero padding 0x"@ + hex_fixed(
            non_zero_padding as nat,
            16,
        ) + " outside bit length "@ + decimal(bit_len as nat),
        BitVectorError::BitLimitExceeded { attempted_bits, max_bits } => "bitvector builder would reach "@
            + decimal(attempted_bits as nat) + " bits, maximum is "@ + decimal(max_bits as nat),
        BitVectorError::LengthOverflow { current_bits, additional_bits } => "adding "@ + decimal(
            additional_bits as nat,
        ) + " bits to builder length "@ + decimal(current_bits as nat) + " overflowed"@,
        BitVectorError::SizeOverflow { target } => target_name(target)
            + " representation size overflowed"@,
        BitVectorError::AllocationFailed { target, requested } => "could not reserve "@ + decimal(
            requested as nat,
        ) + " elements for "@ + target_name(target),
    }
}

impl BitVectorError {
    /// Human-readable diagnostic.
    pub fn message(&self) -> (text: String)
        ensures
            text@ == bit_vector_error_text(*self),
    {
        match *self {
            BitVectorError::WordCountMismatch { bit_len, expected_words, actual_words } => {
                let mut out = "bit length ".to_owned();
                push_decimal(&mut out, bit_len as u64);
                push_text(&mut out, " requires exactly ");
                push_decimal(&mut out, expected_words as u64);
                push_text(&mut out, " words, got ");
                push_decimal(&mut out, actual_words as u64);
                out
            },
            BitVectorError::NonZeroPadding { bit_len, word_index, non_zero_padding, .. } => {
                let mut out = "word ".to_owned();
                push_decimal(&mut out, word_index as u64);
                push_text(&mut out, " has non-zero padding 0x");
                push_hex_fixed(&mut out, non_zero_padding, 16);
                push_text(&mut out, " outside bit length ");
                push_decimal(&mut out, bit_len as u64);
                out
            },
            BitVectorError::BitLimitExceeded { attempted_bits, max_bits } => {
                let mut out = "bitvector builder would reach ".to_owned();
                push_decimal(&mut out, attempted_bits as u64);
                push_text(&mut out, " bits, maximum is ");
                push_decimal(&mut out, max_bits as u64);
                out
            },
            BitVectorError::LengthOverflow { current_bits, additional_bits } => {
                let mut out = "adding ".to_owned();
                push_decimal(&mut out, additional_bits as u64);
                push_text(&mut out, " bits to builder length ");
                push_decimal(&mut out, current_bits as u64);
                push_text(&mut out, " overflowed");
                out
            },
            BitVectorError::SizeOverflow { target } => {
                let mut out = String::new();
                push_target(&mut out, target);
                push_text(&mut out, " representation size overflowed");
                proof {
                    assert(out@ =~= target_name(target) + " representation size overflowed"@);
                }
                out
            },
            BitVectorError::AllocationFailed { target, requested } => {
                let mut out = "could not reserve ".to_owned();
                push_decimal(&mut out, requested as u64);
                push_text(&mut out, " elements for ");
                push_target(&mut out, target);
                out
            },
        }
    }
}

} // verus!
