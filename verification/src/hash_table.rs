//! Deterministic, safe scalar open-addressed hash table.
//!
//! Hash policy is explicit, probe order is bounded, and control metadata is
//! stored separately from keys and values, so one control-byte group can be
//! inspected at a time without changing the table's observable semantics.
//! Probing visits groups of sixteen consecutive buckets, wrapping, from the
//! key's home bucket; a lookup stops at the first never-used bucket.

use vstd::prelude::*;
use crate::probe::{
    clear_below, classifies, is_pow2, is_power_of_two, lane_bit, scalar_control_group_dispatch, tag_of_hash,
    ControlGroup, ControlTag, DELETED_CONTROL, EMPTY_CONTROL,
};
use crate::seeded_hash::{le_bytes, seeded_hash, SeededHasher};
use crate::vec_alloc::try_reserve_exact;
use vstd::arithmetic::div_mod::lemma_fundamental_div_mod_converse;

verus! {

/// Keys a deterministic table can hold: a stable seeded hash and an
/// equality that is the identity of keys. Equal keys hash equally.
pub trait TableKey: Sized {
    /// The stable hash of this key under `seed`. Every implementation
    /// verified in this crate defines it, and its `key_hash` is proved to
    /// return it. Implementations written outside verified code (which
    /// cannot define a spec function) inherit this default, which states
    /// nothing true of their `key_hash`: for such keys the table relies only
    /// on `key_hash` returning the same value for the same key and seed in
    /// every process, an obligation each such implementation owes and Verus
    /// does not check.
    open spec fn spec_key_hash(&self, seed: u64) -> u64 {
        0
    }

    /// Computes the stable hash of this key under `seed`.
    fn key_hash(&self, seed: u64) -> (hash: u64)
        ensures
            hash == self.spec_key_hash(seed),
    ;

    /// Whether two keys are the same key.
    fn key_eq(&self, other: &Self) -> (equal: bool)
        ensures
            equal == (*self == *other),
    ;
}

impl TableKey for u64 {
    /// Eight little-endian bytes through the seeded hasher.
    open spec fn spec_key_hash(&self, seed: u64) -> u64 {
        seeded_hash(seed, le_bytes(*self as nat, 8))
    }

    fn key_hash(&self, seed: u64) -> (hash: u64) {
        let mut hasher = SeededHasher::new(seed);
        hasher.write_u64(*self);
        proof {
            assert(Seq::<u8>::empty() + le_bytes(*self as nat, 8) =~= le_bytes(*self as nat, 8));
        }
        hasher.finish()
    }

    fn key_eq(&self, other: &Self) -> (equal: bool) {
        *self == *other
    }
}

/// Failure from checked table allocation or capacity arithmetic.
#[derive(Clone, Copy, Debug, Eq, PartialEq, Structural)]
pub enum HashTableError {
    /// The requested logical capacity cannot be represented.
    CapacityOverflow,
    /// The allocator rejected a checked reservation.
    AllocationFailed,
    /// Private control metadata and entry storage disagreed.
    InvariantViolation,
}

/// One live entry with its cached full hash.
#[derive(Debug)]
pub struct Entry<K, V> {
    hash: u64,
    key: K,
    value: V,
}

/// Smallest nonzero bucket count.
pub const MIN_BUCKETS: usize = 16;

/// Live entries that fit in `buckets` before growth: seven eighths.
pub open spec fn spec_max_live(buckets: int) -> int {
    buckets - buckets / 8
}

/// Live entries that fit in `buckets` before growth.
fn max_live_entries(buckets: usize) -> (live: usize)
    ensures
        live == spec_max_live(buckets as int),
{
    buckets - buckets / 8
}

/// The first of `buckets`, `2 * buckets`, ... that holds `entries` live
/// entries, or `None` when doubling leaves `usize`.
pub open spec fn bucket_target(buckets: nat, entries: nat) -> Option<nat>
    decreases usize::MAX + 1 - buckets,
{
    if buckets == 0 || buckets > usize::MAX {
        None
    } else if spec_max_live(buckets as int) >= entries {
        Some(buckets)
    } else if 2 * buckets > usize::MAX {
        None
    } else {
        bucket_target(2 * buckets, entries)
    }
}

/// Bucket count needed for `entries` live entries: zero for none, else the
/// first power-of-two multiple of sixteen that holds them.
pub open spec fn required_buckets(entries: nat) -> Option<nat> {
    if entries == 0 {
        Some(0)
    } else {
        bucket_target(16, entries)
    }
}

/// A usable bucket count: none, or a power of two of at least sixteen.
pub open spec fn valid_bucket_count(buckets: nat) -> bool {
    buckets == 0 || (buckets >= 16 && is_pow2(buckets))
}

proof fn lemma_pow2_double(b: nat)
    requires
        is_pow2(b),
    ensures
        is_pow2(2 * b),
{
    assert((2 * b) / 2 == b);
}

proof fn lemma_pow2_sixteen()
    ensures
        is_pow2(16),
{
    assert(is_pow2(1));
    assert(is_pow2(2));
    assert(is_pow2(4));
    assert(is_pow2(8));
    assert(is_pow2(16));
}

proof fn lemma_bucket_target(buckets: nat, entries: nat)
    requires
        buckets >= 16,
        is_pow2(buckets),
    ensures
        bucket_target(buckets, entries) matches Some(b) ==> b >= 16 && is_pow2(b) && b <= usize::MAX
            && spec_max_live(b as int) >= entries,
    decreases usize::MAX + 1 - buckets,
{
    if buckets <= usize::MAX && spec_max_live(buckets as int) < entries && 2 * buckets <= usize::MAX {
        lemma_pow2_double(buckets);
        lemma_bucket_target(2 * buckets, entries);
    }
}

/// Bucket count needed for `entries` live entries.
fn required_bucket_count(entries: usize) -> (result: Result<usize, HashTableError>)
    ensures
        match required_buckets(entries as nat) {
            Some(b) => result == Ok::<usize, HashTableError>(b as usize),
            None => result == Err::<usize, HashTableError>(HashTableError::CapacityOverflow),
        },
        result matches Ok(b) ==> valid_bucket_count(b as nat) && (entries > 0 ==> spec_max_live(b as int)
            >= entries) && required_buckets(entries as nat) == Some(b as nat),
{
    if entries == 0 {
        return Ok(0);
    }
    proof {
        lemma_pow2_sixteen();
        lemma_bucket_target(16, entries as nat);
    }
    let mut buckets: usize = MIN_BUCKETS;
    while max_live_entries(buckets) < entries
        invariant
            buckets >= 16,
            is_pow2(buckets as nat),
            bucket_target(buckets as nat, entries as nat) == bucket_target(16, entries as nat),
        decreases usize::MAX - buckets,
    {
        buckets = match buckets.checked_mul(2) {
            Some(b) => b,
            None => return Err(HashTableError::CapacityOverflow),
        };
        proof {
            lemma_pow2_double((buckets / 2) as nat);
        }
    }
    Ok(buckets)
}

/// Group-at-a-time probe over a power-of-two bucket array, starting at a
/// hash's home bucket and visiting every bucket exactly once.
#[derive(Clone, Copy, Debug)]
pub struct GroupProbe {
    next_bucket: usize,
    groups_left: usize,
    buckets: usize,
}

impl GroupProbe {
    /// Start of the next group.
    pub closed spec fn spec_next(self) -> usize {
        self.next_bucket
    }

    /// Groups not yet produced.
    pub closed spec fn spec_groups_left(self) -> usize {
        self.groups_left
    }

    /// Buckets probed.
    pub closed spec fn spec_buckets(self) -> usize {
        self.buckets
    }

    /// Starts probing `buckets` buckets at the home bucket of `hash`.
    pub fn new(hash: u64, buckets: usize) -> (probe: Self)
        requires
            buckets >= 16,
            is_pow2(buckets as nat),
        ensures
            probe.spec_next() == (hash as int) % (buckets as int),
            probe.spec_groups_left() == buckets / 16,
            probe.spec_buckets() == buckets,
    {
        GroupProbe { next_bucket: (hash % (buckets as u64)) as usize, groups_left: buckets / 16, buckets }
    }

    /// Start of the next sixteen-bucket group, or `None` once every bucket
    /// was covered.
    pub fn next_group(&mut self) -> (group_start: Option<usize>)
        requires
            old(self).spec_buckets() >= 16,
            old(self).spec_next() < old(self).spec_buckets(),
        ensures
            final(self).spec_buckets() == old(self).spec_buckets(),
            old(self).spec_groups_left() == 0 ==> group_start is None && *final(self) == *old(self),
            old(self).spec_groups_left() > 0 ==> group_start == Some(old(self).spec_next())
                && final(self).spec_next() == (old(self).spec_next() + 16) % (old(self).spec_buckets() as int)
                && final(self).spec_groups_left() == old(self).spec_groups_left() - 1,
            final(self).spec_next() < final(self).spec_buckets(),
    {
        if self.groups_left == 0 {
            return None;
        }
        let current = self.next_bucket;
        let remaining = self.buckets - self.next_bucket;
        let next = if remaining > 16 {
            self.next_bucket + 16
        } else {
            16 - remaining
        };
        proof {
            let b = self.buckets as int;
            let x = current + 16;
            if remaining > 16 {
                lemma_fundamental_div_mod_converse(x, b, 0, x);
            } else {
                lemma_fundamental_div_mod_converse(x, b, 1, x - b);
            }
        }
        self.next_bucket = next;
        self.groups_left = self.groups_left - 1;
        Some(current)
    }
}

/// Number of live entries among the first `n` slots.
spec fn count_full<K, V>(entries: Seq<Option<Entry<K, V>>>, n: int) -> nat
    decreases n,
{
    if n <= 0 {
        0
    } else {
        count_full(entries, n - 1) + if entries[n - 1] is Some {
            1nat
        } else {
            0nat
        }
    }
}

/// Number of tombstones among the first `n` controls.
spec fn count_deleted(controls: Seq<u8>, n: int) -> nat
    decreases n,
{
    if n <= 0 {
        0
    } else {
        count_deleted(controls, n - 1) + if controls[n - 1] == DELETED_CONTROL {
            1nat
        } else {
            0nat
        }
    }
}

/// The key-value map held by the first `n` slots.
spec fn map_of<K, V>(entries: Seq<Option<Entry<K, V>>>, n: int) -> Map<K, V>
    decreases n,
{
    if n <= 0 {
        Map::empty()
    } else {
        match entries[n - 1] {
            Some(e) => map_of(entries, n - 1).insert(e.key, e.value),
            None => map_of(entries, n - 1),
        }
    }
}

/// A control byte agrees with its slot.
spec fn slot_ok<K: TableKey, V>(control: u8, slot: Option<Entry<K, V>>, seed: u64) -> bool {
    match slot {
        None => control == EMPTY_CONTROL || control == DELETED_CONTROL,
        Some(e) => control == tag_of_hash(e.hash) && e.hash == e.key.spec_key_hash(seed),
    }
}

/// No key occurs in two slots.
spec fn keys_unique<K, V>(entries: Seq<Option<Entry<K, V>>>) -> bool {
    forall|i: int, j: int|
        #![trigger entries[i], entries[j]]
        0 <= i < entries.len() && 0 <= j < entries.len() && i != j && entries[i] is Some && entries[j] is Some
            ==> entries[i]->0.key != entries[j]->0.key
}

/// Bucket probed at distance `d` from the home bucket of `hash`.
pub open spec fn probe_index(hash: u64, d: int, buckets: int) -> int {
    ((hash as int) % buckets + d) % buckets
}

/// Probe distance from the home bucket of `hash` to bucket `i`.
pub open spec fn probe_distance(hash: u64, i: int, buckets: int) -> int {
    (i - (hash as int) % buckets) % buckets
}

/// Every live entry is reachable from its home bucket without crossing a
/// never-used bucket.
spec fn chains_ok<K, V>(controls: Seq<u8>, entries: Seq<Option<Entry<K, V>>>) -> bool {
    forall|i: int, d: int|
        #![trigger entries[i], probe_index(entries[i]->0.hash, d, entries.len() as int)]
        0 <= i < entries.len() && entries[i] is Some && 0 <= d < probe_distance(
            entries[i]->0.hash,
            i,
            entries.len() as int,
        ) ==> controls[probe_index(entries[i]->0.hash, d, entries.len() as int)] != EMPTY_CONTROL
}

/// Consistent storage: controls match slots, keys are unique and reachable
/// from their home buckets, counts are exact and the load bound leaves a
/// never-used bucket.
spec fn storage_ok<K: TableKey, V>(seed: u64, controls: Seq<u8>, entries: Seq<Option<Entry<K, V>>>, len: nat, deleted: nat) -> bool {
    let b = entries.len() as int;
    &&& controls.len() == b
    &&& valid_bucket_count(b as nat)
    &&& forall|i: int| 0 <= i < b ==> #[trigger] slot_ok(controls[i], entries[i], seed)
    &&& keys_unique(entries)
    &&& chains_ok(controls, entries)
    &&& len == count_full(entries, b)
    &&& deleted == count_deleted(controls, b)
    &&& b > 0 ==> len + deleted <= spec_max_live(b)
}

/// Open-addressed map with an explicit hashing seed and deterministic probe
/// order. For an identical seed and operation sequence, physical iteration
/// order is identical; the table never relies on process entropy.
#[derive(Debug)]
pub struct DeterministicHashTable<K, V> {
    seed: u64,
    controls: Vec<u8>,
    entries: Vec<Option<Entry<K, V>>>,
    len: usize,
    deleted: usize,
}

impl<K: TableKey, V> View for DeterministicHashTable<K, V> {
    type V = Map<K, V>;

    /// The key-value map the table holds.
    closed spec fn view(&self) -> Map<K, V> {
        map_of(self.entries@, self.entries@.len() as int)
    }
}

impl<K: TableKey, V> DeterministicHashTable<K, V> {
    /// The table's storage is consistent: controls match slots, keys are
    /// unique and reachable from their home buckets, counts are exact and
    /// the load bound leaves a never-used bucket.
    pub closed spec fn wf(self) -> bool {
        storage_ok(self.seed, self.controls@, self.entries@, self.len as nat, self.deleted as nat)
    }

    /// The hashing seed.
    pub closed spec fn spec_seed(self) -> u64 {
        self.seed
    }

    /// Number of physical buckets.
    pub closed spec fn spec_buckets(self) -> nat {
        self.controls@.len()
    }

    /// Number of tombstones.
    pub closed spec fn spec_deleted(self) -> nat {
        self.deleted as nat
    }

    /// Control bytes in physical bucket order.
    pub closed spec fn spec_controls(self) -> Seq<u8> {
        self.controls@
    }
}

/// One bucket of the physical layout: the stored hash, key and value of a
/// live entry, or nothing.
pub type LayoutSlot<K, V> = Option<(u64, K, V)>;

/// The physical layout of a table: control bytes and buckets.
pub type Layout<K, V> = (Seq<u8>, Seq<LayoutSlot<K, V>>);

spec fn slots_of<K, V>(entries: Seq<Option<Entry<K, V>>>) -> Seq<LayoutSlot<K, V>> {
    Seq::new(
        entries.len(),
        |i: int|
            match entries[i] {
                Some(e) => Some((e.hash, e.key, e.value)),
                None => None,
            },
    )
}

impl<K: TableKey, V> DeterministicHashTable<K, V> {
    /// The buckets in physical order.
    pub closed spec fn spec_slots(self) -> Seq<LayoutSlot<K, V>> {
        slots_of(self.entries@)
    }

    /// The whole physical layout.
    pub open spec fn spec_layout(self) -> Layout<K, V> {
        (self.spec_controls(), self.spec_slots())
    }
}

/// A control byte that an insertion may take: never used or a tombstone.
pub open spec fn free_control(control: u8) -> bool {
    control == EMPTY_CONTROL || control == DELETED_CONTROL
}

/// Bucket `i` is the first free bucket on the probe sequence of `hash`.
pub open spec fn first_free_at(controls: Seq<u8>, hash: u64, i: int) -> bool {
    let b = controls.len() as int;
    &&& 0 <= i < b
    &&& free_control(controls[i])
    &&& forall|d: int|
        0 <= d < probe_distance(hash, i, b) ==> !free_control(#[trigger] controls[probe_index(hash, d, b)])
}

/// The first free bucket on the probe sequence of `hash`.
pub open spec fn first_free(controls: Seq<u8>, hash: u64) -> int {
    choose|i: int| first_free_at(controls, hash, i)
}

/// The layout after a new entry takes the first free bucket of its probe.
pub open spec fn place<K, V>(layout: Layout<K, V>, hash: u64, key: K, value: V) -> Layout<K, V> {
    let i = first_free(layout.0, hash);
    (layout.0.update(i, tag_of_hash(hash)), layout.1.update(i, Some((hash, key, value))))
}

/// A layout of `b` never-used buckets.
pub open spec fn empty_layout<K, V>(b: nat) -> Layout<K, V> {
    (Seq::new(b, |i: int| EMPTY_CONTROL), Seq::new(b, |i: int| None))
}

/// The layout of `b` buckets after the first `n` buckets of `slots` are
/// moved in, in physical order, each to the first free bucket of its probe.
pub open spec fn rebuilt<K, V>(slots: Seq<LayoutSlot<K, V>>, b: nat, n: int) -> Layout<K, V>
    decreases n,
{
    if n <= 0 {
        empty_layout(b)
    } else {
        let prev = rebuilt(slots, b, n - 1);
        match slots[n - 1] {
            Some(slot) => place(prev, slot.0, slot.1, slot.2),
            None => prev,
        }
    }
}

/// The first free bucket of a probe is unique.
proof fn lemma_first_free_unique(controls: Seq<u8>, hash: u64, i: int, j: int)
    requires
        first_free_at(controls, hash, i),
        first_free_at(controls, hash, j),
    ensures
        i == j,
{
    let b = controls.len() as int;
    lemma_probe_round_trip(hash, i, b);
    lemma_probe_round_trip(hash, j, b);
    let di = probe_distance(hash, i, b);
    let dj = probe_distance(hash, j, b);
    if di < dj {
        assert(!free_control(controls[probe_index(hash, di, b)]));
    } else if dj < di {
        assert(!free_control(controls[probe_index(hash, dj, b)]));
    }
}

/// A bucket that is the first free one is the chosen first free bucket.
proof fn lemma_first_free_is(controls: Seq<u8>, hash: u64, i: int)
    requires
        first_free_at(controls, hash, i),
    ensures
        first_free(controls, hash) == i,
{
    lemma_first_free_unique(controls, hash, first_free(controls, hash), i);
}

proof fn lemma_map_index<K, V>(entries: Seq<Option<Entry<K, V>>>, n: int, k: K) -> (i: int)
    requires
        0 <= n <= entries.len(),
        map_of(entries, n).dom().contains(k),
    ensures
        0 <= i < n,
        entries[i] is Some,
        entries[i]->0.key == k,
    decreases n,
{
    match entries[n - 1] {
        Some(e) => {
            if e.key == k {
                n - 1
            } else {
                lemma_map_index(entries, n - 1, k)
            }
        },
        None => lemma_map_index(entries, n - 1, k),
    }
}

proof fn lemma_map_value<K, V>(entries: Seq<Option<Entry<K, V>>>, n: int, i: int)
    requires
        0 <= i < n <= entries.len(),
        keys_unique(entries),
        entries[i] is Some,
    ensures
        map_of(entries, n).dom().contains(entries[i]->0.key),
        map_of(entries, n)[entries[i]->0.key] == entries[i]->0.value,
    decreases n,
{
    if i < n - 1 {
        lemma_map_value(entries, n - 1, i);
        if entries[n - 1] is Some {
            assert(entries[n - 1]->0.key != entries[i]->0.key);
        }
    }
}

proof fn lemma_map_len<K, V>(entries: Seq<Option<Entry<K, V>>>, n: int)
    requires
        0 <= n <= entries.len(),
        keys_unique(entries),
    ensures
        map_of(entries, n).dom().finite(),
        map_of(entries, n).len() == count_full(entries, n),
    decreases n,
{
    if n > 0 {
        lemma_map_len(entries, n - 1);
        if entries[n - 1] is Some {
            let k = entries[n - 1]->0.key;
            if map_of(entries, n - 1).dom().contains(k) {
                let j = lemma_map_index(entries, n - 1, k);
                assert(entries[j]->0.key == entries[n - 1]->0.key);
            }
        }
    }
}

/// The map after one slot changes: the old slot's key leaves, the new
/// slot's entry arrives.
spec fn slot_change<K, V>(map: Map<K, V>, before: Option<Entry<K, V>>, after: Option<Entry<K, V>>) -> Map<K, V> {
    let removed = match before {
        Some(e) => map.remove(e.key),
        None => map,
    };
    match after {
        Some(e) => removed.insert(e.key, e.value),
        None => removed,
    }
}

proof fn lemma_map_slot_change<K, V>(old: Seq<Option<Entry<K, V>>>, new: Seq<Option<Entry<K, V>>>, p: int)
    requires
        old.len() == new.len(),
        0 <= p < old.len(),
        forall|i: int| 0 <= i < old.len() && i != p ==> old[i] == new[i],
        keys_unique(old),
        keys_unique(new),
    ensures
        map_of(new, new.len() as int) == slot_change(map_of(old, old.len() as int), old[p], new[p]),
{
    let n = old.len() as int;
    let before = map_of(old, n);
    let after = map_of(new, n);
    let expected = slot_change(before, old[p], new[p]);
    assert forall|k: K| after.dom().contains(k) <==> expected.dom().contains(k) by {
        if after.dom().contains(k) {
            let i = lemma_map_index(new, n, k);
            if i != p {
                lemma_map_value(old, n, i);
                if old[p] is Some {
                    assert(old[p]->0.key != old[i]->0.key);
                }
            }
        }
        if expected.dom().contains(k) {
            if new[p] is Some && new[p]->0.key == k {
                lemma_map_value(new, n, p);
            } else {
                let i = lemma_map_index(old, n, k);
                assert(i != p);
                lemma_map_value(new, n, i);
            }
        }
    }
    assert forall|k: K| after.dom().contains(k) implies after[k] == expected[k] by {
        let i = lemma_map_index(new, n, k);
        lemma_map_value(new, n, i);
        if i != p {
            lemma_map_value(old, n, i);
            if old[p] is Some {
                assert(old[p]->0.key != old[i]->0.key);
            }
        }
    }
    assert(after =~= expected);
}

proof fn lemma_count_full_change<K, V>(old: Seq<Option<Entry<K, V>>>, new: Seq<Option<Entry<K, V>>>, p: int, n: int)
    requires
        old.len() == new.len(),
        0 <= p < n <= old.len(),
        forall|i: int| 0 <= i < old.len() && i != p ==> old[i] == new[i],
    ensures
        count_full(new, n) + (if old[p] is Some { 1int } else { 0int }) == count_full(old, n) + (if new[p] is Some {
            1int
        } else {
            0int
        }),
    decreases n,
{
    if n - 1 > p {
        lemma_count_full_change(old, new, p, n - 1);
    } else {
        lemma_count_full_same(old, new, p);
    }
}

proof fn lemma_count_full_same<K, V>(old: Seq<Option<Entry<K, V>>>, new: Seq<Option<Entry<K, V>>>, n: int)
    requires
        0 <= n <= old.len(),
        n <= new.len(),
        forall|i: int| 0 <= i < n ==> old[i] == new[i],
    ensures
        count_full(new, n) == count_full(old, n),
    decreases n,
{
    if n > 0 {
        lemma_count_full_same(old, new, n - 1);
    }
}

proof fn lemma_count_deleted_change(old: Seq<u8>, new: Seq<u8>, p: int, n: int)
    requires
        old.len() == new.len(),
        0 <= p < n <= old.len(),
        forall|i: int| 0 <= i < old.len() && i != p ==> old[i] == new[i],
    ensures
        count_deleted(new, n) + (if old[p] == DELETED_CONTROL { 1int } else { 0int }) == count_deleted(old, n) + (
        if new[p] == DELETED_CONTROL {
            1int
        } else {
            0int
        }),
    decreases n,
{
    if n - 1 > p {
        lemma_count_deleted_change(old, new, p, n - 1);
    } else {
        lemma_count_deleted_same(old, new, p);
    }
}

proof fn lemma_count_deleted_same(old: Seq<u8>, new: Seq<u8>, n: int)
    requires
        0 <= n <= old.len(),
        n <= new.len(),
        forall|i: int| 0 <= i < n ==> old[i] == new[i],
    ensures
        count_deleted(new, n) == count_deleted(old, n),
    decreases n,
{
    if n > 0 {
        lemma_count_deleted_same(old, new, n - 1);
    }
}

/// Counts of a slot range of all-empty slots.
proof fn lemma_counts_empty<K, V>(controls: Seq<u8>, entries: Seq<Option<Entry<K, V>>>, n: int)
    requires
        0 <= n <= controls.len(),
        n <= entries.len(),
        forall|i: int| 0 <= i < n ==> #[trigger] controls[i] == EMPTY_CONTROL,
        forall|i: int| 0 <= i < n ==> #[trigger] entries[i] is None,
    ensures
        count_full(entries, n) == 0,
        count_deleted(controls, n) == 0,
        map_of(entries, n) == Map::<K, V>::empty(),
    decreases n,
{
    if n > 0 {
        assert(entries[n - 1] is None);
        lemma_counts_empty(controls, entries, n - 1);
    }
}

/// Fingerprints never collide with the reserved control bytes.
proof fn lemma_tag_below_empty(hash: u64)
    ensures
        tag_of_hash(hash) < 0x80,
{
    assert(((hash >> 57u64) & 0x7fu64) < 0x80u64) by (bit_vector);
}

/// Fewer live entries and tombstones than slots leave a never-used slot.
proof fn lemma_find_empty<K: TableKey, V>(controls: Seq<u8>, entries: Seq<Option<Entry<K, V>>>, seed: u64, n: int) -> (i: int)
    requires
        0 <= n <= controls.len(),
        n <= entries.len(),
        forall|j: int| 0 <= j < n ==> #[trigger] slot_ok(controls[j], entries[j], seed),
        count_full(entries, n) + count_deleted(controls, n) < n,
    ensures
        0 <= i < n,
        controls[i] == EMPTY_CONTROL,
    decreases n,
{
    assert(slot_ok(controls[n - 1], entries[n - 1], seed));
    if controls[n - 1] == EMPTY_CONTROL {
        n - 1
    } else {
        if entries[n - 1] is Some {
            lemma_tag_below_empty(entries[n - 1]->0.hash);
        }
        lemma_find_empty(controls, entries, seed, n - 1)
    }
}

impl<K: TableKey, V> DeterministicHashTable<K, V> {
    /// Creates an empty, allocation-free table with an explicit seed.
    pub fn new(seed: u64) -> (table: Self)
        ensures
            table.wf(),
            table@ == Map::<K, V>::empty(),
            table.spec_seed() == seed,
            table.spec_buckets() == 0,
            table.spec_layout() == empty_layout::<K, V>(0),
    {
        let table = DeterministicHashTable { seed, controls: Vec::new(), entries: Vec::new(), len: 0, deleted: 0 };
        proof {
            lemma_counts_empty(table.controls@, table.entries@, 0);
            assert(table.controls@ =~= empty_layout::<K, V>(0).0);
            assert(table.spec_slots() =~= empty_layout::<K, V>(0).1);
        }
        table
    }

    /// An empty table with exactly `buckets` buckets.
    fn allocate(seed: u64, buckets: usize) -> (result: Result<Self, HashTableError>)
        ensures
            !valid_bucket_count(buckets as nat) ==> result == Err::<Self, HashTableError>(
                HashTableError::CapacityOverflow,
            ),
            valid_bucket_count(buckets as nat) ==> match result {
                Ok(t) => t.wf() && t@ == Map::<K, V>::empty() && t.spec_seed() == seed && t.spec_buckets() == buckets
                    && t.spec_deleted() == 0 && t.spec_layout() == empty_layout::<K, V>(buckets as nat),
                Err(e) => e == HashTableError::AllocationFailed,
            },
    {
        if buckets == 0 {
            return Ok(Self::new(seed));
        }
        if buckets < MIN_BUCKETS || !is_power_of_two(buckets) || buckets % 16 != 0 {
            proof {
                if buckets >= 16 && is_pow2(buckets as nat) {
                    lemma_pow2_multiple_of_sixteen(buckets as nat);
                }
            }
            return Err(HashTableError::CapacityOverflow);
        }
        let mut controls: Vec<u8> = Vec::new();
        if !try_reserve_exact(&mut controls, buckets) {
            return Err(HashTableError::AllocationFailed);
        }
        while controls.len() < buckets
            invariant
                controls@.len() <= buckets,
                forall|i: int| 0 <= i < controls@.len() ==> #[trigger] controls@[i] == EMPTY_CONTROL,
            decreases buckets - controls.len(),
        {
            controls.push(EMPTY_CONTROL);
        }
        let mut entries: Vec<Option<Entry<K, V>>> = Vec::new();
        if !try_reserve_exact(&mut entries, buckets) {
            return Err(HashTableError::AllocationFailed);
        }
        while entries.len() < buckets
            invariant
                entries@.len() <= buckets,
                forall|i: int| 0 <= i < entries@.len() ==> #[trigger] entries@[i] is None,
            decreases buckets - entries.len(),
        {
            entries.push(None);
        }
        let table = DeterministicHashTable { seed, controls, entries, len: 0, deleted: 0 };
        proof {
            lemma_counts_empty(table.controls@, table.entries@, buckets as int);
            assert forall|i: int| 0 <= i < buckets implies #[trigger] slot_ok(
                table.controls@[i],
                table.entries@[i],
                seed,
            ) by {
                assert(table.controls@[i] == EMPTY_CONTROL);
                assert(table.entries@[i] is None);
            }
            assert(table.controls@ =~= empty_layout::<K, V>(buckets as nat).0);
            assert(table.spec_slots() =~= empty_layout::<K, V>(buckets as nat).1);
        }
        Ok(table)
    }

    /// Creates a table that holds at least `min_entries` without growth.
    pub fn try_with_capacity(seed: u64, min_entries: usize) -> (result: Result<Self, HashTableError>)
        ensures
            required_buckets(min_entries as nat) is None ==> result == Err::<Self, HashTableError>(
                HashTableError::CapacityOverflow,
            ),
            required_buckets(min_entries as nat) matches Some(b) ==> match result {
                Ok(t) => t.wf() && t@ == Map::<K, V>::empty() && t.spec_seed() == seed && t.spec_buckets() == b
                    && t.spec_layout() == empty_layout::<K, V>(b),
                Err(e) => e == HashTableError::AllocationFailed,
            },
    {
        let buckets = match required_bucket_count(min_entries) {
            Ok(b) => b,
            Err(e) => return Err(e),
        };
        Self::allocate(seed, buckets)
    }

    /// Hash seed governing physical placement.
    pub fn seed(&self) -> (seed: u64)
        ensures
            seed == self.spec_seed(),
    {
        self.seed
    }

    /// Number of live entries.
    pub fn len(&self) -> (len: usize)
        requires
            self.wf(),
        ensures
            len == self@.len(),
    {
        proof {
            lemma_map_len(self.entries@, self.entries@.len() as int);
        }
        self.len
    }

    /// Whether the table holds no entries.
    pub fn is_empty(&self) -> (empty: bool)
        requires
            self.wf(),
        ensures
            empty == (self@.len() == 0),
    {
        proof {
            lemma_map_len(self.entries@, self.entries@.len() as int);
        }
        self.len == 0
    }

    /// Live entries that fit before growth.
    pub fn capacity(&self) -> (capacity: usize)
        ensures
            capacity == spec_max_live(self.spec_buckets() as int),
    {
        max_live_entries(self.controls.len())
    }

    /// Number of physical open-addressing buckets.
    pub fn bucket_count(&self) -> (buckets: usize)
        ensures
            buckets == self.spec_buckets(),
    {
        self.controls.len()
    }

    /// Removes every entry, keeping the buckets and seed.
    pub fn clear(&mut self)
        requires
            old(self).wf(),
        ensures
            final(self).wf(),
            final(self)@ == Map::<K, V>::empty(),
            final(self).spec_buckets() == old(self).spec_buckets(),
            final(self).spec_seed() == old(self).spec_seed(),
            final(self).spec_deleted() == 0,
            forall|i: int| 0 <= i < final(self).spec_buckets() ==> #[trigger] final(self).spec_controls()[i]
                == EMPTY_CONTROL,
            final(self).spec_layout() == empty_layout::<K, V>(old(self).spec_buckets()),
    {
        let buckets = self.controls.len();
        let mut i: usize = 0;
        while i < buckets
            invariant
                buckets == self.controls@.len(),
                buckets == self.entries@.len(),
                valid_bucket_count(buckets as nat),
                self.seed == old(self).seed,
                i <= buckets,
                forall|j: int| 0 <= j < i ==> #[trigger] self.controls@[j] == EMPTY_CONTROL,
                forall|j: int| 0 <= j < i ==> #[trigger] self.entries@[j] is None,
            decreases buckets - i,
        {
            self.entries.set(i, None);
            self.controls.set(i, EMPTY_CONTROL);
            i = i + 1;
        }
        self.len = 0;
        self.deleted = 0;
        proof {
            lemma_counts_empty(self.controls@, self.entries@, buckets as int);
            assert forall|j: int| 0 <= j < buckets implies #[trigger] slot_ok(
                self.controls@[j],
                self.entries@[j],
                self.seed,
            ) by {
                assert(self.controls@[j] == EMPTY_CONTROL);
                assert(self.entries@[j] is None);
            }
            assert(self.controls@ =~= empty_layout::<K, V>(buckets as nat).0);
            assert(self.spec_slots() =~= empty_layout::<K, V>(buckets as nat).1);
        }
    }
}

proof fn lemma_pow2_multiple_of_sixteen(b: nat)
    requires
        is_pow2(b),
    ensures
        b == 1 || b == 2 || b == 4 || b == 8 || b % 16 == 0,
    decreases b,
{
    if b > 1 {
        lemma_pow2_multiple_of_sixteen(b / 2);
    }
}

/// Probing from a hash's home bucket reaches every bucket at its distance.
proof fn lemma_probe_round_trip(hash: u64, i: int, b: int)
    requires
        b > 0,
        0 <= i < b,
    ensures
        0 <= probe_distance(hash, i, b) < b,
        probe_index(hash, probe_distance(hash, i, b), b) == i,
{
    let h = (hash as int) % b;
    let d = probe_distance(hash, i, b);
    if i >= h {
        lemma_fundamental_div_mod_converse(i - h, b, 0, i - h);
        lemma_fundamental_div_mod_converse(h + d, b, 0, i);
    } else {
        lemma_fundamental_div_mod_converse(i - h, b, -1, i - h + b);
        lemma_fundamental_div_mod_converse(h + d, b, 1, i);
    }
}

/// The bucket at a distance, reached from the bucket at an earlier distance.
proof fn lemma_probe_step(hash: u64, d: int, lane: int, b: int)
    requires
        b > 0,
        d >= 0,
        lane >= 0,
    ensures
        (probe_index(hash, d, b) + lane) % b == probe_index(hash, d + lane, b),
        0 <= probe_index(hash, d, b) < b,
        probe_index(hash, 0, b) == (hash as int) % b,
{
    let a = (hash as int) % b + d;
    vstd::arithmetic::div_mod::lemma_add_mod_noop(a, lane, b);
    vstd::arithmetic::div_mod::lemma_add_mod_noop(a % b, lane, b);
    vstd::arithmetic::div_mod::lemma_mod_twice(a, b);
    vstd::arithmetic::div_mod::lemma_mod_twice(hash as int, b);
}

/// `(start + lane) % buckets` without overflow.
fn wrap_add(start: usize, lane: usize, buckets: usize) -> (index: usize)
    requires
        start < buckets,
        lane < buckets,
    ensures
        index == (start + lane) % (buckets as int),
        index < buckets,
{
    let room = buckets - start;
    proof {
        let x = start + lane;
        if lane < room {
            lemma_fundamental_div_mod_converse(x, buckets as int, 0, x);
        } else {
            lemma_fundamental_div_mod_converse(x, buckets as int, 1, x - buckets);
        }
    }
    if lane < room {
        start + lane
    } else {
        lane - room
    }
}

impl<K: TableKey, V> DeterministicHashTable<K, V> {
    /// No slot within a searched probe prefix holds `key`, and the bucket
    /// right after it was never used: `key` is absent.
    proof fn lemma_absent_at_empty(self, key: K, hash: u64, de: int)
        requires
            self.wf(),
            self.spec_buckets() > 0,
            hash == key.spec_key_hash(self.seed),
            0 <= de,
            self.controls@[probe_index(hash, de, self.spec_buckets() as int)] == EMPTY_CONTROL,
            forall|d: int|
                0 <= d < de ==> !(#[trigger] self.entries@[probe_index(hash, d, self.spec_buckets() as int)] is Some
                    && self.entries@[probe_index(hash, d, self.spec_buckets() as int)]->0.key == key),
        ensures
            !self@.dom().contains(key),
    {
        let b = self.spec_buckets() as int;
        if self@.dom().contains(key) {
            let i = lemma_map_index(self.entries@, b, key);
            assert(slot_ok(self.controls@[i], self.entries@[i], self.seed));
            let dist = probe_distance(hash, i, b);
            lemma_probe_round_trip(hash, i, b);
            lemma_probe_step(hash, de, 0, b);
            if dist < de {
                assert(self.entries@[probe_index(hash, dist, b)] is Some);
            } else if dist > de {
                assert(self.controls@[probe_index(self.entries@[i]->0.hash, de, b)] != EMPTY_CONTROL);
            } else {
                lemma_tag_below_empty(hash);
            }
        }
    }

    /// No slot at any probe distance holds `key`: it is absent.
    proof fn lemma_absent_everywhere(self, key: K, hash: u64)
        requires
            self.wf(),
            self.spec_buckets() > 0,
            hash == key.spec_key_hash(self.seed),
            forall|d: int|
                0 <= d < self.spec_buckets() ==> !(#[trigger] self.entries@[probe_index(
                    hash,
                    d,
                    self.spec_buckets() as int,
                )] is Some && self.entries@[probe_index(hash, d, self.spec_buckets() as int)]->0.key == key),
        ensures
            !self@.dom().contains(key),
    {
        let b = self.spec_buckets() as int;
        if self@.dom().contains(key) {
            let i = lemma_map_index(self.entries@, b, key);
            lemma_probe_round_trip(hash, i, b);
            let dist = probe_distance(hash, i, b);
            assert(self.entries@[probe_index(hash, dist, b)] is Some);
        }
    }

    /// The bucket holding `key`, found by group probing from its home bucket
    /// up to the first never-used bucket.
    #[verifier::rlimit(80)]
    fn find_index(&self, key: &K) -> (index: Option<usize>)
        requires
            self.wf(),
        ensures
            match index {
                Some(i) => i < self.spec_buckets() && self.entries@[i as int] is Some && self.entries@[i as int]->0.key
                    == *key,
                None => !self@.dom().contains(*key),
            },
    {
        let buckets = self.controls.len();
        if buckets == 0 {
            proof {
                lemma_map_len(self.entries@, 0);
                assert(self@ =~= Map::<K, V>::empty());
            }
            return None;
        }
        let hash = key.key_hash(self.seed);
        let tag = ControlTag::from_hash(hash);
        let dispatch = scalar_control_group_dispatch();
        let mut probe = GroupProbe::new(hash, buckets);
        let ghost b = buckets as int;
        let ghost mut searched: int = 0;
        proof {
            lemma_probe_step(hash, 0, 0, b);
        }
        loop
            invariant
                self.wf(),
                b == self.spec_buckets(),
                b == buckets,
                b >= 16,
                is_pow2(b as nat),
                hash == key.spec_key_hash(self.seed),
                tag.spec_value() == tag_of_hash(hash),
                probe.spec_buckets() == buckets,
                probe.spec_next() < buckets,
                probe.spec_next() == probe_index(hash, searched, b),
                searched == 16 * (b / 16 - probe.spec_groups_left()),
                probe.spec_groups_left() <= b / 16,
                forall|d: int|
                    0 <= d < searched ==> !(#[trigger] self.entries@[probe_index(hash, d, b)] is Some
                        && self.entries@[probe_index(hash, d, b)]->0.key == *key),
                forall|d: int| 0 <= d < searched ==> #[trigger] self.controls@[probe_index(hash, d, b)] != EMPTY_CONTROL,
            decreases probe.spec_groups_left(),
        {
            let group_start = match probe.next_group() {
                Some(start) => start,
                None => {
                    proof {
                        lemma_pow2_multiple_of_sixteen(b as nat);
                        self.lemma_absent_everywhere(*key, hash);
                    }
                    return None;
                },
            };
            let group = match ControlGroup::gather_wrapping(self.controls.as_slice(), group_start) {
                Some(g) => g,
                None => {
                    return None;
                },
            };
            let masks = dispatch.classify(&group, tag);
            let lanes_before_empty = match masks.empty.first() {
                Some(lane) => lane,
                None => 16,
            };
            proof {
                if masks.empty.spec_bits() == 0 {
                    assert forall|l: int| 0 <= l < 16 implies !lane_bit(masks.empty.spec_bits(), l) by {
                        let lu = l as u16;
                        assert((0u16 >> lu) & 1u16 != 1u16) by (bit_vector);
                    }
                }
            }
            let mut lane: usize = 0;
            while lane < lanes_before_empty
                invariant
                    self.wf(),
                    b == self.spec_buckets(),
                    b == buckets,
                    b >= 16,
                    hash == key.spec_key_hash(self.seed),
                    tag.spec_value() == tag_of_hash(hash),
                    group_start == probe_index(hash, searched, b),
                    classifies(group, tag, masks),
                    forall|l: int|
                        0 <= l < 16 ==> #[trigger] group.spec_lanes()[l] == self.controls@[(group_start + l) % b],
                    lanes_before_empty <= 16,
                    forall|l: int| 0 <= l < lanes_before_empty ==> !lane_bit(masks.empty.spec_bits(), l),
                    lane <= lanes_before_empty,
                    searched >= 0,
                    forall|d: int|
                        0 <= d < searched + lane ==> !(#[trigger] self.entries@[probe_index(hash, d, b)] is Some
                            && self.entries@[probe_index(hash, d, b)]->0.key == *key),
                    forall|d: int|
                        0 <= d < searched + lane ==> #[trigger] self.controls@[probe_index(hash, d, b)]
                            != EMPTY_CONTROL,
                decreases lanes_before_empty - lane,
            {
                let index = wrap_add(group_start, lane, buckets);
                proof {
                    lemma_probe_step(hash, searched, lane as int, b);
                    assert(index == probe_index(hash, searched + lane, b));
                    assert(group.spec_lanes()[lane as int] == self.controls@[index as int]);
                    assert(slot_ok(self.controls@[index as int], self.entries@[index as int], self.seed));
                    if self.entries@[index as int] is Some {
                        lemma_tag_below_empty(self.entries@[index as int]->0.hash);
                    }
                }
                if masks.deleted.contains(lane) {
                    if self.entries[index].is_some() {
                        return None;
                    }
                } else if masks.matching.contains(lane) {
                    match &self.entries[index] {
                        Some(entry) => {
                            if entry.hash == hash && entry.key.key_eq(key) {
                                return Some(index);
                            }
                        },
                        None => {
                            return None;
                        },
                    }
                } else {
                    if self.entries[index].is_none() {
                        return None;
                    }
                    proof {
                        let e = self.entries@[index as int]->0;
                        if e.key == *key {
                            assert(e.hash == hash);
                        }
                    }
                }
                lane = lane + 1;
            }
            if masks.empty.first().is_some() {
                proof {
                    lemma_probe_step(hash, searched, lanes_before_empty as int, b);
                    assert(group.spec_lanes()[lanes_before_empty as int] == self.controls@[probe_index(
                        hash,
                        searched + lanes_before_empty,
                        b,
                    )]);
                    self.lemma_absent_at_empty(*key, hash, searched + lanes_before_empty);
                }
                return None;
            }
            proof {
                lemma_probe_step(hash, searched, 16, b);
                searched = searched + 16;
            }
        }
    }

    /// Shared value of `key`, if present.
    pub fn get(&self, key: &K) -> (value: Option<&V>)
        requires
            self.wf(),
        ensures
            match value {
                Some(v) => self@.dom().contains(*key) && *v == self@[*key],
                None => !self@.dom().contains(*key),
            },
    {
        match self.find_index(key) {
            Some(index) => {
                proof {
                    lemma_map_value(self.entries@, self.entries@.len() as int, index as int);
                }
                match &self.entries[index] {
                    Some(entry) => Some(&entry.value),
                    None => None,
                }
            },
            None => None,
        }
    }

    /// Whether `key` is present.
    pub fn contains_key(&self, key: &K) -> (present: bool)
        requires
            self.wf(),
        ensures
            present == self@.dom().contains(*key),
    {
        match self.find_index(key) {
            Some(index) => {
                proof {
                    lemma_map_value(self.entries@, self.entries@.len() as int, index as int);
                }
                true
            },
            None => false,
        }
    }
}

proof fn lemma_value_update<K: TableKey, V>(
    seed: u64,
    controls: Seq<u8>,
    entries: Seq<Option<Entry<K, V>>>,
    len: nat,
    deleted: nat,
    index: int,
    value: V,
)
    requires
        storage_ok(seed, controls, entries, len, deleted),
        0 <= index < entries.len(),
        entries[index] is Some,
    ensures
        ({
            let e = entries[index]->0;
            let updated = entries.update(index, Some(Entry { hash: e.hash, key: e.key, value }));
            &&& storage_ok(seed, controls, updated, len, deleted)
            &&& map_of(updated, entries.len() as int) == map_of(entries, entries.len() as int).insert(e.key, value)
        }),
{
    let e = entries[index]->0;
    let b = entries.len() as int;
    let updated = entries.update(index, Some(Entry { hash: e.hash, key: e.key, value }));
    assert forall|i: int| 0 <= i < b implies #[trigger] slot_ok(controls[i], updated[i], seed) by {
        assert(slot_ok(controls[i], entries[i], seed));
    }
    assert forall|i: int, j: int|
        #![trigger updated[i], updated[j]]
        0 <= i < b && 0 <= j < b && i != j && updated[i] is Some && updated[j] is Some implies updated[i]->0.key
            != updated[j]->0.key by {
        assert(entries[i] is Some && entries[j] is Some);
    }
    assert forall|i: int, d: int|
        #![trigger updated[i], probe_index(updated[i]->0.hash, d, b)]
        0 <= i < b && updated[i] is Some && 0 <= d < probe_distance(updated[i]->0.hash, i, b) implies controls[probe_index(
            updated[i]->0.hash,
            d,
            b,
        )] != EMPTY_CONTROL by {
        assert(entries[i] is Some);
        assert(controls[probe_index(entries[i]->0.hash, d, b)] != EMPTY_CONTROL);
    }
    lemma_count_full_change(entries, updated, index, b);
    lemma_map_slot_change(entries, updated, index);
    lemma_map_value(entries, b, index);
    let m = map_of(entries, b);
    assert(m.remove(e.key).insert(e.key, value) =~= m.insert(e.key, value));
}

/// Mutable access to an entry's value; its hash and key stay put.
fn entry_value_mut<K, V>(entry: &mut Entry<K, V>) -> (value: &mut V)
    ensures
        *value == old(entry).value,
        final(entry).hash == old(entry).hash,
        final(entry).key == old(entry).key,
        final(entry).value == *final(value),
{
    &mut entry.value
}

proof fn lemma_no_live_entries<K, V>(entries: Seq<Option<Entry<K, V>>>, n: int)
    requires
        0 <= n <= entries.len(),
        count_full(entries, n) == 0,
    ensures
        forall|i: int| 0 <= i < n ==> #[trigger] entries[i] is None,
    decreases n,
{
    if n > 0 {
        lemma_no_live_entries(entries, n - 1);
    }
}

impl<K: TableKey, V> DeterministicHashTable<K, V> {
    /// Mutable value of `key`, if present; writing through it replaces the
    /// key's value and nothing else.
    #[verifier::spinoff_prover]
    #[verifier::rlimit(40)]
    pub fn get_mut(&mut self, key: &K) -> (value: Option<&mut V>)
        requires
            old(self).wf(),
        ensures
            final(self).wf(),
            final(self).spec_buckets() == old(self).spec_buckets(),
            final(self).spec_seed() == old(self).spec_seed(),
            final(self).spec_controls() == old(self).spec_controls(),
            final(self).spec_deleted() == old(self).spec_deleted(),
            value is Some <==> old(self)@.dom().contains(*key),
            value matches Some(v) ==> *v == old(self)@[*key],
            value is Some ==> final(self)@ =~= old(self)@.insert(*key, *final(value->0)),
            value is None ==> final(self)@ == old(self)@,
            value is Some ==> final(self).spec_layout() == with_value(old(self).spec_layout(), *key, *final(value->0)),
            value is None ==> final(self).spec_layout() == old(self).spec_layout(),
    {
        match self.find_index(key) {
            Some(index) => {
                proof {
                    lemma_map_value(self.entries@, self.entries@.len() as int, index as int);
                    let e = self.entries@[index as int]->0;
                    assert forall|slot: Option<Entry<K, V>>|
                        slot is Some && slot->0.hash == e.hash && slot->0.key == e.key implies #[trigger] storage_ok(
                        self.seed,
                        self.controls@,
                        self.entries@.update(index as int, slot),
                        self.len as nat,
                        self.deleted as nat,
                    ) && map_of(self.entries@.update(index as int, slot), self.entries@.len() as int) == self@.insert(
                        *key,
                        slot->0.value,
                    ) by {
                        lemma_value_update(
                            self.seed,
                            self.controls@,
                            self.entries@,
                            self.len as nat,
                            self.deleted as nat,
                            index as int,
                            slot->0.value,
                        );
                        assert(slot == Some(Entry { hash: e.hash, key: e.key, value: slot->0.value }));
                    }
                    self.lemma_key_slot(*key, index as int);
                    assert forall|slot: Option<Entry<K, V>>|
                        slot is Some && slot->0.hash == e.hash && slot->0.key == e.key implies #[trigger] slots_of(
                        self.entries@.update(index as int, slot),
                    ) == self.spec_slots().update(index as int, Some((e.hash, e.key, slot->0.value))) by {
                        assert(slots_of(self.entries@.update(index as int, slot)) =~= self.spec_slots().update(
                            index as int,
                            Some((e.hash, e.key, slot->0.value)),
                        ));
                    }
                }
                let slot = &mut self.entries[index];
                match slot.as_mut() {
                    Some(entry) => Some(entry_value_mut(entry)),
                    None => None,
                }
            },
            None => None,
        }
    }

    /// Removes `key` and returns its value. The bucket becomes a tombstone,
    /// unless the table is then empty, when every bucket becomes unused.
    pub fn remove(&mut self, key: &K) -> (removed: Option<V>)
        requires
            old(self).wf(),
        ensures
            final(self).wf(),
            final(self).spec_buckets() == old(self).spec_buckets(),
            final(self).spec_seed() == old(self).spec_seed(),
            match removed {
                Some(v) => old(self)@.dom().contains(*key) && v == old(self)@[*key] && final(self)@ == old(
                    self,
                )@.remove(*key),
                None => !old(self)@.dom().contains(*key) && final(self)@ == old(self)@ && *final(self) == *old(
                    self,
                ),
            },
            removed is Some ==> final(self).spec_layout() == if old(self)@.len() == 1 {
                empty_layout::<K, V>(old(self).spec_buckets())
            } else {
                without_key(old(self).spec_layout(), *key)
            },
    {
        let ghost start = *self;
        proof {
            lemma_map_len(self.entries@, self.entries@.len() as int);
        }
        let index = match self.find_index(key) {
            Some(i) => i,
            None => return None,
        };
        let buckets = self.entries.len();
        let ghost b = buckets as int;
        let ghost old_entries = self.entries@;
        let ghost old_controls = self.controls@;
        proof {
            lemma_map_value(old_entries, b, index as int);
            assert(slot_ok(old_controls[index as int], old_entries[index as int], self.seed));
            lemma_tag_below_empty(old_entries[index as int]->0.hash);
        }
        let entry = match self.entries[index].take() {
            Some(e) => e,
            None => return None,
        };
        self.controls.set(index, DELETED_CONTROL);
        proof {
            start.lemma_key_slot(*key, index as int);
            assert(self.spec_slots() =~= start.spec_slots().update(index as int, None));
            assert(self.spec_layout() == without_key(start.spec_layout(), *key));
            let new_entries = self.entries@;
            assert forall|i: int| 0 <= i < old_entries.len() && i != index implies old_entries[i] == new_entries[i] by {}
            lemma_map_slot_change(old_entries, new_entries, index as int);
            lemma_count_full_change(old_entries, new_entries, index as int, b);
            lemma_count_deleted_change(old_controls, self.controls@, index as int, b);
            assert forall|i: int| 0 <= i < b implies #[trigger] slot_ok(self.controls@[i], self.entries@[i], self.seed) by {
                assert(slot_ok(old_controls[i], old_entries[i], self.seed));
            }
            assert forall|i: int, d: int|
                #![trigger new_entries[i], probe_index(new_entries[i]->0.hash, d, b)]
                0 <= i < b && new_entries[i] is Some && 0 <= d < probe_distance(new_entries[i]->0.hash, i, b)
                    implies self.controls@[probe_index(new_entries[i]->0.hash, d, b)] != EMPTY_CONTROL by {
                assert(old_entries[i] == new_entries[i]);
                assert(old_controls[probe_index(old_entries[i]->0.hash, d, b)] != EMPTY_CONTROL);
                lemma_probe_step(new_entries[i]->0.hash, d, 0, b);
            }
            assert forall|i: int, j: int|
                #![trigger new_entries[i], new_entries[j]]
                0 <= i < b && 0 <= j < b && i != j && new_entries[i] is Some && new_entries[j] is Some implies new_entries[i]->0.key
                    != new_entries[j]->0.key by {
                assert(old_entries[i] == new_entries[i] && old_entries[j] == new_entries[j]);
            }
        }
        assert(self.len >= 1 && self.len + self.deleted <= b);
        self.len = self.len - 1;
        self.deleted = self.deleted + 1;
        if self.len == 0 {
            let mut i: usize = 0;
            proof {
                lemma_no_live_entries(self.entries@, b);
            }
            let ghost entries_now = self.entries@;
            let ghost seed_now = self.seed;
            while i < buckets
                invariant
                    buckets == self.controls@.len(),
                    buckets == self.entries@.len(),
                    self.entries@ == entries_now,
                    self.seed == seed_now,
                    self.len == 0,
                    valid_bucket_count(buckets as nat),
                    i <= buckets,
                    forall|j: int| 0 <= j < buckets ==> #[trigger] self.entries@[j] is None,
                    forall|j: int| 0 <= j < i ==> #[trigger] self.controls@[j] == EMPTY_CONTROL,
                decreases buckets - i,
            {
                self.controls.set(i, EMPTY_CONTROL);
                i = i + 1;
            }
            self.deleted = 0;
            proof {
                lemma_counts_empty(self.controls@, self.entries@, b);
                assert forall|j: int| 0 <= j < b implies #[trigger] slot_ok(
                    self.controls@[j],
                    self.entries@[j],
                    self.seed,
                ) by {
                    assert(self.controls@[j] == EMPTY_CONTROL);
                    assert(self.entries@[j] is None);
                }
                self.lemma_layout_empty();
            }
        }
        Some(entry.value)
    }
}

/// The distance of the bucket at a distance is that distance.
proof fn lemma_distance_of_index(hash: u64, d: int, b: int)
    requires
        b > 0,
        0 <= d < b,
    ensures
        probe_distance(hash, probe_index(hash, d, b), b) == d,
        0 <= probe_index(hash, d, b) < b,
{
    let h = (hash as int) % b;
    let i = probe_index(hash, d, b);
    if h + d < b {
        lemma_fundamental_div_mod_converse(h + d, b, 0, h + d);
        lemma_fundamental_div_mod_converse(i - h, b, 0, d);
    } else {
        lemma_fundamental_div_mod_converse(h + d, b, 1, h + d - b);
        lemma_fundamental_div_mod_converse(i - h, b, -1, d);
    }
}

/// Slots that are all live count fully.
proof fn lemma_all_full<K, V>(entries: Seq<Option<Entry<K, V>>>, n: int)
    requires
        0 <= n <= entries.len(),
        forall|i: int| 0 <= i < n ==> #[trigger] entries[i] is Some,
    ensures
        count_full(entries, n) == n,
    decreases n,
{
    if n > 0 {
        lemma_all_full(entries, n - 1);
    }
}

/// The first never-used bucket in the probe order of `hash`.
fn first_empty_bucket(controls: &[u8], hash: u64) -> (index: Option<usize>)
    requires
        controls@.len() == 0 || (controls@.len() >= 16 && is_pow2(controls@.len() as nat)),
    ensures
        match index {
            Some(i) => i < controls@.len() && controls@[i as int] == EMPTY_CONTROL && forall|d: int|
                0 <= d < probe_distance(hash, i as int, controls@.len() as int) ==> #[trigger] controls@[probe_index(
                    hash,
                    d,
                    controls@.len() as int,
                )] != EMPTY_CONTROL,
            None => forall|d: int|
                0 <= d < controls@.len() ==> #[trigger] controls@[probe_index(hash, d, controls@.len() as int)]
                    != EMPTY_CONTROL,
        },
{
    let buckets = controls.len();
    if buckets == 0 {
        return None;
    }
    let tag = ControlTag::from_hash(hash);
    let dispatch = scalar_control_group_dispatch();
    let mut probe = GroupProbe::new(hash, buckets);
    let ghost b = buckets as int;
    let ghost mut searched: int = 0;
    proof {
        lemma_probe_step(hash, 0, 0, b);
    }
    loop
        invariant
            b == controls@.len(),
            b == buckets,
            b >= 16,
            is_pow2(b as nat),
            probe.spec_buckets() == buckets,
            probe.spec_next() < buckets,
            probe.spec_next() == probe_index(hash, searched, b),
            searched == 16 * (b / 16 - probe.spec_groups_left()),
            probe.spec_groups_left() <= b / 16,
            forall|d: int| 0 <= d < searched ==> #[trigger] controls@[probe_index(hash, d, b)] != EMPTY_CONTROL,
        decreases probe.spec_groups_left(),
    {
        let group_start = match probe.next_group() {
            Some(start) => start,
            None => {
                proof {
                    lemma_pow2_multiple_of_sixteen(b as nat);
                }
                return None;
            },
        };
        let group = match ControlGroup::gather_wrapping(controls, group_start) {
            Some(g) => g,
            None => {
                return None;
            },
        };
        let masks = dispatch.classify(&group, tag);
        match masks.empty.first() {
            Some(lane) => {
                let index = wrap_add(group_start, lane, buckets);
                proof {
                    lemma_probe_step(hash, searched, lane as int, b);
                    assert forall|l: int| 0 <= l < lane implies #[trigger] controls@[probe_index(hash, searched + l, b)]
                        != EMPTY_CONTROL by {
                        lemma_probe_step(hash, searched, l, b);
                        assert(group.spec_lanes()[l] == controls@[(group_start + l) % b]);
                    }
                    assert forall|d: int| 0 <= d < searched + lane implies #[trigger] controls@[probe_index(
                        hash,
                        d,
                        b,
                    )] != EMPTY_CONTROL by {
                        if d >= searched {
                            assert(controls@[probe_index(hash, searched + (d - searched), b)] != EMPTY_CONTROL);
                        }
                    }
                    assert(group.spec_lanes()[lane as int] == controls@[(group_start + lane) % b]);
                    lemma_pow2_multiple_of_sixteen(b as nat);
                    lemma_distance_of_index(hash, searched + lane, b);
                }
                return Some(index);
            },
            None => {},
        }
        proof {
            assert forall|d: int| 0 <= d < searched + 16 implies #[trigger] controls@[probe_index(hash, d, b)]
                != EMPTY_CONTROL by {
                if d >= searched {
                    let l = d - searched;
                    lemma_probe_step(hash, searched, l, b);
                    assert(group.spec_lanes()[l] == controls@[(group_start + l) % b]);
                    let lu = l as u16;
                    assert((0u16 >> lu) & 1u16 != 1u16) by (bit_vector);
                }
            }
            lemma_probe_step(hash, searched, 16, b);
            searched = searched + 16;
        }
    }
}

impl<K: TableKey, V> DeterministicHashTable<K, V> {
    /// Places a new entry in a vacant bucket that its probe reaches.
    fn occupy(&mut self, index: usize, entry: Entry<K, V>)
        requires
            old(self).wf(),
            index < old(self).spec_buckets(),
            old(self).entries@[index as int] is None,
            entry.hash == entry.key.spec_key_hash(old(self).seed),
            !old(self)@.dom().contains(entry.key),
            forall|d: int|
                0 <= d < probe_distance(entry.hash, index as int, old(self).spec_buckets() as int)
                    ==> #[trigger] old(self).controls@[probe_index(entry.hash, d, old(self).spec_buckets() as int)]
                    != EMPTY_CONTROL,
            old(self).len + old(self).deleted + (if old(self).controls@[index as int] == EMPTY_CONTROL {
                1int
            } else {
                0int
            }) <= spec_max_live(old(self).spec_buckets() as int),
        ensures
            final(self).wf(),
            final(self)@ == old(self)@.insert(entry.key, entry.value),
            final(self).spec_buckets() == old(self).spec_buckets(),
            final(self).spec_seed() == old(self).spec_seed(),
            final(self).spec_deleted() + (if old(self).controls@[index as int] == DELETED_CONTROL {
                1int
            } else {
                0int
            }) == old(self).spec_deleted(),
            final(self).len == old(self).len + 1,
            final(self).controls@ == old(self).controls@.update(index as int, tag_of_hash(entry.hash)),
            final(self).entries@ == old(self).entries@.update(index as int, Some(entry)),
    {
        let bucket_total = self.entries.len();
        let ghost b = bucket_total as int;
        let ghost old_entries = self.entries@;
        let ghost old_controls = self.controls@;
        let ghost key = entry.key;
        let ghost value = entry.value;
        proof {
            assert(slot_ok(old_controls[index as int], old_entries[index as int], self.seed));
            lemma_tag_below_empty(entry.hash);
            lemma_count_full_same(old_entries, old_entries, b);
        }
        if self.controls[index] == DELETED_CONTROL {
            proof {
                let with_tag = old_controls.update(index as int, 0u8);
                lemma_count_deleted_change(old_controls, with_tag, index as int, b);
            }
            self.deleted = self.deleted - 1;
        }
        let tag = ControlTag::from_hash(entry.hash);
        self.controls.set(index, tag.get());
        self.entries.set(index, Some(entry));
        self.len = self.len + 1;
        proof {
            let new_entries = self.entries@;
            let new_controls = self.controls@;
            assert forall|i: int| 0 <= i < old_entries.len() && i != index implies old_entries[i] == new_entries[i] by {}
            assert forall|i: int| 0 <= i < old_controls.len() && i != index implies old_controls[i] == new_controls[i] by {}
            lemma_count_full_change(old_entries, new_entries, index as int, b);
            lemma_count_deleted_change(old_controls, new_controls, index as int, b);
            assert forall|i: int, j: int|
                #![trigger new_entries[i], new_entries[j]]
                0 <= i < b && 0 <= j < b && i != j && new_entries[i] is Some && new_entries[j] is Some implies new_entries[i]->0.key
                    != new_entries[j]->0.key by {
                if i == index {
                    lemma_map_value(old_entries, b, j);
                } else if j == index {
                    lemma_map_value(old_entries, b, i);
                }
            }
            lemma_map_slot_change(old_entries, new_entries, index as int);
            assert forall|i: int| 0 <= i < b implies #[trigger] slot_ok(new_controls[i], new_entries[i], self.seed) by {
                if i != index {
                    assert(slot_ok(old_controls[i], old_entries[i], self.seed));
                }
            }
            assert forall|i: int, d: int|
                #![trigger new_entries[i], probe_index(new_entries[i]->0.hash, d, b)]
                0 <= i < b && new_entries[i] is Some && 0 <= d < probe_distance(new_entries[i]->0.hash, i, b)
                    implies new_controls[probe_index(new_entries[i]->0.hash, d, b)] != EMPTY_CONTROL by {
                lemma_probe_step(new_entries[i]->0.hash, d, 0, b);
                if i != index {
                    assert(old_controls[probe_index(old_entries[i]->0.hash, d, b)] != EMPTY_CONTROL);
                } else {
                    assert(old_controls[probe_index(key.spec_key_hash(self.seed), d, b)] != EMPTY_CONTROL);
                }
            }
        }
    }

    /// Moves every entry into a fresh table of exactly `buckets` buckets,
    /// in physical order, each at the first never-used bucket its probe
    /// reaches; tombstones disappear. On failure nothing changes.
    #[verifier::rlimit(60)]
    fn rebuild(&mut self, buckets: usize) -> (result: Result<(), HashTableError>)
        requires
            old(self).wf(),
        ensures
            final(self).wf(),
            final(self).spec_seed() == old(self).spec_seed(),
            match result {
                Ok(()) => final(self)@ == old(self)@ && final(self).spec_buckets() == buckets
                    && final(self).spec_deleted() == 0 && final(self).spec_layout() == rebuilt(
                    old(self).spec_slots(),
                    buckets as nat,
                    old(self).spec_buckets() as int,
                ),
                Err(e) => *final(self) == *old(self) && (e == HashTableError::AllocationFailed || (e
                    == HashTableError::CapacityOverflow && (!valid_bucket_count(buckets as nat) || (buckets > 0
                    && spec_max_live(buckets as int) < old(self)@.len()) || (buckets == 0 && old(self)@.len() > 0)))),
            },
    {
        proof {
            lemma_map_len(self.entries@, self.entries@.len() as int);
        }
        if buckets == 0 && self.len != 0 {
            return Err(HashTableError::CapacityOverflow);
        }
        if max_live_entries(buckets) < self.len {
            return Err(HashTableError::CapacityOverflow);
        }
        let mut fresh = match Self::allocate(self.seed, buckets) {
            Ok(t) => t,
            Err(e) => return Err(e),
        };
        std::mem::swap(self, &mut fresh);
        let ghost original = fresh;
        let ghost orig = fresh.entries@;
        let ghost ob = orig.len() as int;
        let old_buckets = fresh.entries.len();
        let mut i: usize = 0;
        let ghost orig_slots = original.spec_slots();
        proof {
            lemma_map_len(self.entries@, buckets as int);
            assert(self@ =~= map_of(orig, 0));
            self.lemma_layout_empty();
        }
        while i < old_buckets
            invariant
                self.wf(),
                self.spec_seed() == original.seed,
                self.spec_buckets() == buckets,
                self.spec_deleted() == 0,
                original.wf(),
                orig == original.entries@,
                ob == orig.len(),
                old_buckets == ob,
                fresh.entries@.len() == ob,
                i <= ob,
                forall|j: int| 0 <= j < i ==> #[trigger] fresh.entries@[j] is None,
                forall|j: int| i <= j < ob ==> #[trigger] fresh.entries@[j] == orig[j],
                self@ == map_of(orig, i as int),
                self.len == count_full(orig, i as int),
                count_full(orig, ob) <= spec_max_live(buckets as int),
                orig_slots == slots_of(orig),
                self.spec_layout() == rebuilt(orig_slots, buckets as nat, i as int),
            decreases ob - i,
        {
            let taken = fresh.entries[i].take();
            match taken {
                Some(entry) => {
                    proof {
                        assert(orig[i as int] == Some(entry));
                        assert(slot_ok(original.controls@[i as int], orig[i as int], original.seed));
                        if self@.dom().contains(entry.key) {
                            let j = lemma_map_index(orig, i as int, entry.key);
                            assert(orig[j]->0.key == orig[i as int]->0.key);
                        }
                        lemma_count_monotone(orig, i as int + 1, ob);
                        lemma_find_empty(self.controls@, self.entries@, self.seed, buckets as int);
                    }
                    let index = match first_empty_bucket(self.controls.as_slice(), entry.hash) {
                        Some(index) => index,
                        None => {
                            proof {
                                let e = lemma_find_empty(self.controls@, self.entries@, self.seed, buckets as int);
                                lemma_probe_round_trip(entry.hash, e, buckets as int);
                                assert(self.controls@[probe_index(entry.hash, probe_distance(entry.hash, e, buckets as int), buckets as int)] != EMPTY_CONTROL);
                            }
                            return Err(HashTableError::InvariantViolation);
                        },
                    };
                    proof {
                        assert(slot_ok(self.controls@[index as int], self.entries@[index as int], self.seed));
                        if self.entries@[index as int] is Some {
                            lemma_tag_below_empty(self.entries@[index as int]->0.hash);
                        }
                    }
                    proof {
                        lemma_no_deleted(self.controls@, buckets as int);
                        assert(first_free_at(self.controls@, entry.hash, index as int));
                        lemma_first_free_is(self.controls@, entry.hash, index as int);
                    }
                    let ghost before_slots = self.spec_slots();
                    self.occupy(index, entry);
                    proof {
                        assert(orig_slots[i as int] == Some((entry.hash, entry.key, entry.value)));
                        assert(self.spec_slots() =~= before_slots.update(
                            index as int,
                            Some((entry.hash, entry.key, entry.value)),
                        ));
                    }
                },
                None => {
                    proof {
                        assert(orig[i as int] is None);
                        assert(orig_slots[i as int] is None);
                    }
                },
            }
            i = i + 1;
        }
        proof {
            assert(self@ == map_of(orig, ob));
        }
        Ok(())
    }
}

proof fn lemma_count_monotone<K, V>(entries: Seq<Option<Entry<K, V>>>, a: int, b: int)
    requires
        0 <= a <= b,
    ensures
        count_full(entries, a) <= count_full(entries, b),
    decreases b - a,
{
    if a < b {
        lemma_count_monotone(entries, a, b - 1);
    }
}

/// Without tombstones no control is one.
proof fn lemma_no_deleted(controls: Seq<u8>, n: int)
    requires
        0 <= n <= controls.len(),
        count_deleted(controls, n) == 0,
    ensures
        forall|i: int| 0 <= i < n ==> #[trigger] controls[i] != DELETED_CONTROL,
{
    assert forall|i: int| 0 <= i < n implies #[trigger] controls[i] != DELETED_CONTROL by {
        if controls[i] == DELETED_CONTROL {
            lemma_deleted_counted(controls, n, i);
        }
    }
}

impl<K: TableKey, V> DeterministicHashTable<K, V> {
    /// A well-formed table with no entries and no tombstones has the empty
    /// layout.
    proof fn lemma_layout_empty(self)
        requires
            self.wf(),
            self.len == 0,
            self.deleted == 0,
        ensures
            self.spec_layout() == empty_layout::<K, V>(self.spec_buckets()),
    {
        let b = self.entries@.len() as int;
        lemma_no_live_entries(self.entries@, b);
        lemma_no_deleted(self.controls@, b);
        assert forall|i: int| 0 <= i < b implies #[trigger] self.controls@[i] == EMPTY_CONTROL by {
            assert(slot_ok(self.controls@[i], self.entries@[i], self.seed));
        }
        assert(self.controls@ =~= empty_layout::<K, V>(self.spec_buckets()).0);
        assert(self.spec_slots() =~= empty_layout::<K, V>(self.spec_buckets()).1);
    }
}

/// Bucket `i` holds `key`.
pub open spec fn key_at<K, V>(slots: Seq<LayoutSlot<K, V>>, key: K, i: int) -> bool {
    0 <= i < slots.len() && slots[i] is Some && (slots[i]->0).1 == key
}

/// The bucket holding `key`.
pub open spec fn key_slot<K, V>(slots: Seq<LayoutSlot<K, V>>, key: K) -> int {
    choose|i: int| key_at(slots, key, i)
}

/// The layout after the value of `key`, at its bucket, becomes `value`.
pub open spec fn with_value<K, V>(layout: Layout<K, V>, key: K, value: V) -> Layout<K, V> {
    let i = key_slot(layout.1, key);
    (layout.0, layout.1.update(i, Some(((layout.1[i]->0).0, key, value))))
}

/// The layout after `key` is removed while other entries remain: its
/// bucket becomes a tombstone.
pub open spec fn without_key<K, V>(layout: Layout<K, V>, key: K) -> Layout<K, V> {
    let i = key_slot(layout.1, key);
    (layout.0.update(i, DELETED_CONTROL), layout.1.update(i, None))
}

impl<K: TableKey, V> DeterministicHashTable<K, V> {
    /// The bucket where a key lives is the one the layout names for it.
    proof fn lemma_key_slot(self, key: K, i: int)
        requires
            self.wf(),
            0 <= i < self.entries@.len(),
            self.entries@[i] is Some,
            self.entries@[i]->0.key == key,
        ensures
            key_slot(self.spec_slots(), key) == i,
    {
        let slots = self.spec_slots();
        assert(key_at(slots, key, i));
        let j = key_slot(slots, key);
        if j != i {
            assert(self.entries@[j] is Some && self.entries@[j]->0.key == key);
        }
    }
}

/// Whether inserting a new key whose hash is `hash` rebuilds the table
/// first: an unallocated table, or one whose live entries, tombstones and
/// the never-used bucket the key would take exceed the load bound.
pub open spec fn insert_rebuilds<K, V>(layout: Layout<K, V>, len: nat, deleted: nat, hash: u64) -> bool {
    let b = layout.0.len();
    ||| b == 0
    ||| len + deleted + (if layout.0[first_free(layout.0, hash)] == EMPTY_CONTROL {
        1int
    } else {
        0int
    }) > spec_max_live(b as int)
}

/// The layout after a new key is inserted: the table rebuilt first when
/// `insert_rebuilds` says so, into `insert_buckets` buckets, then the entry
/// placed at the first free bucket of its probe.
pub open spec fn insert_layout<K, V>(
    layout: Layout<K, V>,
    len: nat,
    deleted: nat,
    hash: u64,
    key: K,
    value: V,
) -> Layout<K, V> {
    let b = layout.0.len();
    let before = if insert_rebuilds(layout, len, deleted, hash) {
        rebuilt(layout.1, insert_buckets(b, len), b as int)
    } else {
        layout
    };
    place(before, hash, key, value)
}

/// Where an insertion lands.
#[derive(Clone, Copy, Debug, Eq, PartialEq, Structural)]
enum InsertLocation {
    Existing(usize),
    Vacant(usize),
    Saturated,
}

impl<K: TableKey, V> DeterministicHashTable<K, V> {
    /// When no probe distance reaches a never-used bucket or a tombstone,
    /// every bucket is live.
    proof fn lemma_saturated_is_full(self, hash: u64)
        requires
            self.wf(),
            self.spec_buckets() > 0,
            forall|d: int|
                0 <= d < self.spec_buckets() ==> #[trigger] self.controls@[probe_index(
                    hash,
                    d,
                    self.spec_buckets() as int,
                )] != EMPTY_CONTROL && self.controls@[probe_index(hash, d, self.spec_buckets() as int)]
                    != DELETED_CONTROL,
        ensures
            self.len == self.spec_buckets(),
    {
        let b = self.spec_buckets() as int;
        assert forall|i: int| 0 <= i < b implies #[trigger] self.entries@[i] is Some by {
            lemma_probe_round_trip(hash, i, b);
            let d = probe_distance(hash, i, b);
            assert(self.controls@[probe_index(hash, d, b)] != EMPTY_CONTROL);
            assert(slot_ok(self.controls@[i], self.entries@[i], self.seed));
        }
        lemma_all_full(self.entries@, b);
    }

    /// Finds the bucket holding `key`, or else the bucket a new entry for it
    /// takes: the first tombstone before the first never-used bucket, or
    /// that never-used bucket.
    #[verifier::rlimit(100)]
    #[verifier::spinoff_prover]
    fn locate_for_insert(&self, key: &K, hash: u64) -> (result: Result<InsertLocation, HashTableError>)
        requires
            self.wf(),
            self.spec_buckets() > 0,
            hash == key.spec_key_hash(self.seed),
        ensures
            match result {
                Ok(InsertLocation::Existing(i)) => i < self.spec_buckets() && self.entries@[i as int] is Some
                    && self.entries@[i as int]->0.key == *key,
                Ok(InsertLocation::Vacant(i)) => !self@.dom().contains(*key) && i < self.spec_buckets()
                    && first_free_at(self.controls@, hash, i as int) && self.entries@[i as int] is None && forall|d: int|
                    0 <= d < probe_distance(hash, i as int, self.spec_buckets() as int) ==> #[trigger] self.controls@[probe_index(
                        hash,
                        d,
                        self.spec_buckets() as int,
                    )] != EMPTY_CONTROL,
                _ => false,
            },
    {
        let buckets = self.controls.len();
        let tag = ControlTag::from_hash(hash);
        let dispatch = scalar_control_group_dispatch();
        let mut probe = GroupProbe::new(hash, buckets);
        let ghost b = buckets as int;
        let ghost mut searched: int = 0;
        let ghost mut deleted_at: int = 0;
        let mut first_deleted: Option<usize> = None;
        proof {
            lemma_probe_step(hash, 0, 0, b);
        }
        loop
            invariant
                self.wf(),
                b == self.spec_buckets(),
                b == buckets,
                b >= 16,
                is_pow2(b as nat),
                hash == key.spec_key_hash(self.seed),
                tag.spec_value() == tag_of_hash(hash),
                probe.spec_buckets() == buckets,
                probe.spec_next() < buckets,
                probe.spec_next() == probe_index(hash, searched, b),
                searched == 16 * (b / 16 - probe.spec_groups_left()),
                probe.spec_groups_left() <= b / 16,
                forall|d: int|
                    0 <= d < searched ==> !(#[trigger] self.entries@[probe_index(hash, d, b)] is Some
                        && self.entries@[probe_index(hash, d, b)]->0.key == *key),
                forall|d: int| 0 <= d < searched ==> #[trigger] self.controls@[probe_index(hash, d, b)] != EMPTY_CONTROL,
                first_deleted is None ==> forall|d: int|
                    0 <= d < searched ==> #[trigger] self.controls@[probe_index(hash, d, b)] != DELETED_CONTROL,
                first_deleted matches Some(fd) ==> 0 <= deleted_at < searched && fd == probe_index(hash, deleted_at, b)
                    && self.controls@[fd as int] == DELETED_CONTROL,
                first_deleted is Some ==> forall|d: int|
                    0 <= d < deleted_at ==> #[trigger] self.controls@[probe_index(hash, d, b)] != DELETED_CONTROL,
            decreases probe.spec_groups_left(),
        {
            let group_start = match probe.next_group() {
                Some(start) => start,
                None => {
                    proof {
                        lemma_pow2_multiple_of_sixteen(b as nat);
                        self.lemma_absent_everywhere(*key, hash);
                    }
                    match first_deleted {
                        Some(fd) => {
                            proof {
                                lemma_distance_of_index(hash, deleted_at, b);
                                assert(slot_ok(self.controls@[fd as int], self.entries@[fd as int], self.seed));
                                if self.entries@[fd as int] is Some {
                                    lemma_tag_below_empty(self.entries@[fd as int]->0.hash);
                                }
                            }
                            return Ok(InsertLocation::Vacant(fd));
                        },
                        None => {
                            proof {
                                self.lemma_saturated_is_full(hash);
                                assert(false);
                            }
                            return Ok(InsertLocation::Saturated);
                        },
                    }
                },
            };
            let group = match ControlGroup::gather_wrapping(self.controls.as_slice(), group_start) {
                Some(g) => g,
                None => {
                    return Err(HashTableError::InvariantViolation);
                },
            };
            let masks = dispatch.classify(&group, tag);
            let lanes_before_empty = match masks.empty.first() {
                Some(lane) => lane,
                None => 16,
            };
            proof {
                if masks.empty.spec_bits() == 0 {
                    assert forall|l: int| 0 <= l < 16 implies !lane_bit(masks.empty.spec_bits(), l) by {
                        let lu = l as u16;
                        assert((0u16 >> lu) & 1u16 != 1u16) by (bit_vector);
                    }
                }
            }
            let mut lane: usize = 0;
            while lane < lanes_before_empty
                invariant
                    self.wf(),
                    b == self.spec_buckets(),
                    b == buckets,
                    b >= 16,
                    hash == key.spec_key_hash(self.seed),
                    tag.spec_value() == tag_of_hash(hash),
                    group_start == probe_index(hash, searched, b),
                    classifies(group, tag, masks),
                    forall|l: int|
                        0 <= l < 16 ==> #[trigger] group.spec_lanes()[l] == self.controls@[(group_start + l) % b],
                    lanes_before_empty <= 16,
                    forall|l: int| 0 <= l < lanes_before_empty ==> !lane_bit(masks.empty.spec_bits(), l),
                    lane <= lanes_before_empty,
                    searched >= 0,
                    forall|d: int|
                        0 <= d < searched + lane ==> !(#[trigger] self.entries@[probe_index(hash, d, b)] is Some
                            && self.entries@[probe_index(hash, d, b)]->0.key == *key),
                    forall|d: int|
                        0 <= d < searched + lane ==> #[trigger] self.controls@[probe_index(hash, d, b)]
                            != EMPTY_CONTROL,
                    first_deleted is None ==> forall|d: int|
                        0 <= d < searched + lane ==> #[trigger] self.controls@[probe_index(hash, d, b)]
                            != DELETED_CONTROL,
                    first_deleted matches Some(fd) ==> 0 <= deleted_at < searched + lane && fd == probe_index(
                        hash,
                        deleted_at,
                        b,
                    ) && self.controls@[fd as int] == DELETED_CONTROL,
                    first_deleted is Some ==> forall|d: int|
                        0 <= d < deleted_at ==> #[trigger] self.controls@[probe_index(hash, d, b)] != DELETED_CONTROL,
                decreases lanes_before_empty - lane,
            {
                let index = wrap_add(group_start, lane, buckets);
                proof {
                    lemma_probe_step(hash, searched, lane as int, b);
                    assert(index == probe_index(hash, searched + lane, b));
                    assert(group.spec_lanes()[lane as int] == self.controls@[index as int]);
                    assert(slot_ok(self.controls@[index as int], self.entries@[index as int], self.seed));
                    if self.entries@[index as int] is Some {
                        lemma_tag_below_empty(self.entries@[index as int]->0.hash);
                    }
                }
                if masks.deleted.contains(lane) {
                    if self.entries[index].is_some() {
                        return Err(HashTableError::InvariantViolation);
                    }
                    if first_deleted.is_none() {
                        first_deleted = Some(index);
                        proof {
                            deleted_at = searched + lane;
                        }
                    }
                } else if masks.matching.contains(lane) {
                    match &self.entries[index] {
                        Some(entry) => {
                            if entry.hash == hash && entry.key.key_eq(key) {
                                return Ok(InsertLocation::Existing(index));
                            }
                        },
                        None => {
                            return Err(HashTableError::InvariantViolation);
                        },
                    }
                } else {
                    if self.entries[index].is_none() {
                        return Err(HashTableError::InvariantViolation);
                    }
                    proof {
                        let e = self.entries@[index as int]->0;
                        if e.key == *key {
                            assert(e.hash == hash);
                        }
                    }
                }
                lane = lane + 1;
            }
            match masks.empty.first() {
                Some(empty_lane) => {
                    let index = wrap_add(group_start, empty_lane, buckets);
                    proof {
                        lemma_probe_step(hash, searched, lanes_before_empty as int, b);
                        assert(group.spec_lanes()[lanes_before_empty as int] == self.controls@[probe_index(
                            hash,
                            searched + lanes_before_empty,
                            b,
                        )]);
                        self.lemma_absent_at_empty(*key, hash, searched + lanes_before_empty);
                        lemma_pow2_multiple_of_sixteen(b as nat);
                        lemma_distance_of_index(hash, searched + lanes_before_empty, b);
                        assert(slot_ok(self.controls@[index as int], self.entries@[index as int], self.seed));
                        if self.entries@[index as int] is Some {
                            lemma_tag_below_empty(self.entries@[index as int]->0.hash);
                        }
                    }
                    match first_deleted {
                        Some(fd) => {
                            proof {
                                lemma_distance_of_index(hash, deleted_at, b);
                                assert(slot_ok(self.controls@[fd as int], self.entries@[fd as int], self.seed));
                                if self.entries@[fd as int] is Some {
                                    lemma_tag_below_empty(self.entries@[fd as int]->0.hash);
                                }
                            }
                            return Ok(InsertLocation::Vacant(fd));
                        },
                        None => {
                            return Ok(InsertLocation::Vacant(index));
                        },
                    }
                },
                None => {},
            }
            proof {
                lemma_probe_step(hash, searched, 16, b);
                searched = searched + 16;
            }
        }
    }
}

impl<K: TableKey, V> DeterministicHashTable<K, V> {
    /// Replaces the value in a live bucket and returns the previous one.
    fn replace_value(&mut self, index: usize, value: V) -> (previous: V)
        requires
            old(self).wf(),
            index < old(self).spec_buckets(),
            old(self).entries@[index as int] is Some,
        ensures
            final(self).wf(),
            final(self).spec_buckets() == old(self).spec_buckets(),
            final(self).spec_seed() == old(self).spec_seed(),
            final(self).spec_deleted() == old(self).spec_deleted(),
            final(self).len == old(self).len,
            old(self)@.dom().contains(old(self).entries@[index as int]->0.key),
            previous == old(self)@[old(self).entries@[index as int]->0.key],
            final(self)@ == old(self)@.insert(old(self).entries@[index as int]->0.key, value),
            final(self).spec_layout() == with_value(
                old(self).spec_layout(),
                old(self).entries@[index as int]->0.key,
                value,
            ),
    {
        proof {
            lemma_map_value(self.entries@, self.entries@.len() as int, index as int);
            let e = self.entries@[index as int]->0;
            assert forall|slot: Option<Entry<K, V>>|
                slot is Some && slot->0.hash == e.hash && slot->0.key == e.key implies #[trigger] storage_ok(
                self.seed,
                self.controls@,
                self.entries@.update(index as int, slot),
                self.len as nat,
                self.deleted as nat,
            ) && map_of(self.entries@.update(index as int, slot), self.entries@.len() as int) == self@.insert(
                e.key,
                slot->0.value,
            ) by {
                lemma_value_update(
                    self.seed,
                    self.controls@,
                    self.entries@,
                    self.len as nat,
                    self.deleted as nat,
                    index as int,
                    slot->0.value,
                );
                assert(slot == Some(Entry { hash: e.hash, key: e.key, value: slot->0.value }));
            }
        }
        let ghost before = *self;
        proof {
            self.lemma_key_slot(self.entries@[index as int]->0.key, index as int);
        }
        let slot = &mut self.entries[index];
        let previous = match slot.as_mut() {
            Some(entry) => {
                let mut replaced = value;
                std::mem::swap(entry_value_mut(entry), &mut replaced);
                replaced
            },
            None => value,
        };
        proof {
            let e = before.entries@[index as int]->0;
            assert(self.spec_slots() =~= before.spec_slots().update(index as int, Some((e.hash, e.key, value))));
        }
        previous
    }

    /// Inserts `key` with `value`, returning the replaced value when the key
    /// was present. Growth and tombstone cleanup are checked; a failure
    /// leaves the map unchanged.
    #[verifier::rlimit(60)]
    pub fn insert(&mut self, key: K, value: V) -> (result: Result<Option<V>, HashTableError>)
        requires
            old(self).wf(),
        ensures
            final(self).wf(),
            final(self).spec_seed() == old(self).spec_seed(),
            match result {
                Ok(Some(previous)) => old(self)@.dom().contains(key) && previous == old(self)@[key] && final(self)@
                    == old(self)@.insert(key, value),
                Ok(None) => !old(self)@.dom().contains(key) && final(self)@ == old(self)@.insert(key, value),
                Err(e) => final(self)@ == old(self)@ && (e == HashTableError::AllocationFailed || (e
                    == HashTableError::CapacityOverflow && required_buckets(old(self)@.len() + 1) is None)),
            },
            result matches Ok(Some(_)) ==> final(self).spec_buckets() == old(self).spec_buckets(),
            result matches Ok(None) ==> final(self).spec_buckets() == insert_buckets(
                old(self).spec_buckets(),
                old(self)@.len(),
            ),
            result is Err ==> final(self).spec_buckets() == old(self).spec_buckets(),
            old(self).spec_buckets() > 0 && old(self)@.dom().contains(key) ==> result == Ok::<
                Option<V>,
                HashTableError,
            >(Some(old(self)@[key])),
            old(self).spec_buckets() > 0 && !old(self)@.dom().contains(key) && old(self)@.len()
                + old(self).spec_deleted() + 1 <= spec_max_live(old(self).spec_buckets() as int) ==> result
                == Ok::<Option<V>, HashTableError>(None),
            !old(self)@.dom().contains(key) && required_buckets(old(self)@.len() + 1) is None ==> result
                == Err::<Option<V>, HashTableError>(HashTableError::CapacityOverflow),
            result matches Ok(Some(_)) ==> final(self).spec_layout() == with_value(old(self).spec_layout(), key, value),
            result matches Ok(None) ==> final(self).spec_layout() == insert_layout(
                old(self).spec_layout(),
                old(self)@.len(),
                old(self).spec_deleted(),
                key.spec_key_hash(old(self).spec_seed()),
                key,
                value,
            ),
    {
        let ghost original = self@;
        let ghost old_buckets = self.spec_buckets();
        let ghost start = *self;
        proof {
            lemma_map_len(self.entries@, self.entries@.len() as int);
        }
        if self.controls.len() == 0 {
            match self.rebuild(MIN_BUCKETS) {
                Ok(()) => {},
                Err(e) => {
                    proof {
                        lemma_pow2_sixteen();
                    }
                    return Err(e);
                },
            }
        }
        let hash = key.key_hash(self.seed);
        let mut location = match self.locate_for_insert(&key, hash) {
            Ok(l) => l,
            Err(e) => return Err(e),
        };
        let ghost located = *self;
        proof {
            if let InsertLocation::Vacant(index) = location {
                lemma_first_free_is(self.controls@, hash, index as int);
            }
            if start.spec_buckets() == 0 {
                assert(self.spec_layout() == rebuilt(start.spec_slots(), 16, 0));
                lemma_map_len(self.entries@, self.entries@.len() as int);
                assert(start@.len() == 0);
                assert(self.len == 0 && self.deleted == 0);
            } else {
                assert(self.spec_layout() == start.spec_layout());
            }
        }
        match location {
            InsertLocation::Existing(index) => {
                let previous = self.replace_value(index, value);
                return Ok(Some(previous));
            },
            _ => {},
        }
        let buckets = self.controls.len();
        proof {
            lemma_map_len(self.entries@, buckets as int);
        }
        let additional_control: usize = match location {
            InsertLocation::Vacant(index) => if self.controls[index] == EMPTY_CONTROL {
                1
            } else {
                0
            },
            _ => 1,
        };
        proof {
            if let InsertLocation::Vacant(index) = location {
                if self.controls@[index as int] != EMPTY_CONTROL {
                    assert(slot_ok(self.controls@[index as int], self.entries@[index as int], self.seed));
                    lemma_deleted_counted(self.controls@, buckets as int, index as int);
                }
            }
            if !original.dom().contains(key) && required_buckets(original.len() + 1) is None {
                lemma_required_none_small(buckets as nat, original.len() + 1);
            }
        }
        let used = match self.len.checked_add(self.deleted) {
            Some(v) => v,
            None => return Err(HashTableError::CapacityOverflow),
        };
        let occupied_after_insert = match used.checked_add(additional_control) {
            Some(v) => v,
            None => return Err(HashTableError::CapacityOverflow),
        };
        if occupied_after_insert > max_live_entries(buckets) {
            let grown = match self.len.checked_add(1) {
                Some(v) => v,
                None => return Err(HashTableError::CapacityOverflow),
            };
            let target = if grown > max_live_entries(buckets) {
                match required_bucket_count(grown) {
                    Ok(b) => b,
                    Err(e) => return Err(e),
                }
            } else {
                buckets
            };
            match self.rebuild(target) {
                Ok(()) => {},
                Err(e) => return Err(e),
            }
            proof {
                lemma_map_len(self.entries@, self.entries@.len() as int);
            }
            location = match self.locate_for_insert(&key, hash) {
                Ok(l) => l,
                Err(e) => return Err(e),
            };
        }
        proof {
            if let InsertLocation::Vacant(index) = location {
                lemma_first_free_is(self.controls@, hash, index as int);
            }
            let grew = occupied_after_insert > spec_max_live(buckets as int);
            if start.spec_buckets() > 0 {
                assert(insert_rebuilds(start.spec_layout(), start@.len(), start.spec_deleted(), hash) == grew);
            } else {
                assert(insert_rebuilds(start.spec_layout(), start@.len(), start.spec_deleted(), hash));
            }
        }
        let index = match location {
            InsertLocation::Existing(index) => {
                let previous = self.replace_value(index, value);
                return Ok(Some(previous));
            },
            InsertLocation::Vacant(index) => index,
            InsertLocation::Saturated => return Err(HashTableError::InvariantViolation),
        };
        proof {
            assert(slot_ok(self.controls@[index as int], self.entries@[index as int], self.seed));
        }
        let ghost before_layout = self.spec_layout();
        proof {
            assert(before_layout == if insert_rebuilds(start.spec_layout(), start@.len(), start.spec_deleted(), hash) {
                rebuilt(start.spec_slots(), insert_buckets(start.spec_buckets(), start@.len()), start.spec_buckets() as int)
            } else {
                start.spec_layout()
            });
            lemma_first_free_is(self.controls@, hash, index as int);
        }
        self.occupy(index, Entry { hash, key, value });
        proof {
            assert(self.spec_slots() =~= before_layout.1.update(index as int, Some((hash, key, value))));
        }
        Ok(None)
    }

    /// Ensures room for `additional` more entries without growth, rebuilding
    /// into more buckets when needed. The map never changes.
    pub fn try_reserve(&mut self, additional: usize) -> (result: Result<(), HashTableError>)
        requires
            old(self).wf(),
        ensures
            final(self).wf(),
            final(self)@ == old(self)@,
            final(self).spec_seed() == old(self).spec_seed(),
            match result {
                Ok(()) => spec_max_live(final(self).spec_buckets() as int) >= old(self)@.len() + additional,
                Err(e) => e == HashTableError::AllocationFailed || (e == HashTableError::CapacityOverflow
                    && required_buckets((old(self)@.len() + additional) as nat) is None),
            },
            match required_buckets((old(self)@.len() + additional) as nat) {
                None => result == Err::<(), HashTableError>(HashTableError::CapacityOverflow) && *final(self)
                    == *old(self),
                Some(b) => if b <= old(self).spec_buckets() {
                    result is Ok && *final(self) == *old(self)
                } else {
                    match result {
                        Ok(()) => final(self).spec_buckets() == b && final(self).spec_deleted() == 0
                            && final(self).spec_layout() == rebuilt(
                            old(self).spec_slots(),
                            b,
                            old(self).spec_buckets() as int,
                        ),
                        Err(e) => e == HashTableError::AllocationFailed && *final(self) == *old(self),
                    }
                },
            },
    {
        proof {
            lemma_map_len(self.entries@, self.entries@.len() as int);
        }
        let required_entries = match self.len.checked_add(additional) {
            Some(v) => v,
            None => {
                proof {
                    lemma_no_target_beyond_usize((self.len + additional) as nat);
                }
                return Err(HashTableError::CapacityOverflow);
            },
        };
        let required = match required_bucket_count(required_entries) {
            Ok(b) => b,
            Err(e) => return Err(e),
        };
        if required > self.controls.len() {
            match self.rebuild(required) {
                Ok(()) => {},
                Err(e) => return Err(e),
            }
        }
        Ok(())
    }

    /// Rebuilds into the smallest table that holds both the current entries
    /// and `min_entries`, removing every tombstone. The map never changes.
    pub fn try_rehash(&mut self, min_entries: usize) -> (result: Result<(), HashTableError>)
        requires
            old(self).wf(),
        ensures
            final(self).wf(),
            final(self)@ == old(self)@,
            final(self).spec_seed() == old(self).spec_seed(),
            match result {
                Ok(()) => final(self).spec_deleted() == 0 && required_buckets(
                    if old(self)@.len() >= min_entries {
                        old(self)@.len()
                    } else {
                        min_entries as nat
                    },
                ) == Some(final(self).spec_buckets()) && final(self).spec_layout() == rebuilt(
                    old(self).spec_slots(),
                    final(self).spec_buckets(),
                    old(self).spec_buckets() as int,
                ),
                Err(e) => *final(self) == *old(self) && (e == HashTableError::AllocationFailed || (e
                    == HashTableError::CapacityOverflow && required_buckets(
                    if old(self)@.len() >= min_entries {
                        old(self)@.len()
                    } else {
                        min_entries as nat
                    },
                ) is None)),
            },
            (required_buckets(
                if old(self)@.len() >= min_entries {
                    old(self)@.len()
                } else {
                    min_entries as nat
                },
            ) is None) == (result == Err::<(), HashTableError>(HashTableError::CapacityOverflow)),
    {
        proof {
            lemma_map_len(self.entries@, self.entries@.len() as int);
        }
        let required_entries = if self.len >= min_entries {
            self.len
        } else {
            min_entries
        };
        let required = match required_bucket_count(required_entries) {
            Ok(b) => b,
            Err(e) => return Err(e),
        };
        self.rebuild(required)
    }
}

/// Of two powers of two, the smaller is at most half the larger.
proof fn lemma_pow2_gap(c: nat, b: nat)
    requires
        is_pow2(c),
        is_pow2(b),
        c < b,
    ensures
        2 * c <= b,
    decreases c,
{
    if c > 1 {
        assert(b % 2 == 0 && is_pow2(b / 2));
        assert(c % 2 == 0 && is_pow2(c / 2));
        lemma_pow2_gap(c / 2, b / 2);
    } else {
        assert(b % 2 == 0);
    }
}

/// When no doubling from `c` holds `entries`, no power-of-two count from
/// `c` up holds them either.
proof fn lemma_no_target_means_small(c: nat, b: nat, entries: nat)
    requires
        is_pow2(c),
        is_pow2(b),
        c <= b <= usize::MAX,
        bucket_target(c, entries) is None,
    ensures
        spec_max_live(b as int) < entries,
    decreases usize::MAX + 1 - c,
{
    if c < b {
        lemma_pow2_gap(c, b);
        lemma_pow2_double(c);
        lemma_no_target_means_small(2 * c, b, entries);
    }
}

/// Without a bucket count for `entries`, no usable bucket count holds them.
proof fn lemma_required_none_small(b: nat, entries: nat)
    requires
        b > 0,
        valid_bucket_count(b),
        b <= usize::MAX,
        entries > 0,
        required_buckets(entries) is None,
    ensures
        spec_max_live(b as int) < entries,
{
    lemma_pow2_sixteen();
    lemma_no_target_means_small(16, b, entries);
}

/// A tombstone among the first `n` controls is counted.
proof fn lemma_deleted_counted(controls: Seq<u8>, n: int, i: int)
    requires
        0 <= i < n <= controls.len(),
        controls[i] == DELETED_CONTROL,
    ensures
        count_deleted(controls, n) >= 1,
    decreases n,
{
    if i < n - 1 {
        lemma_deleted_counted(controls, n - 1, i);
    }
}

/// The bucket count after a new key is inserted: sixteen into an
/// unallocated table; the count needed for one more entry when the live
/// entries would exceed the load bound; else unchanged (a rebuild to clear
/// tombstones keeps the count).
pub open spec fn insert_buckets(buckets: nat, len: nat) -> nat {
    if buckets == 0 {
        16
    } else if len + 1 > spec_max_live(buckets as int) {
        match required_buckets(len + 1) {
            Some(b) => b,
            None => buckets,
        }
    } else {
        buckets
    }
}

/// No bucket count in `usize` holds more entries than `usize` counts.
proof fn lemma_no_target_beyond_usize(entries: nat)
    requires
        entries > usize::MAX,
    ensures
        required_buckets(entries) is None,
{
    lemma_bucket_target_none(16, entries);
}

proof fn lemma_bucket_target_none(buckets: nat, entries: nat)
    requires
        entries > usize::MAX,
    ensures
        bucket_target(buckets, entries) is None,
    decreases usize::MAX + 1 - buckets,
{
    if buckets > 0 && buckets <= usize::MAX && 2 * buckets <= usize::MAX {
        lemma_bucket_target_none(2 * buckets, entries);
    }
}

/// Live key-value pairs of a layout from bucket `p` on, in physical order.
pub open spec fn layout_pairs<K, V>(slots: Seq<LayoutSlot<K, V>>, p: int) -> Seq<(K, V)>
    decreases slots.len() - p,
{
    if p < 0 || p >= slots.len() {
        Seq::empty()
    } else {
        match slots[p] {
            Some(slot) => seq![(slot.1, slot.2)] + layout_pairs(slots, p + 1),
            None => layout_pairs(slots, p + 1),
        }
    }
}

proof fn lemma_layout_pairs<K, V>(entries: Seq<Option<Entry<K, V>>>, p: int)
    requires
        0 <= p <= entries.len(),
    ensures
        live_from(entries, p) == layout_pairs(slots_of(entries), p),
    decreases entries.len() - p,
{
    if p < entries.len() {
        lemma_layout_pairs(entries, p + 1);
    }
}

/// Live key-value pairs from bucket `p` on, in physical bucket order.
spec fn live_from<K, V>(entries: Seq<Option<Entry<K, V>>>, p: int) -> Seq<(K, V)>
    decreases entries.len() - p,
{
    if p < 0 || p >= entries.len() {
        Seq::empty()
    } else {
        match entries[p] {
            Some(e) => seq![(e.key, e.value)] + live_from(entries, p + 1),
            None => live_from(entries, p + 1),
        }
    }
}

proof fn lemma_live_from<K, V>(entries: Seq<Option<Entry<K, V>>>, p: int)
    requires
        0 <= p <= entries.len(),
        keys_unique(entries),
    ensures
        live_from(entries, p).len() + count_full(entries, p) == count_full(entries, entries.len() as int),
        forall|j: int|
            0 <= j < live_from(entries, p).len() ==> map_of(entries, entries.len() as int).dom().contains(
                #[trigger] live_from(entries, p)[j].0,
            ) && map_of(entries, entries.len() as int)[live_from(entries, p)[j].0] == live_from(entries, p)[j].1,
    decreases entries.len() - p,
{
    let n = entries.len() as int;
    if p < n {
        lemma_live_from(entries, p + 1);
        lemma_count_split(entries, p);
        if entries[p] is Some {
            lemma_map_value(entries, n, p);
            let rest = live_from(entries, p + 1);
            let all = live_from(entries, p);
            assert forall|j: int| 0 <= j < all.len() implies map_of(entries, n).dom().contains(#[trigger] all[j].0)
                && map_of(entries, n)[all[j].0] == all[j].1 by {
                if j > 0 {
                    assert(all[j] == rest[j - 1]);
                }
            }
        }
    } else {
        lemma_count_full_same(entries, entries, n);
    }
}

/// Each live pair from bucket `p` on comes from one full bucket at or after
/// `p`.
proof fn lemma_live_from_origin<K, V>(entries: Seq<Option<Entry<K, V>>>, p: int, j: int) -> (i: int)
    requires
        0 <= p <= entries.len(),
        0 <= j < live_from(entries, p).len(),
    ensures
        p <= i < entries.len(),
        entries[i] is Some,
        live_from(entries, p)[j] == (entries[i]->0.key, entries[i]->0.value),
    decreases entries.len() - p,
{
    let rest = live_from(entries, p + 1);
    if entries[p] is Some {
        if j == 0 {
            p
        } else {
            assert(live_from(entries, p)[j] == rest[j - 1]);
            lemma_live_from_origin(entries, p + 1, j - 1)
        }
    } else {
        let i = lemma_live_from_origin(entries, p + 1, j);
        i
    }
}

/// Every full bucket at or after `p` shows up among the live pairs from `p`.
proof fn lemma_live_from_contains<K, V>(entries: Seq<Option<Entry<K, V>>>, p: int, i: int) -> (j: int)
    requires
        0 <= p <= i < entries.len(),
        entries[i] is Some,
    ensures
        0 <= j < live_from(entries, p).len(),
        live_from(entries, p)[j] == (entries[i]->0.key, entries[i]->0.value),
    decreases i - p,
{
    if p == i {
        0
    } else {
        let j = lemma_live_from_contains(entries, p + 1, i);
        if entries[p] is Some {
            assert(live_from(entries, p)[j + 1] == live_from(entries, p + 1)[j]);
            j + 1
        } else {
            j
        }
    }
}

/// Live pairs from `p` on name each key once.
proof fn lemma_live_from_distinct<K, V>(entries: Seq<Option<Entry<K, V>>>, p: int)
    requires
        0 <= p <= entries.len(),
        keys_unique(entries),
    ensures
        forall|a: int, b: int|
            0 <= a < b < live_from(entries, p).len() ==> (#[trigger] live_from(entries, p)[a]).0
                != (#[trigger] live_from(entries, p)[b]).0,
    decreases entries.len() - p,
{
    if p < entries.len() {
        lemma_live_from_distinct(entries, p + 1);
        let all = live_from(entries, p);
        let rest = live_from(entries, p + 1);
        assert forall|a: int, b: int| 0 <= a < b < all.len() implies (#[trigger] all[a]).0 != (#[trigger] all[b]).0 by {
            if entries[p] is Some {
                assert(all[b] == rest[b - 1]);
                if a == 0 {
                    let i = lemma_live_from_origin(entries, p + 1, b - 1);
                    assert(entries[p] is Some && entries[i] is Some && p != i);
                } else {
                    assert(all[a] == rest[a - 1]);
                }
            }
        }
    }
}

proof fn lemma_count_split<K, V>(entries: Seq<Option<Entry<K, V>>>, p: int)
    requires
        0 <= p < entries.len(),
    ensures
        count_full(entries, p + 1) == count_full(entries, p) + if entries[p] is Some {
            1nat
        } else {
            0nat
        },
{
}

/// Iterator over live entries in physical-bucket order.
pub struct Iter<'a, K, V> {
    table: &'a DeterministicHashTable<K, V>,
    next_index: usize,
    remaining: usize,
}

impl<'a, K: TableKey, V> Iter<'a, K, V> {
    /// Pairs still to come, in order.
    pub closed spec fn spec_remaining(self) -> Seq<(K, V)> {
        live_from(self.table.entries@, self.next_index as int)
    }

    /// The iterator's state is consistent with its table.
    pub closed spec fn wf(self) -> bool {
        &&& self.table.wf()
        &&& self.next_index <= self.table.entries@.len()
        &&& self.remaining == live_from(self.table.entries@, self.next_index as int).len()
    }

    /// The next live pair in physical order.
    pub fn next(&mut self) -> (pair: Option<(&'a K, &'a V)>)
        requires
            old(self).wf(),
        ensures
            final(self).wf(),
            old(self).spec_remaining().len() == 0 ==> pair is None && final(self).spec_remaining().len() == 0,
            old(self).spec_remaining().len() > 0 ==> (pair matches Some((k, v)) && (*k, *v) == old(
                self,
            ).spec_remaining()[0] && final(self).spec_remaining() == old(self).spec_remaining().drop_first()),
    {
        let table = self.table;
        let buckets = table.entries.len();
        let mut index = self.next_index;
        while index < buckets
            invariant
                *self == *old(self),
                table == self.table,
                table.wf(),
                buckets == table.entries@.len(),
                self.next_index <= index <= buckets,
                live_from(table.entries@, self.next_index as int) == live_from(table.entries@, index as int),
                self.remaining == live_from(table.entries@, self.next_index as int).len(),
            decreases buckets - index,
        {
            proof {
                assert(live_from(table.entries@, index as int) == match table.entries@[index as int] {
                    Some(e) => seq![(e.key, e.value)] + live_from(table.entries@, index + 1),
                    None => live_from(table.entries@, index + 1),
                });
            }
            match &table.entries[index] {
                Some(entry) => {
                    proof {
                        let rest = live_from(table.entries@, index + 1);
                        assert((seq![(entry.key, entry.value)] + rest).drop_first() =~= rest);
                    }
                    let remaining = self.remaining - 1;
                    *self = Iter { table, next_index: index + 1, remaining };
                    return Some((&entry.key, &entry.value));
                },
                None => {},
            }
            index = index + 1;
        }
        proof {
            assert(live_from(table.entries@, buckets as int) == Seq::<(K, V)>::empty());
        }
        *self = Iter { table, next_index: buckets, remaining: self.remaining };
        None
    }

    /// Exact number of pairs still to come.
    pub fn len(&self) -> (remaining: usize)
        requires
            self.wf(),
        ensures
            remaining == self.spec_remaining().len(),
    {
        self.remaining
    }
}

impl<K: TableKey, V> DeterministicHashTable<K, V> {
    /// Iterates live entries in deterministic physical-bucket order: every
    /// pair of the map exactly once.
    pub fn iter(&self) -> (iter: Iter<'_, K, V>)
        requires
            self.wf(),
        ensures
            iter.wf(),
            iter.spec_remaining().len() == self@.len(),
            iter.spec_remaining() == layout_pairs(self.spec_slots(), 0),
            forall|j: int|
                0 <= j < iter.spec_remaining().len() ==> self@.dom().contains(#[trigger] iter.spec_remaining()[j].0)
                    && self@[iter.spec_remaining()[j].0] == iter.spec_remaining()[j].1,
            forall|a: int, b: int|
                0 <= a < b < iter.spec_remaining().len() ==> (#[trigger] iter.spec_remaining()[a]).0
                    != (#[trigger] iter.spec_remaining()[b]).0,
            forall|k: K|
                #[trigger] self@.dom().contains(k) ==> exists|j: int|
                    0 <= j < iter.spec_remaining().len() && (#[trigger] iter.spec_remaining()[j]) == (k, self@[k]),
    {
        proof {
            lemma_live_from(self.entries@, 0);
            lemma_map_len(self.entries@, self.entries@.len() as int);
            lemma_layout_pairs(self.entries@, 0);
            lemma_live_from_distinct(self.entries@, 0);
            let entries = self.entries@;
            assert forall|k: K| #[trigger] self@.dom().contains(k) implies exists|j: int|
                0 <= j < live_from(entries, 0).len() && (#[trigger] live_from(entries, 0)[j]) == (k, self@[k]) by {
                let i = lemma_map_index(entries, entries.len() as int, k);
                lemma_map_value(entries, entries.len() as int, i);
                let j = lemma_live_from_contains(entries, 0, i);
                assert(live_from(entries, 0)[j] == (k, self@[k]));
            }
        }
        Iter { table: self, next_index: 0, remaining: self.len }
    }
}

impl<K: TableKey, V> DeterministicHashTable<K, V> {
    /// Physical bucket holding `key`, if present.
    pub fn bucket_of(&self, key: &K) -> (index: Option<usize>)
        requires
            self.wf(),
        ensures
            index is Some <==> self@.dom().contains(*key),
            index matches Some(i) ==> i < self.spec_buckets(),
    {
        let found = self.find_index(key);
        proof {
            if let Some(i) = found {
                lemma_map_value(self.entries@, self.entries@.len() as int, i as int);
            }
        }
        found
    }

    /// Number of tombstones.
    pub fn tombstones(&self) -> (count: usize)
        ensures
            count == self.spec_deleted(),
    {
        self.deleted
    }

    /// Control bytes in physical bucket order.
    pub fn controls(&self) -> (controls: &[u8])
        ensures
            controls@ == self.spec_controls(),
    {
        self.controls.as_slice()
    }

    /// The table's stable hash of `key`.
    pub fn hash_key(&self, key: &K) -> (hash: u64)
        ensures
            hash == key.spec_key_hash(self.spec_seed()),
    {
        key.key_hash(self.seed)
    }
}

/// Diagnostic text of a table failure.
pub open spec fn hash_table_error_text(error: HashTableError) -> Seq<char> {
    match error {
        HashTableError::CapacityOverflow => "deterministic hash-table capacity overflow"@,
        HashTableError::AllocationFailed => "deterministic hash-table allocation failed"@,
        HashTableError::InvariantViolation => "deterministic hash-table internal invariant violation"@,
    }
}

impl HashTableError {
    /// Human-readable diagnostic.
    pub fn message(&self) -> (text: String)
        ensures
            text@ == hash_table_error_text(*self),
    {
        match self {
            HashTableError::CapacityOverflow => "deterministic hash-table capacity overflow".to_owned(),
            HashTableError::AllocationFailed => "deterministic hash-table allocation failed".to_owned(),
            HashTableError::InvariantViolation => {
                "deterministic hash-table internal invariant violation".to_owned()
            },
        }
    }
}

} // verus!
