use fgdb::hash_table::{DeterministicHashTable, GroupProbe, HashTableError, TableKey, MIN_BUCKETS};
use fgdb::probe::{CONTROL_GROUP_WIDTH, EMPTY_CONTROL};
use fgdb::seeded_hash::SeededHasher;
use std::collections::{BTreeMap, HashMap};

#[derive(Clone, Copy, Debug, Eq, Ord, PartialEq, PartialOrd)]
struct CollisionKey(u32);

impl TableKey for CollisionKey {
    fn key_hash(&self, seed: u64) -> u64 {
        let mut hasher = SeededHasher::new(seed);
        hasher.write_u8(0x5a);
        hasher.finish()
    }

    fn key_eq(&self, other: &Self) -> bool {
        self.0 == other.0
    }
}

#[derive(Clone, Debug, Eq, PartialEq)]
struct Name(String);

impl TableKey for Name {
    fn key_hash(&self, seed: u64) -> u64 {
        let mut hasher = SeededHasher::new(seed);
        hasher.write(self.0.as_bytes());
        hasher.write_u8(0xff);
        hasher.finish()
    }

    fn key_eq(&self, other: &Self) -> bool {
        self.0 == other.0
    }
}

fn name(text: &str) -> Name {
    Name(text.to_owned())
}

fn physical_index<K: TableKey, V>(table: &DeterministicHashTable<K, V>, key: &K) -> Option<usize> {
    table.bucket_of(key)
}

fn rows<K: TableKey + Copy, V: Copy>(table: &DeterministicHashTable<K, V>) -> Vec<(K, V)> {
    let mut iter = table.iter();
    let mut rows = Vec::new();
    while let Some((&key, &value)) = iter.next() {
        rows.push((key, value));
    }
    rows
}

fn sorted_table(table: &DeterministicHashTable<u64, i64>) -> Vec<(u64, i64)> {
    let mut rows = rows(table);
    rows.sort_unstable();
    rows
}

fn sorted_hash_map(map: &HashMap<u64, i64>) -> Vec<(u64, i64)> {
    let mut rows: Vec<_> = map.iter().map(|(&key, &value)| (key, value)).collect();
    rows.sort_unstable();
    rows
}

#[test]
fn seeded_hasher_is_segment_stable_and_little_endian() {
    let mut integer = SeededHasher::new(41);
    integer.write_u32(0x0102_0304);

    let mut bytes = SeededHasher::new(41);
    bytes.write(&[0x04, 0x03]);
    bytes.write(&[0x02, 0x01]);

    assert_eq!(integer.finish(), bytes.finish());
    assert_ne!(SeededHasher::new(40).finish(), SeededHasher::new(41).finish());
}

#[test]
fn group_probe_is_bounded_and_visits_each_bucket_once() {
    for buckets in [16, 32, 64, 256] {
        for start in 0..buckets as u64 {
            let mut seen = vec![false; buckets];
            let mut groups = 0;
            let mut probe = GroupProbe::new(start, buckets);
            while let Some(group_start) = probe.next_group() {
                groups += 1;
                for lane in 0..CONTROL_GROUP_WIDTH {
                    let index = (group_start + lane) & (buckets - 1);
                    assert!(!seen[index]);
                    seen[index] = true;
                }
            }
            assert_eq!(groups, buckets / CONTROL_GROUP_WIDTH);
            assert!(seen.into_iter().all(core::convert::identity));
            assert_eq!(probe.next_group(), None);
        }
    }
}

#[test]
fn insert_replace_lookup_mutate_and_remove() {
    let mut table = DeterministicHashTable::new(17);
    assert_eq!(table.insert(name("alpha"), 10), Ok(None));
    assert_eq!(table.insert(name("beta"), 20), Ok(None));
    assert_eq!(table.insert(name("alpha"), 11), Ok(Some(10)));
    assert_eq!(table.len(), 2);
    assert_eq!(table.get(&name("alpha")), Some(&11));
    assert_eq!(table.get(&name("missing")), None);
    assert!(table.contains_key(&name("beta")));

    if let Some(value) = table.get_mut(&name("beta")) {
        *value = 23;
    }
    assert_eq!(table.get(&name("beta")), Some(&23));
    assert_eq!(table.remove(&name("alpha")), Some(11));
    assert_eq!(table.remove(&name("alpha")), None);
    assert_eq!(table.len(), 1);

    table.clear();
    assert!(table.is_empty());
    assert_eq!(table.bucket_count(), MIN_BUCKETS);
    assert!(table.controls().iter().all(|&control| control == EMPTY_CONTROL));
}

#[test]
fn collision_chain_survives_tombstones_and_reuses_the_first_one() {
    let mut table = DeterministicHashTable::new(7);
    for key in 0..14 {
        assert_eq!(table.insert(CollisionKey(key), key * 10), Ok(None));
    }
    assert_eq!(table.bucket_count(), 16);

    let first_hole = physical_index(&table, &CollisionKey(1));
    let second_hole = physical_index(&table, &CollisionKey(4));
    assert!(first_hole.is_some());
    assert!(second_hole.is_some());
    assert_eq!(table.remove(&CollisionKey(1)), Some(10));
    assert_eq!(table.remove(&CollisionKey(4)), Some(40));
    assert_eq!(table.tombstones(), 2);

    for key in 0..14 {
        if key != 1 && key != 4 {
            assert_eq!(table.get(&CollisionKey(key)), Some(&(key * 10)));
        }
    }
    assert_eq!(table.get(&CollisionKey(1)), None);

    assert_eq!(table.insert(CollisionKey(100), 1000), Ok(None));
    assert_eq!(table.bucket_count(), 16);
    assert_eq!(physical_index(&table, &CollisionKey(100)), first_hole);
    assert_eq!(table.tombstones(), 1);
    assert_eq!(table.insert(CollisionKey(101), 1010), Ok(None));
    assert_eq!(table.bucket_count(), 16);
    assert_eq!(physical_index(&table, &CollisionKey(101)), second_hole);
    assert_eq!(table.tombstones(), 0);
}

#[test]
fn probing_wraps_across_the_last_bucket() {
    let mut table = DeterministicHashTable::new(91);

    let mut keys = Vec::new();
    let mut candidate = 0_u64;
    while keys.len() < 8 {
        if table.hash_key(&candidate) as usize & 15 == 14 {
            keys.push(candidate);
        }
        candidate += 1;
    }

    for (ordinal, &key) in keys.iter().enumerate() {
        assert_eq!(table.insert(key, ordinal), Ok(None));
    }
    assert_eq!(table.bucket_count(), 16);
    let positions: Vec<_> = keys.iter().map(|key| physical_index(&table, key)).collect();
    assert_eq!(
        positions,
        vec![Some(14), Some(15), Some(0), Some(1), Some(2), Some(3), Some(4), Some(5)]
    );
    for (ordinal, key) in keys.iter().enumerate() {
        assert_eq!(table.get(key), Some(&ordinal));
    }
}

#[test]
fn growth_is_checked_and_replacement_does_not_grow() {
    let mut table = DeterministicHashTable::new(23);
    for key in 0_u64..14 {
        assert_eq!(table.insert(key, key), Ok(None));
    }
    assert_eq!(table.bucket_count(), 16);
    assert_eq!(table.capacity(), 14);

    assert_eq!(table.insert(3, 300), Ok(Some(3)));
    assert_eq!(table.bucket_count(), 16);
    assert_eq!(table.insert(14, 14), Ok(None));
    assert_eq!(table.bucket_count(), 32);

    assert_eq!(table.try_reserve(1_000), Ok(()));
    assert!(table.capacity() >= table.len() + 1_000);
    for key in 0_u64..15 {
        assert_eq!(table.get(&key), Some(&(if key == 3 { 300 } else { key })));
    }

    assert_eq!(table.try_reserve(usize::MAX), Err(HashTableError::CapacityOverflow));
    assert!(matches!(
        DeterministicHashTable::<u64, u8>::try_with_capacity(0, usize::MAX),
        Err(HashTableError::CapacityOverflow)
    ));
}

#[test]
fn rehash_clears_tombstones_without_semantic_drift() {
    let mut table = DeterministicHashTable::<u64, i64>::new(5);
    for key in 0_u64..100 {
        assert_eq!(table.insert(key, key as i64 * 3), Ok(None));
    }
    for key in (0_u64..100).step_by(2) {
        assert_eq!(table.remove(&key), Some(key as i64 * 3));
    }
    assert!(table.tombstones() > 0);

    let before = sorted_table(&table);
    assert_eq!(table.try_rehash(table.len()), Ok(()));
    assert_eq!(table.tombstones(), 0);
    assert_eq!(sorted_table(&table), before);
}

#[test]
fn full_hash_collisions_survive_growth_and_deletion_churn() {
    let mut table = DeterministicHashTable::new(0x77);
    for key in 0..300 {
        assert_eq!(table.insert(CollisionKey(key), key), Ok(None));
    }
    assert!(table.bucket_count() > MIN_BUCKETS);

    for key in (0..300).step_by(4) {
        assert_eq!(table.remove(&CollisionKey(key)), Some(key));
    }
    for key in 300..450 {
        assert_eq!(table.insert(CollisionKey(key), key), Ok(None));
    }

    for key in 0..450 {
        let expected = if key < 300 && key % 4 == 0 { None } else { Some(&key) };
        assert_eq!(table.get(&CollisionKey(key)), expected);
    }
}

#[test]
fn differential_operation_stream_matches_standard_maps() {
    let mut table = DeterministicHashTable::new(0xd1ff_e2e3_1234_5678);
    let mut hash_map = HashMap::new();
    let mut tree_map = BTreeMap::new();
    let mut state = 0x243f_6a88_85a3_08d3_u64;

    for step in 0..25_000_u64 {
        state = state
            .wrapping_mul(6_364_136_223_846_793_005)
            .wrapping_add(1_442_695_040_888_963_407);
        let key = (state >> 17) % 1_009;
        let value = ((state >> 33) as i64) ^ step as i64;
        match state & 7 {
            0..=3 => {
                let expected = tree_map.insert(key, value);
                assert_eq!(hash_map.insert(key, value), expected);
                assert_eq!(table.insert(key, value), Ok(expected));
            }
            4 => {
                let expected = tree_map.remove(&key);
                assert_eq!(hash_map.remove(&key), expected);
                assert_eq!(table.remove(&key), expected);
            }
            5 => {
                assert_eq!(table.get(&key), tree_map.get(&key));
                assert_eq!(hash_map.get(&key), tree_map.get(&key));
            }
            _ => {
                let delta = (step % 31) as i64;
                let actual = table.get_mut(&key).map(|slot| {
                    *slot += delta;
                    *slot
                });
                let expected = tree_map.get_mut(&key).map(|slot| {
                    *slot += delta;
                    *slot
                });
                let hash_value = hash_map.get_mut(&key).map(|slot| {
                    *slot += delta;
                    *slot
                });
                assert_eq!(actual, expected);
                assert_eq!(hash_value, expected);
            }
        }

        assert_eq!(table.len(), tree_map.len());
        if step % 257 == 0 {
            let expected: Vec<_> = tree_map.iter().map(|(&key, &value)| (key, value)).collect();
            assert_eq!(sorted_table(&table), expected);
            assert_eq!(sorted_hash_map(&hash_map), expected);
        }
    }

    let expected: Vec<_> = tree_map.iter().map(|(&key, &value)| (key, value)).collect();
    assert_eq!(sorted_table(&table), expected);
    assert_eq!(sorted_hash_map(&hash_map), expected);
}

fn exercise(seed: u64) -> DeterministicHashTable<u64, u64> {
    let mut table = DeterministicHashTable::new(seed);
    for key in 0_u64..300 {
        assert_eq!(table.insert(key, key.rotate_left(7)), Ok(None));
    }
    for key in (0_u64..300).step_by(3) {
        assert_eq!(table.remove(&key), Some(key.rotate_left(7)));
    }
    for key in 500_u64..650 {
        assert_eq!(table.insert(key, key.rotate_right(5)), Ok(None));
    }
    for key in (1_u64..250).step_by(11) {
        if let Some(value) = table.get_mut(&key) {
            *value ^= 0xa5a5;
        }
    }
    table
}

#[test]
fn identical_seed_and_operations_have_identical_physical_iteration() {
    let first = exercise(0x0123_4567_89ab_cdef);
    let second = exercise(0x0123_4567_89ab_cdef);
    assert_eq!(first.bucket_count(), second.bucket_count());
    assert_eq!(rows(&first), rows(&second));
    assert_eq!(first.controls(), second.controls());

    let different_seed = exercise(0xfedc_ba98_7654_3210);
    assert_ne!(
        rows(&first).into_iter().map(|(key, _)| key).collect::<Vec<_>>(),
        rows(&different_seed).into_iter().map(|(key, _)| key).collect::<Vec<_>>()
    );
}

#[test]
fn iterator_reports_exact_remaining_length() {
    let mut table = DeterministicHashTable::new(1);
    for key in 0_u64..20 {
        assert_eq!(table.insert(key, key + 1), Ok(None));
    }
    let mut iter = table.iter();
    for remaining in (1..=20).rev() {
        assert_eq!(iter.len(), remaining);
        assert!(iter.next().is_some());
    }
    assert_eq!(iter.len(), 0);
    assert_eq!(iter.next(), None);
}

#[test]
fn reserved_capacity_and_empty_tables_behave_as_maps() {
    let mut table = DeterministicHashTable::<u64, u64>::try_with_capacity(9, 20).unwrap();
    assert_eq!(table.bucket_count(), 32);
    assert_eq!(table.seed(), 9);
    assert_eq!(table.get(&1), None);
    assert_eq!(table.remove(&1), None);
    let empty = DeterministicHashTable::<u64, u64>::new(3);
    assert_eq!(empty.bucket_count(), 0);
    assert_eq!(empty.capacity(), 0);
    assert!(!empty.contains_key(&0));
    for key in 0_u64..20 {
        table.insert(key, key * key).unwrap();
    }
    assert_eq!(table.bucket_count(), 32);
    for key in 0_u64..20 {
        assert_eq!(table.remove(&key), Some(key * key));
    }
    assert!(table.is_empty());
    assert_eq!(table.tombstones(), 0);
    assert!(table.controls().iter().all(|&control| control == EMPTY_CONTROL));
}
