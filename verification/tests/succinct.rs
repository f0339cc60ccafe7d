use fgdb::succinct::{
    checked_appended_len, BitVectorError, Ones, SuccinctBitVector, SuccinctBitVectorBuilder,
};
use std::mem::size_of;

const WORD_BITS: usize = 64;

fn low_mask(bits: usize) -> u64 {
    match bits {
        0 => 0,
        WORD_BITS => u64::MAX,
        _ => (1_u64 << bits) - 1,
    }
}

fn collect(mut ones: Ones<'_>) -> Vec<usize> {
    let mut positions = Vec::new();
    while let Some(position) = ones.next() {
        positions.push(position);
    }
    positions
}

fn make_bits(mut len: usize, mut predicate: impl FnMut(usize) -> bool) -> Vec<bool> {
    let original_len = len;
    let mut bits = Vec::with_capacity(len);
    while len != 0 {
        let index = original_len - len;
        bits.push(predicate(index));
        len -= 1;
    }
    bits
}

fn assert_matches_naive(bits: &[bool]) {
    let vector = SuccinctBitVector::try_from_bits(bits).expect("bits construct");
    assert_eq!(vector.len(), bits.len());
    assert_eq!(vector.is_empty(), bits.is_empty());

    for (index, &expected) in bits.iter().enumerate() {
        assert_eq!(vector.get(index), Some(expected), "get mismatch at {index} for len {}", bits.len());
    }
    assert_eq!(vector.get(bits.len()), None);

    let expected_ones = bits
        .iter()
        .enumerate()
        .filter_map(|(index, &bit)| bit.then_some(index))
        .collect::<Vec<_>>();
    let expected_zeros = bits
        .iter()
        .enumerate()
        .filter_map(|(index, &bit)| (!bit).then_some(index))
        .collect::<Vec<_>>();

    assert_eq!(vector.count_ones(), expected_ones.len());
    assert_eq!(vector.count_zeros(), expected_zeros.len());
    assert_eq!(collect(vector.iter_ones()), expected_ones);

    for end in 0..=bits.len() {
        let naive_ones = bits[..end].iter().filter(|&&bit| bit).count();
        assert_eq!(vector.rank1(end), Some(naive_ones), "rank1 mismatch at {end} for len {}", bits.len());
        assert_eq!(vector.rank0(end), Some(end - naive_ones), "rank0 mismatch at {end} for len {}", bits.len());
    }
    assert_eq!(vector.rank1(bits.len().saturating_add(1)), None);
    assert_eq!(vector.rank0(bits.len().saturating_add(1)), None);

    for (ordinal, &position) in expected_ones.iter().enumerate() {
        assert_eq!(vector.select1(ordinal), Some(position), "select1 mismatch at {ordinal} for len {}", bits.len());
    }
    assert_eq!(vector.select1(expected_ones.len()), None);

    for (ordinal, &position) in expected_zeros.iter().enumerate() {
        assert_eq!(vector.select0(ordinal), Some(position), "select0 mismatch at {ordinal} for len {}", bits.len());
    }
    assert_eq!(vector.select0(expected_zeros.len()), None);
}

#[test]
fn construction_rejects_noncanonical_shapes_and_padding() {
    assert_eq!(
        SuccinctBitVector::try_from_words(0, vec![0]),
        Err(BitVectorError::WordCountMismatch {
            bit_len: 0,
            expected_words: 0,
            actual_words: 1,
        })
    );
    assert_eq!(
        SuccinctBitVector::try_from_words(65, vec![0]),
        Err(BitVectorError::WordCountMismatch {
            bit_len: 65,
            expected_words: 2,
            actual_words: 1,
        })
    );
    assert_eq!(
        SuccinctBitVector::try_from_words(65, vec![0, 2]),
        Err(BitVectorError::NonZeroPadding {
            bit_len: 65,
            word_index: 1,
            word: 2,
            non_zero_padding: 2,
        })
    );

    let exact = SuccinctBitVector::try_from_words(65, vec![u64::MAX, 1]).expect("canonical words construct");
    assert_eq!(exact.as_words(), &[u64::MAX, 1]);
    assert_eq!(exact.len(), 65);
    assert_eq!(exact.count_ones(), 65);
}

#[test]
fn empty_vector_has_defined_boundaries_and_storage() {
    let vector = SuccinctBitVector::try_from_words(0, Vec::new()).expect("empty vector constructs");
    assert!(vector.is_empty());
    assert_eq!(vector.len(), 0);
    assert_eq!(vector.as_words(), &[] as &[u64]);
    assert_eq!(vector.get(0), None);
    assert_eq!(vector.rank1(0), Some(0));
    assert_eq!(vector.rank0(0), Some(0));
    assert_eq!(vector.rank1(1), None);
    assert_eq!(vector.rank0(1), None);
    assert_eq!(vector.select1(0), None);
    assert_eq!(vector.select0(0), None);
    assert_eq!(vector.iter_ones().next(), None);
    let storage = vector.storage_breakdown();
    assert_eq!(storage.word_bytes(), 0);
    assert_eq!(storage.rank_superblock_bytes(), size_of::<usize>());
    assert_eq!(storage.rank_subblock_bytes(), 0);
    assert_eq!(storage.total_bytes(), size_of::<usize>());
}

#[test]
fn exhaustive_small_universes_match_naive_queries() {
    for len in 0..=12_usize {
        let pattern_count = 1_usize << len;
        for pattern in 0..pattern_count {
            let bits = (0..len).map(|index| pattern & (1_usize << index) != 0).collect::<Vec<_>>();
            assert_matches_naive(&bits);
        }
    }
}

#[test]
fn word_and_superblock_boundaries_match_naive_queries() {
    for len in [1_usize, 2, 63, 64, 65, 127, 128, 129, 511, 512, 513, 1023, 1024, 1025] {
        let patterns = [
            make_bits(len, |_: usize| false),
            make_bits(len, |_: usize| true),
            make_bits(len, |index| index % 2 == 0),
            make_bits(len, |index| index % 3 == 1),
            make_bits(len, |index| index == 0 || index + 1 == len || index % 64 == 0 || index % 64 == 63),
        ];
        for bits in patterns {
            assert_matches_naive(&bits);
        }
    }
}

#[test]
fn select_directory_skips_repeated_superblock_prefixes() {
    let sparse_ones = make_bits(2_049, |index| matches!(index, 0 | 1_024 | 2_048));
    let ones_vector = SuccinctBitVector::try_from_bits(&sparse_ones).expect("sparse ones construct");
    assert_eq!(ones_vector.select1(0), Some(0));
    assert_eq!(ones_vector.select1(1), Some(1_024));
    assert_eq!(ones_vector.select1(2), Some(2_048));

    let sparse_zeros = make_bits(2_049, |index| !matches!(index, 0 | 1_024 | 2_048));
    let zeros_vector = SuccinctBitVector::try_from_bits(&sparse_zeros).expect("sparse zeros construct");
    assert_eq!(zeros_vector.select0(0), Some(0));
    assert_eq!(zeros_vector.select0(1), Some(1_024));
    assert_eq!(zeros_vector.select0(2), Some(2_048));
}

#[test]
fn deterministic_large_differential_matches_naive_queries() {
    for (case, len) in [257_usize, 511, 512, 513, 1_001, 4_097, 16_385].into_iter().enumerate() {
        for seed_offset in 0..4_u64 {
            let mut state = 0x9e37_79b9_7f4a_7c15_u64 ^ (case as u64) ^ (seed_offset << 32);
            let bits = make_bits(len, |index| {
                state ^= state << 13;
                state ^= state >> 7;
                state ^= state << 17;
                state.wrapping_add(index as u64).count_ones() % 5 <= 1
            });
            assert_matches_naive(&bits);
        }
    }
}

#[test]
fn final_padding_never_appears_as_a_zero_or_one() {
    let vector = SuccinctBitVector::try_from_words(65, vec![0, 1]).expect("canonical partial word");
    assert_eq!(vector.count_ones(), 1);
    assert_eq!(vector.count_zeros(), 64);
    assert_eq!(vector.select1(0), Some(64));
    assert_eq!(vector.select1(1), None);
    assert_eq!(vector.select0(63), Some(63));
    assert_eq!(vector.select0(64), None);
    assert_eq!(collect(vector.iter_ones()), vec![64]);
}

#[test]
fn storage_accounting_uses_exact_array_lengths() {
    let vector = SuccinctBitVector::try_from_words(513, vec![0; 9]).expect("canonical vector");
    let storage = vector.storage_breakdown();
    assert_eq!(storage.word_bytes(), 9 * size_of::<u64>());
    assert_eq!(storage.rank_superblock_bytes(), 3 * size_of::<usize>());
    assert_eq!(storage.rank_subblock_bytes(), 9 * size_of::<u16>());
    assert_eq!(
        storage.total_bytes(),
        9 * size_of::<u64>() + 3 * size_of::<usize>() + 9 * size_of::<u16>()
    );
    assert_eq!(vector.logical_storage_bytes(), storage.total_bytes());

    let retained = vector.retained_storage_breakdown();
    assert!(retained.word_bytes() >= storage.word_bytes());
    assert_eq!(retained.word_bytes() % size_of::<u64>(), 0);
    assert!(retained.rank_superblock_bytes() >= storage.rank_superblock_bytes());
    assert_eq!(retained.rank_superblock_bytes() % size_of::<usize>(), 0);
    assert!(retained.rank_subblock_bytes() >= storage.rank_subblock_bytes());
    assert_eq!(retained.rank_subblock_bytes() % size_of::<u16>(), 0);
    assert_eq!(vector.retained_storage_bytes(), retained.total_bytes());
    assert!(vector.retained_storage_bytes() >= vector.logical_storage_bytes());
}

#[test]
fn builder_enforces_limit_atomically_at_bit_boundaries() {
    let mut builder = SuccinctBitVectorBuilder::try_with_capacity(65, 65).expect("builder reserves");
    assert_eq!(builder.len(), 0);
    assert!(builder.is_empty());
    assert_eq!(builder.max_bits(), 65);
    assert_eq!(builder.remaining_bits(), 65);
    assert_eq!(builder.word_len(), 0);
    assert!(builder.word_capacity() >= 2);
    assert_eq!(builder.capacity_bits(), 65);
    assert_eq!(builder.spare_capacity_bits(), 65);
    assert_eq!(builder.logical_word_bytes(), 0);
    assert_eq!(builder.retained_word_bytes(), builder.word_capacity() * size_of::<u64>());

    let first_word = make_bits(64, |index| index % 3 == 0);
    builder.extend(&first_word).expect("first word extends");
    builder.push(true).expect("boundary bit appends");
    assert_eq!(builder.len(), 65);
    assert_eq!(builder.remaining_bits(), 0);
    assert_eq!(builder.word_len(), 2);
    assert_eq!(builder.logical_word_bytes(), 2 * size_of::<u64>());
    assert_eq!(builder.as_words()[1], 1);

    let before = builder.clone();
    assert_eq!(
        builder.push(false),
        Err(BitVectorError::BitLimitExceeded {
            attempted_bits: 66,
            max_bits: 65,
        })
    );
    assert_eq!(builder, before);

    let vector = builder.finish().expect("builder finishes");
    let mut expected = first_word;
    expected.push(true);
    assert_eq!(vector, SuccinctBitVector::try_from_bits(&expected).expect("reference constructs"));
}

#[test]
fn builder_rejected_extend_does_not_partially_mutate() {
    let mut builder = SuccinctBitVectorBuilder::new(5);
    builder.extend(&[true, false, true]).expect("prefix extends");
    let before = builder.clone();
    assert_eq!(
        builder.extend(&[false, true, false]),
        Err(BitVectorError::BitLimitExceeded {
            attempted_bits: 6,
            max_bits: 5,
        })
    );
    assert_eq!(builder, before);
    assert_eq!(
        SuccinctBitVectorBuilder::try_with_capacity(4, 5),
        Err(BitVectorError::BitLimitExceeded {
            attempted_bits: 5,
            max_bits: 4,
        })
    );
    assert_eq!(
        checked_appended_len(usize::MAX, 1, usize::MAX),
        Err(BitVectorError::LengthOverflow {
            current_bits: usize::MAX,
            additional_bits: 1,
        })
    );
}

#[test]
fn builder_chunking_is_canonically_equivalent() {
    for len in [0_usize, 1, 63, 64, 65, 511, 512, 513, 2_049] {
        let bits = make_bits(len, |index| index == 0 || index + 1 == len || index % 7 == 2 || index % 127 == 64);
        let reference = SuccinctBitVector::try_from_bits(&bits).expect("reference constructs");

        let mut pushed = SuccinctBitVectorBuilder::new(len);
        for &bit in &bits {
            pushed.push(bit).expect("single bit appends");
        }
        let pushed = pushed.finish().expect("pushed builder finishes");

        let mut chunked =
            SuccinctBitVectorBuilder::try_with_capacity(len, len.min(65)).expect("chunked builder reserves");
        let chunk_sizes = [2_usize, 1, 63, 7, 129, 3, 64];
        let mut start = 0_usize;
        let mut chunk_index = 0_usize;
        while start < bits.len() {
            let end = start.saturating_add(chunk_sizes[chunk_index % chunk_sizes.len()]).min(bits.len());
            chunked.extend(&bits[start..end]).expect("chunk appends");
            let final_bits = chunked.len() % WORD_BITS;
            if final_bits != 0 {
                let padding = chunked.as_words()[chunked.word_len() - 1] & !low_mask(final_bits);
                assert_eq!(padding, 0);
            }
            start = end;
            chunk_index += 1;
        }
        let chunked = chunked.finish().expect("chunked builder finishes");

        assert_eq!(pushed, reference, "push mismatch at length {len}");
        assert_eq!(chunked, reference, "chunk mismatch at length {len}");
    }
}

#[test]
fn builder_finish_reuses_word_allocation_and_capacity() {
    let bits = make_bits(513, |index| index % 11 == 4);
    let mut builder =
        SuccinctBitVectorBuilder::try_with_capacity(bits.len(), bits.len()).expect("builder reserves");
    builder.extend(&bits).expect("bits append");
    let words_capacity = builder.word_capacity();

    let vector = builder.finish().expect("builder finishes");
    assert_eq!(vector.retained_storage_breakdown().word_bytes(), words_capacity * size_of::<u64>());
    let reference = SuccinctBitVector::try_from_bits(&bits).expect("reference constructs");
    assert_eq!(vector, reference);
}

#[test]
fn one_iterator_is_exact_sized_and_fused() {
    let bits = make_bits(200, |index| matches!(index, 0 | 63 | 64 | 199));
    let vector = SuccinctBitVector::try_from_bits(&bits).expect("bits construct");
    let mut ones = vector.iter_ones();
    assert_eq!(ones.len(), 4);
    assert_eq!(ones.next(), Some(0));
    assert_eq!(ones.len(), 3);
    let mut rest = Vec::new();
    while let Some(position) = ones.next() {
        rest.push(position);
    }
    assert_eq!(rest, vec![63, 64, 199]);
    assert_eq!(ones.len(), 0);
    assert_eq!(ones.next(), None);
    assert_eq!(ones.next(), None);
    assert_eq!(collect(vector.iter_ones()), vec![0, 63, 64, 199]);
}

#[test]
fn words_round_trip_through_the_builder_and_rank_select_invert() {
    let bits = make_bits(700, |index| index % 5 == 3 || index == 699);
    let vector = SuccinctBitVector::try_from_bits(&bits).unwrap();
    let rebuilt = SuccinctBitVector::try_from_words(700, vector.as_words().to_vec()).unwrap();
    assert_eq!(rebuilt, vector);
    for ordinal in 0..vector.count_ones() {
        let position = vector.select1(ordinal).unwrap();
        assert_eq!(vector.rank1(position), Some(ordinal));
        assert_eq!(vector.get(position), Some(true));
    }
    for ordinal in 0..vector.count_zeros() {
        let position = vector.select0(ordinal).unwrap();
        assert_eq!(vector.rank0(position), Some(ordinal));
        assert_eq!(vector.get(position), Some(false));
    }
}
