use fgdb::levenshtein::{
    LevenshteinAllocation, LevenshteinAutomaton, LevenshteinError, MAX_EDIT_DISTANCE,
};

fn evaluate(pattern: &[u8], candidate: &[u8], max_edits: u8) -> bool {
    let automaton =
        LevenshteinAutomaton::try_new(pattern, max_edits, 64).expect("bounded test pattern");
    let initial = automaton.initial_state().expect("bounded state");
    let final_state = automaton.try_advance_bytes(&initial, candidate).expect("compatible state");
    automaton.is_match(&final_state).expect("compatible state")
}

fn naive_distance(left: &[u8], right: &[u8]) -> usize {
    let mut previous: Vec<usize> = (0..=right.len()).collect();
    let mut current = vec![0; right.len() + 1];
    for (left_index, &left_byte) in left.iter().enumerate() {
        current[0] = left_index + 1;
        for (right_index, &right_byte) in right.iter().enumerate() {
            current[right_index + 1] = (current[right_index] + 1)
                .min(previous[right_index + 1] + 1)
                .min(previous[right_index] + usize::from(left_byte != right_byte));
        }
        core::mem::swap(&mut previous, &mut current);
    }
    previous[right.len()]
}

fn words(max_len: usize) -> Vec<Vec<u8>> {
    let mut output = vec![Vec::new()];
    for len in 1..=max_len {
        let count = 1_usize << len;
        for mask in 0..count {
            let mut word = Vec::with_capacity(len);
            for bit in 0..len {
                word.push(if (mask >> bit) & 1 == 0 { b'a' } else { b'b' });
            }
            output.push(word);
        }
    }
    output
}

#[test]
fn known_edit_distance_examples_match() {
    for (pattern, candidate, distance) in [
        (&b""[..], &b""[..], 0),
        (b"cat", b"cat", 0),
        (b"cat", b"cut", 1),
        (b"cat", b"cats", 1),
        (b"cats", b"cat", 1),
        (b"book", b"back", 2),
        (b"kitten", b"sitting", 3),
    ] {
        for maximum in 0..=MAX_EDIT_DISTANCE {
            assert_eq!(
                evaluate(pattern, candidate, maximum),
                distance <= usize::from(maximum),
                "{pattern:?} vs {candidate:?} at {maximum}"
            );
        }
    }
}

#[test]
fn exhaustive_small_alphabet_matches_naive_oracle() {
    let corpus = words(4);
    for pattern in &corpus {
        for candidate in &corpus {
            let expected = naive_distance(pattern, candidate);
            for maximum in 0..=MAX_EDIT_DISTANCE {
                assert_eq!(
                    evaluate(pattern, candidate, maximum),
                    expected <= usize::from(maximum),
                    "{pattern:?} vs {candidate:?} at {maximum}"
                );
            }
        }
    }
}

#[test]
fn compressed_prefix_advance_equals_bytewise_advance() {
    let automaton =
        LevenshteinAutomaton::try_new(b"frankengraph", 2, 32).expect("bounded pattern");
    let initial = automaton.initial_state().expect("bounded state");
    let whole = automaton.try_advance_bytes(&initial, b"frankengraf").expect("compatible state");
    let mut bytewise = initial;
    for &byte in b"frankengraf" {
        bytewise = automaton.try_advance(&bytewise, byte).expect("compatible state");
    }
    assert_eq!(whole, bytewise);
    assert!(automaton.is_match(&whole).expect("compatible state"));
}

#[test]
fn edge_plus_compressed_prefix_equals_contiguous_advance() {
    let automaton = LevenshteinAutomaton::try_new(b"chronicle", 2, 32).expect("bounded pattern");
    let initial = automaton.initial_state().expect("bounded state");
    let segmented = automaton
        .try_advance_edge_and_prefix(&initial, b'c', b"hronical")
        .expect("compatible state");
    let contiguous = automaton.try_advance_bytes(&initial, b"chronical").expect("compatible state");
    assert_eq!(segmented, contiguous);
    assert!(automaton.is_match(&segmented).expect("compatible state"));
}

#[test]
fn dead_state_prunes_descendants() {
    let automaton = LevenshteinAutomaton::try_new(b"abc", 1, 3).expect("bounded pattern");
    let initial = automaton.initial_state().expect("bounded state");
    let state = automaton.try_advance_bytes(&initial, b"zzzzz").expect("compatible state");
    assert!(!state.can_match_descendant());
    assert!(!automaton.is_match(&state).expect("compatible state"));
}

#[test]
fn construction_limits_and_incompatible_states_fail_typed() {
    assert_eq!(
        LevenshteinAutomaton::try_new(b"abc", 3, 3),
        Err(LevenshteinError::UnsupportedDistance { requested: 3, maximum: 2 })
    );
    assert_eq!(
        LevenshteinAutomaton::try_new(b"abc", 2, 2),
        Err(LevenshteinError::PatternLimitExceeded { actual: 3, limit: 2 })
    );

    let automaton = LevenshteinAutomaton::try_new(b"abc", 1, 3).expect("bounded pattern");
    let other = LevenshteinAutomaton::try_new(b"xyz", 1, 3).expect("bounded pattern");
    let wrong = other.initial_state().expect("bounded state");
    assert_eq!(automaton.try_advance(&wrong, b'a'), Err(LevenshteinError::StateOwnerMismatch));
}

#[test]
fn initial_row_counts_pattern_prefixes_and_caps() {
    let automaton = LevenshteinAutomaton::try_new(b"abcd", 1, 8).expect("bounded pattern");
    assert_eq!(automaton.pattern(), b"abcd");
    assert_eq!(automaton.max_edits(), 1);
    let initial = automaton.initial_state().expect("bounded state");
    assert_eq!(initial.cell_count(), 5);
    assert_eq!(initial.terminal_distance(), Some(2));
    assert!(initial.can_match_descendant());
    let one = automaton.try_advance(&initial, b'a').expect("compatible state");
    assert_eq!(one.terminal_distance(), Some(2));
    let whole = automaton.try_advance_bytes(&initial, b"abcd").expect("compatible state");
    assert_eq!(whole.terminal_distance(), Some(0));
    assert!(automaton.is_match(&whole).expect("compatible state"));
    let near = automaton.try_advance_bytes(&initial, b"abd").expect("compatible state");
    assert_eq!(near.terminal_distance(), Some(1));
    let far = automaton.try_advance_bytes(&initial, b"ab").expect("compatible state");
    assert_eq!(far.terminal_distance(), Some(2));
    assert!(!automaton.is_match(&far).expect("compatible state"));
}

#[test]
fn cloned_automaton_owns_no_foreign_states() {
    let automaton = LevenshteinAutomaton::try_new(b"abc", 2, 3).expect("bounded pattern");
    let copy = automaton.clone();
    assert_eq!(copy, automaton);
    let state = automaton.initial_state().expect("bounded state");
    assert_eq!(copy.is_match(&state), Err(LevenshteinError::StateOwnerMismatch));
    assert_eq!(
        LevenshteinAutomaton::try_new(b"", 0, 0).map(|automaton| automaton.pattern().len()),
        Ok(0)
    );
    let allocation = LevenshteinError::AllocationFailed {
        target: LevenshteinAllocation::State,
        requested: 4,
    };
    assert_ne!(allocation, LevenshteinError::StateLengthOverflow);
}
