use lau_chaos_theory::{count_distinct_blocks, count_transitions, ShiftSpace};

#[test]
fn test_shift_space_full() {
    let ss = ShiftSpace::full(2);
    assert!(ss.is_allowed(0, 0));
    assert!(ss.is_allowed(0, 1));
    assert!(ss.is_allowed(1, 0));
    assert!(ss.is_allowed(1, 1));
    assert_eq!(ss.allowed_transitions(0), 2);
}

#[test]
fn test_shift_space_restricted() {
    let ss = ShiftSpace {
        n_symbols: 2,
        forbidden: vec![(0, 0)],
    };
    assert!(!ss.is_allowed(0, 0));
    assert!(ss.is_allowed(0, 1));
    assert_eq!(ss.allowed_transitions(0), 1);
    assert_eq!(ss.allowed_transitions(1), 2);
}

#[test]
fn shift_space_full_counts_every_symbol() {
    let ss = ShiftSpace::full(5);
    assert_eq!(ss.n_symbols, 5);
    assert!(ss.forbidden.is_empty());
    for from in 0..5 {
        assert_eq!(ss.allowed_transitions(from), 5);
    }
}

#[test]
fn shift_space_forbidding_one_more_removes_one_successor() {
    let mut ss = ShiftSpace {
        n_symbols: 3,
        forbidden: vec![(1, 2)],
    };
    assert_eq!(ss.allowed_transitions(1), 2);
    // A new forbidden target of symbol 1 removes one successor.
    ss.forbidden.push((1, 0));
    assert_eq!(ss.allowed_transitions(1), 1);
    // Forbidding it twice changes nothing.
    ss.forbidden.push((1, 0));
    assert_eq!(ss.allowed_transitions(1), 1);
    // A target beyond the alphabet changes nothing.
    ss.forbidden.push((1, 7));
    assert_eq!(ss.allowed_transitions(1), 1);
    // Other symbols are unaffected.
    assert_eq!(ss.allowed_transitions(0), 3);
}

#[test]
fn shift_space_forbidden_out_of_alphabet_source() {
    let ss = ShiftSpace {
        n_symbols: 2,
        forbidden: vec![(4, 0), (4, 1)],
    };
    assert!(!ss.is_allowed(4, 1));
    assert_eq!(ss.allowed_transitions(4), 0);
    assert_eq!(ss.allowed_transitions(0), 2);
    assert_eq!(ShiftSpace::full(0).allowed_transitions(0), 0);
}

#[test]
fn distinct_blocks_of_small_sequence() {
    // Blocks of length 2: 01, 10, 01, 11 -> three distinct.
    assert_eq!(count_distinct_blocks(&[0, 1, 0, 1, 1], 2), 3);
    // Blocks of length 3: 010, 101, 011 -> three distinct.
    assert_eq!(count_distinct_blocks(&[0, 1, 0, 1, 1], 3), 3);
    // Single symbols: 0 and 1.
    assert_eq!(count_distinct_blocks(&[0, 1, 0, 1, 1], 1), 2);
    // The whole sequence is its only block of full length.
    assert_eq!(count_distinct_blocks(&[0, 1, 0, 1, 1], 5), 1);
}

#[test]
fn distinct_blocks_edge_cases() {
    // Longer blocks than the sequence: none.
    assert_eq!(count_distinct_blocks(&[3, 4], 3), 0);
    assert_eq!(count_distinct_blocks(&[], 1), 0);
    // The empty block is the only block of length 0.
    assert_eq!(count_distinct_blocks(&[3, 4], 0), 1);
    assert_eq!(count_distinct_blocks(&[], 0), 1);
    // A constant sequence has a single block of each length.
    let constant = vec![7usize; 50];
    assert_eq!(count_distinct_blocks(&constant, 1), 1);
    assert_eq!(count_distinct_blocks(&constant, 8), 1);
}

#[test]
fn distinct_blocks_of_periodic_sequence() {
    // A sequence of period 3 has three distinct blocks of every length >= 1.
    let seq: Vec<usize> = (0..60).map(|i| i % 3).collect();
    for k in 1..10 {
        assert_eq!(count_distinct_blocks(&seq, k), 3);
    }
    // A de Bruijn sequence of order 3 over {0, 1}, closed by its first two
    // symbols, holds all eight blocks of length 3.
    let debruijn = [0, 0, 0, 1, 0, 1, 1, 1, 0, 0];
    assert_eq!(count_distinct_blocks(&debruijn, 3), 8);
}

#[test]
fn transitions_of_alternating_sequence() {
    // 0,1,0,1,...: every symbol has a single successor.
    let seq: Vec<usize> = (0..100).map(|i| i % 2).collect();
    let tc = count_transitions(&seq);
    let mut pairs = tc.pairs.clone();
    pairs.sort();
    assert_eq!(pairs, vec![(0, 1, 50), (1, 0, 49)]);
    let mut origins = tc.origins.clone();
    origins.sort();
    assert_eq!(origins, vec![(0, 50), (1, 49)]);
}

#[test]
fn transitions_counts_and_totals() {
    let seq = [0usize, 0, 1, 0, 2, 0, 0];
    let tc = count_transitions(&seq);
    let mut pairs = tc.pairs.clone();
    pairs.sort();
    assert_eq!(pairs, vec![(0, 0, 2), (0, 1, 1), (0, 2, 1), (1, 0, 1), (2, 0, 1)]);
    let mut origins = tc.origins.clone();
    origins.sort();
    assert_eq!(origins, vec![(0, 4), (1, 1), (2, 1)]);
    // The counts add up to the number of transitions.
    let total: usize = tc.pairs.iter().map(|p| p.2).sum();
    assert_eq!(total, seq.len() - 1);
    // Each origin count is the sum of the counts of the transitions leaving it.
    for &(from, count) in &tc.origins {
        let out: usize = tc.pairs.iter().filter(|p| p.0 == from).map(|p| p.2).sum();
        assert_eq!(out, count);
    }
}

#[test]
fn transitions_of_short_sequences() {
    let tc = count_transitions(&[]);
    assert!(tc.pairs.is_empty() && tc.origins.is_empty());
    let tc = count_transitions(&[5]);
    assert!(tc.pairs.is_empty() && tc.origins.is_empty());
    let tc = count_transitions(&[5, 6]);
    assert_eq!(tc.pairs, vec![(5, 6, 1)]);
    assert_eq!(tc.origins, vec![(5, 1)]);
}
