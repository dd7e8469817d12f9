use finite_automata::dfa::DFA;
use finite_automata::nfa::EpsilonNFA;
use finite_automata::utils::{CustomError, State};
use std::ops::Range;

fn q(i: usize) -> State {
    State::new('q', i)
}

/// ab*a over {a, b}.
fn ab_star_a() -> DFA {
    DFA::new(
        vec![q(0), q(1), q(2), q(3)],
        vec!['a', 'b'],
        vec![
            ((q(0), 'a'), q(1)),
            ((q(0), 'b'), q(3)),
            ((q(1), 'a'), q(2)),
            ((q(1), 'b'), q(1)),
            ((q(2), 'a'), q(3)),
            ((q(2), 'b'), q(3)),
            ((q(3), 'a'), q(3)),
            ((q(3), 'b'), q(3)),
        ],
        q(0),
        vec![q(2)],
    )
    .unwrap()
}

/// An a, then anything that ends in a.
fn a_or_ab_star_a() -> DFA {
    DFA::new(
        vec![q(0), q(1), q(2), q(3), q(4)],
        vec!['a', 'b'],
        vec![
            ((q(0), 'a'), q(1)),
            ((q(0), 'b'), q(4)),
            ((q(1), 'a'), q(2)),
            ((q(1), 'b'), q(3)),
            ((q(2), 'a'), q(2)),
            ((q(2), 'b'), q(3)),
            ((q(3), 'a'), q(2)),
            ((q(3), 'b'), q(3)),
            ((q(4), 'a'), q(4)),
            ((q(4), 'b'), q(4)),
        ],
        q(0),
        vec![q(1), q(2)],
    )
    .unwrap()
}

fn all_matches(dfa: &mut DFA, text: &str) -> Vec<Range<usize>> {
    let mut it = dfa.find_all(text).unwrap();
    let mut out = Vec::new();
    while let Some(r) = it.next() {
        out.push(r);
    }
    out
}

#[test]
fn find_all_ab_star_a() {
    let mut dfa = ab_star_a();
    let text = "bbabbabbabbbaabaaaaba";
    let found = all_matches(&mut dfa, text);
    assert_eq!(found, vec![2..6, 8..13, 13..16, 16..18, 18..21]);
    let slices: Vec<&str> = found.iter().map(|r| &text[r.clone()]).collect();
    assert_eq!(slices, vec!["abba", "abbba", "aba", "aa", "aba"]);
}

#[test]
fn find_first_match_and_none() {
    let mut dfa = ab_star_a();
    assert_eq!(dfa.find("bbabba").unwrap(), Some(2..6));
    assert_eq!(dfa.find("bbbb").unwrap(), None);
    assert_eq!(dfa.find("").unwrap(), None);
    assert_eq!(dfa.find("abc"), Err(CustomError::InvalidAlphabet));
}

#[test]
fn find_all_rejects_alphabet_mismatch() {
    let mut dfa = ab_star_a();
    assert!(matches!(dfa.find_all("aaaa"), Err(CustomError::InvalidAlphabet)));
    assert!(matches!(dfa.find_all("abx"), Err(CustomError::InvalidAlphabet)));
}

#[test]
fn accepts_ab_star_a() {
    let mut dfa = ab_star_a();
    for (w, expected) in [("", false), ("a", false), ("aa", true), ("aba", true), ("abba", true), ("abab", false), ("b", false)] {
        assert_eq!(dfa.accepts(w).unwrap(), expected, "word {w:?}");
    }
    assert_eq!(dfa.accepts("abc"), Err(CustomError::InvalidAlphabet));
}

#[test]
fn intersection_equals_first_language() {
    let dfa1 = ab_star_a();
    let dfa2 = a_or_ab_star_a();
    let mut both = dfa1.intersection(&dfa2).unwrap();
    let mut first = ab_star_a();
    for w in ["", "a", "aa", "aba", "abba", "b", "ab", "abab", "aab", "baa"] {
        assert_eq!(both.accepts(w).unwrap(), first.accepts(w).unwrap(), "word {w:?}");
    }
    assert!(!both.accepts("a").unwrap());
    assert!(both.accepts("aa").unwrap());
    assert!(both.accepts("aba").unwrap());
    assert!(both.accepts("abba").unwrap());
}

#[test]
fn union_and_difference() {
    let dfa1 = ab_star_a();
    let dfa2 = a_or_ab_star_a();
    let mut either = dfa1.union(&dfa2).unwrap();
    let mut minus = dfa2.difference(&dfa1).unwrap();
    for (w, in_union, in_difference) in [
        ("a", true, true),
        ("aa", true, false),
        ("aba", true, false),
        ("abaa", true, true),
        ("b", false, false),
        ("ab", false, false),
        ("", false, false),
    ] {
        assert_eq!(either.accepts(w).unwrap(), in_union, "union, word {w:?}");
        assert_eq!(minus.accepts(w).unwrap(), in_difference, "difference, word {w:?}");
    }
}

#[test]
fn product_over_different_alphabets_traps_foreign_symbols() {
    let dfa1 = ab_star_a();
    let only_a = DFA::new(vec![q(0)], vec!['a'], vec![((q(0), 'a'), q(0))], q(0), vec![q(0)]).unwrap();
    let mut both = dfa1.union(&only_a).unwrap();
    assert!(both.accepts("aa").unwrap());
    assert!(!both.accepts("aba").unwrap());
}

#[test]
fn complement_twice_restores_language() {
    let dfa = ab_star_a();
    let mut once = dfa.get_complement();
    let mut twice = once.get_complement();
    let mut plain = ab_star_a();
    for w in ["", "a", "aa", "aba", "abba", "b", "ab", "abab"] {
        assert_eq!(once.accepts(w).unwrap(), !plain.accepts(w).unwrap(), "word {w:?}");
        assert_eq!(twice.accepts(w).unwrap(), plain.accepts(w).unwrap(), "word {w:?}");
    }
}

#[test]
fn minimization_merges_equivalent_states() {
    // q1 and q2 accept the same words; q3 is unreachable.
    let mut dfa = DFA::new_unoptimized(
        vec![q(0), q(1), q(2), q(3)],
        vec!['a'],
        vec![((q(0), 'a'), q(1)), ((q(1), 'a'), q(2)), ((q(2), 'a'), q(1)), ((q(3), 'a'), q(3))],
        q(0),
        vec![q(1), q(2)],
    )
    .unwrap();
    assert_eq!(dfa.get_topologically_sorted().len(), 4);
    let mut minimal = dfa.get_minimized();
    assert_eq!(minimal.get_topologically_sorted().len(), 2);
    for w in ["", "a", "aa", "aaa"] {
        assert_eq!(minimal.accepts(w).unwrap(), dfa.accepts(w).unwrap(), "word {w:?}");
    }
    let again = minimal.get_minimized();
    assert_eq!(again.get_topologically_sorted().len(), 2);
    dfa.minimize();
    assert_eq!(dfa.get_topologically_sorted().len(), 2);
}

#[test]
fn canonical_names_after_minimization() {
    let dfa = ab_star_a();
    let order = dfa.get_topologically_sorted();
    assert_eq!(order.len(), 4);
    assert_eq!(order[0], State::new('q', 0));
}

#[test]
fn validation_errors() {
    let missing = DFA::new(vec![q(0), q(1)], vec!['a'], vec![((q(0), 'a'), q(1))], q(0), vec![q(1)]);
    assert_eq!(missing.err(), Some(CustomError::InvalidDFAKeys));
    let stray = DFA::new(vec![q(0)], vec!['a'], vec![((q(0), 'a'), q(0)), ((q(5), 'a'), q(0))], q(0), vec![]);
    assert_eq!(stray.err(), Some(CustomError::InvalidDFAKeys));
    let duplicate = DFA::new(vec![q(0)], vec!['a'], vec![((q(0), 'a'), q(0)), ((q(0), 'a'), q(0))], q(0), vec![]);
    assert_eq!(duplicate.err(), Some(CustomError::InvalidDFAKeys));
    let no_start = DFA::new(vec![q(0)], vec!['a'], vec![((q(0), 'a'), q(0))], q(7), vec![]);
    assert_eq!(no_start.err(), Some(CustomError::NoDFAStartState));
    let bad_final = DFA::new(vec![q(0)], vec!['a'], vec![((q(0), 'a'), q(0))], q(0), vec![q(9)]);
    assert_eq!(bad_final.err(), Some(CustomError::InvalidDFAFinalStates));
    let fine = DFA::new_unoptimized(vec![q(0), q(0)], vec!['a', 'a'], vec![((q(0), 'a'), q(0))], q(0), vec![q(0)]);
    assert!(fine.is_ok());
}

#[test]
fn trapped_state_restarts_the_scan() {
    // The trap is entered on "b"; a later match is still found.
    let mut dfa = ab_star_a();
    assert_eq!(dfa.find("bbbaa").unwrap(), Some(3..5));
    assert!(!dfa.accepts("ba").unwrap());
    assert!(!dfa.accepts("baa").unwrap());
}

#[test]
fn find_reports_byte_ranges() {
    let mut dfa = DFA::new(
        vec![q(0), q(1), q(2)],
        vec!['é', 'x'],
        vec![
            ((q(0), 'é'), q(1)),
            ((q(0), 'x'), q(2)),
            ((q(1), 'é'), q(1)),
            ((q(1), 'x'), q(2)),
            ((q(2), 'é'), q(2)),
            ((q(2), 'x'), q(2)),
        ],
        q(0),
        vec![q(1)],
    )
    .unwrap();
    let text = "xxééx";
    let r = dfa.find(text).unwrap().unwrap();
    assert_eq!(&text[r.clone()], "éé");
    assert_eq!(r, 2..6);
    // Without a trap before it, the window keeps its first start.
    let mut loose = DFA::new(
        vec![q(0), q(1), q(2)],
        vec!['é', 'x'],
        vec![
            ((q(0), 'é'), q(1)),
            ((q(0), 'x'), q(0)),
            ((q(1), 'é'), q(1)),
            ((q(1), 'x'), q(2)),
            ((q(2), 'é'), q(2)),
            ((q(2), 'x'), q(2)),
        ],
        q(0),
        vec![q(1)],
    )
    .unwrap();
    assert_eq!(loose.find(text).unwrap(), Some(0..6));
}

fn test5_nfa(with_epsilon: bool) -> EpsilonNFA {
    let mut table = vec![
        ((q(0), Some('a')), vec![q(1), q(3)]),
        ((q(1), Some('a')), vec![q(1), q(2)]),
        ((q(1), Some('b')), vec![q(1)]),
    ];
    if with_epsilon {
        table.push(((q(1), None), vec![q(3)]));
    }
    EpsilonNFA::new(
        vec![q(0), q(1), q(2), q(3)],
        vec![Some('a'), Some('b')],
        table,
        vec![q(0)],
        vec![q(2), q(3)],
    )
    .unwrap()
}

#[test]
fn subset_construction_accepts_the_nfa_language() {
    let nfa = test5_nfa(false);
    let mut dfa = nfa.to_dfa();
    for (w, expected) in [("", false), ("a", true), ("b", false), ("aa", true), ("ab", false), ("aba", true), ("abb", false)] {
        assert_eq!(dfa.accepts(w).unwrap(), expected, "word {w:?}");
    }
}

#[test]
fn epsilon_elimination_keeps_language() {
    let nfa = test5_nfa(true);
    let without = nfa.get_non_epsilon_nfa();
    let mut before = nfa.to_dfa();
    let mut after = without.to_dfa();
    for (w, expected) in [("", false), ("a", true), ("b", false), ("ab", true), ("abb", true), ("aa", true), ("ba", false)] {
        assert_eq!(before.accepts(w).unwrap(), expected, "word {w:?}");
        assert_eq!(after.accepts(w).unwrap(), expected, "word {w:?}");
    }
    let mut in_place = test5_nfa(true);
    in_place.remove_epsilon_transitions();
    let mut third = in_place.to_dfa();
    for w in ["", "a", "b", "ab", "abb", "aa", "ba"] {
        assert_eq!(third.accepts(w).unwrap(), before.accepts(w).unwrap(), "word {w:?}");
    }
}

#[test]
fn epsilon_nfa_with_two_start_states() {
    let nfa = EpsilonNFA::new(
        vec![q(0), q(1), q(2), q(3)],
        vec![Some('a'), Some('b')],
        vec![
            ((q(0), Some('a')), vec![q(1), q(3)]),
            ((q(1), Some('a')), vec![q(1), q(2)]),
            ((q(1), Some('b')), vec![q(1)]),
            ((q(1), None), vec![q(3)]),
        ],
        vec![q(0), q(1)],
        vec![q(2), q(3)],
    )
    .unwrap();
    let mut dfa = nfa.to_dfa();
    for w in ["", "a", "b", "ab", "ba", "bb"] {
        assert!(dfa.accepts(w).unwrap(), "word {w:?}");
    }
    assert_eq!(dfa.get_topologically_sorted().len(), 1);
}

#[test]
fn state_identities_merge() {
    let a = State::new('q', 1);
    let b = State::new('T', 0);
    let ab = a.concat(&b);
    assert_eq!(ab.get_index(), vec![('q', 1), ('T', 0)]);
    assert_eq!(State::new_empty().get_index(), vec![]);
    assert_eq!(State::new_empty().concat(&a), a);
    assert!(ab.equals(&a.concat(&b)));
    assert!(!ab.equals(&b.concat(&a)));
}
