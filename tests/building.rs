use finite_automata::dfa::DFA;
use finite_automata::nfa::EpsilonNFA;
use finite_automata::utils::{CustomError, State};

fn q(i: usize) -> State {
    State::new('q', i)
}

#[test]
fn builders_edit_the_automaton() {
    let mut dfa = DFA::new_unoptimized(vec![q(0)], vec!['a'], vec![((q(0), 'a'), q(0))], q(0), vec![]).unwrap();
    assert_eq!(dfa.get_trapped_states(), vec![q(0)]);
    dfa.add_state(q(1));
    assert_eq!(dfa.get_states(), vec![q(0), q(1)]);
    dfa.add_state(q(1));
    assert_eq!(dfa.get_states().len(), 2);
    dfa.add_final_state(q(1));
    assert_eq!(dfa.get_final_states(), vec![q(1)]);
    assert_eq!(dfa.get_trapped_states(), vec![q(0)]);
    dfa.add_transition(q(0), q(1), 'a');
    assert_eq!(dfa.get_trapped_states(), vec![]);
    assert!(dfa.accepts("a").unwrap());
    assert!(!dfa.accepts("").unwrap());
    dfa.add_alphabet('b');
    assert_eq!(dfa.get_alphabets(), vec!['a', 'b']);
    assert!(dfa.accepts("ab").unwrap());
    assert!(!dfa.accepts("b").unwrap());
    dfa.add_transition(q(0), q(9), 'a');
    assert!(dfa.accepts("a").unwrap());
    dfa.set_start_state(q(1));
    assert_eq!(dfa.get_start_state(), q(1));
    assert!(dfa.accepts("").unwrap());
    dfa.set_start_state(q(7));
    assert_eq!(dfa.get_start_state(), q(1));
}

#[test]
fn cursor_moves_one_symbol_at_a_time() {
    let mut dfa = DFA::new_unoptimized(
        vec![q(0), q(1)],
        vec!['a'],
        vec![((q(0), 'a'), q(1)), ((q(1), 'a'), q(0))],
        q(0),
        vec![q(1)],
    )
    .unwrap();
    assert_eq!(dfa.get_current_state(), q(0));
    dfa.update_to_next_state('a').unwrap();
    assert_eq!(dfa.get_current_state(), q(1));
    assert_eq!(dfa.update_to_next_state('c'), Err(CustomError::InvalidAlphabet));
    assert_eq!(dfa.get_current_state(), q(1));
    dfa.set_current_state(q(0));
    assert_eq!(dfa.get_current_state(), q(0));
}

#[test]
fn transition_table_lists_every_pair() {
    let dfa = DFA::new_unoptimized(
        vec![q(0), q(1)],
        vec!['a', 'b'],
        vec![((q(0), 'a'), q(1)), ((q(0), 'b'), q(0)), ((q(1), 'a'), q(1)), ((q(1), 'b'), q(0))],
        q(0),
        vec![q(1)],
    )
    .unwrap();
    assert_eq!(
        dfa.get_transition_table(),
        vec![((q(0), 'a'), q(1)), ((q(0), 'b'), q(0)), ((q(1), 'a'), q(1)), ((q(1), 'b'), q(0))]
    );
}

#[test]
fn unreachable_states_are_removed_and_names_canonical() {
    let mut dfa = DFA::new_unoptimized(
        vec![q(5), q(6), q(7)],
        vec!['a'],
        vec![((q(5), 'a'), q(6)), ((q(6), 'a'), q(6)), ((q(7), 'a'), q(5))],
        q(5),
        vec![q(6)],
    )
    .unwrap();
    dfa.remove_unreachable_states();
    assert_eq!(dfa.get_states(), vec![q(5), q(6)]);
    dfa.rename_states();
    assert_eq!(dfa.get_start_state(), q(0));
    assert_eq!(dfa.get_states(), vec![q(0), q(1)]);
    assert!(dfa.accepts("a").unwrap());
}

#[test]
fn trapped_states_follow_acceptance() {
    let mut dfa = DFA::new_unoptimized(
        vec![q(0), q(1), q(2)],
        vec!['a', 'b'],
        vec![
            ((q(0), 'a'), q(1)),
            ((q(0), 'b'), q(2)),
            ((q(1), 'a'), q(1)),
            ((q(1), 'b'), q(1)),
            ((q(2), 'a'), q(2)),
            ((q(2), 'b'), q(2)),
        ],
        q(0),
        vec![q(1)],
    )
    .unwrap();
    assert_eq!(dfa.get_trapped_states(), vec![q(2)]);
    dfa.complement();
    assert_eq!(dfa.get_trapped_states(), vec![q(1)]);
    dfa.update_trapped_states();
    assert_eq!(dfa.get_trapped_states(), vec![q(1)]);
}

#[test]
fn match_iterator_ends() {
    let mut dfa = DFA::new(vec![q(0)], vec!['a'], vec![((q(0), 'a'), q(0))], q(0), vec![q(0)]).unwrap();
    let mut it = dfa.find_all("aaa").unwrap();
    assert_eq!(it.next(), Some(0..3));
    assert_eq!(it.next(), None);
    assert_eq!(it.next(), None);
}

#[test]
fn nfa_pruning_keeps_language() {
    let nfa = EpsilonNFA::new(
        vec![q(0), q(1), q(2), q(3), q(4)],
        vec![Some('a'), None],
        vec![
            ((q(0), Some('a')), vec![q(1), q(3)]),
            ((q(1), Some('a')), vec![q(1)]),
            ((q(2), Some('a')), vec![q(1)]),
            ((q(9), Some('a')), vec![q(0)]),
        ],
        vec![q(0)],
        vec![q(1)],
    )
    .unwrap();
    assert_eq!(nfa.get_topologically_sorted().len(), 2);
    let mut again = nfa.clone();
    again.remove_unreachable_states();
    again.remove_trapped_states();
    again.minimize();
    assert_eq!(again.get_topologically_sorted().len(), 2);
    let mut dfa = again.to_dfa();
    for (w, expected) in [("", false), ("a", true), ("aa", true)] {
        assert_eq!(dfa.accepts(w).unwrap(), expected, "word {w:?}");
    }
}

#[test]
fn topological_order_follows_transitions() {
    let dfa = DFA::new_unoptimized(
        vec![q(2), q(1), q(0)],
        vec!['a'],
        vec![((q(0), 'a'), q(1)), ((q(1), 'a'), q(2)), ((q(2), 'a'), q(2))],
        q(0),
        vec![q(2)],
    )
    .unwrap();
    assert_eq!(dfa.get_topologically_sorted(), vec![q(0), q(1), q(2)]);
}

#[test]
fn nfa_from_dfa_keeps_language() {
    let dfa = DFA::new(
        vec![q(0), q(1), q(2)],
        vec!['a', 'b'],
        vec![
            ((q(0), 'a'), q(1)),
            ((q(0), 'b'), q(2)),
            ((q(1), 'a'), q(1)),
            ((q(1), 'b'), q(2)),
            ((q(2), 'a'), q(2)),
            ((q(2), 'b'), q(2)),
        ],
        q(0),
        vec![q(1)],
    )
    .unwrap();
    let nfa = EpsilonNFA::from_dfa(&dfa);
    let mut back = nfa.to_dfa();
    let mut direct = dfa.clone();
    for w in ["", "a", "aa", "ab", "b", "aab"] {
        assert_eq!(back.accepts(w).unwrap(), direct.accepts(w).unwrap(), "word {w:?}");
    }
    assert!(back.accepts("aaa").unwrap());
    assert!(!back.accepts("ba").unwrap());
}
