use vstd::prelude::*;

use crate::utils::State;

verus! {

/// The tags of a state identity.
pub type Name = Seq<(char, usize)>;

/// The identities held by a list of states.
pub open spec fn names_of(v: Seq<State>) -> Seq<Name> {
    v.map_values(|s: State| s@)
}

/// A transition list as identities: ((from, symbol), to).
pub open spec fn entries_of(t: Seq<((State, char), State)>) -> Seq<((Name, char), Name)> {
    t.map_values(|e: ((State, char), State)| ((e.0.0@, e.0.1), e.1@))
}

/// The keys of `t` are exactly `states` × `alpha`, each once, and every
/// destination is one of `states`.
pub open spec fn keys_exact(states: Set<Name>, alpha: Set<char>, t: Seq<((Name, char), Name)>) -> bool {
    &&& forall|i: int|
        0 <= i < t.len() ==> states.contains((#[trigger] t[i]).0.0) && alpha.contains(t[i].0.1)
            && states.contains(t[i].1)
    &&& forall|i: int, j: int| 0 <= i < j < t.len() ==> #[trigger] t[i].0 != #[trigger] t[j].0
    &&& forall|s: Name, c: char|
        states.contains(s) && alpha.contains(c) ==> exists|i: int|
            0 <= i < t.len() && #[trigger] t[i].0 == (s, c)
}

/// The lists describe a valid automaton: exact keys, a start state among
/// the states, and accepting states among the states.
pub open spec fn valid_lists(
    states: Set<Name>,
    alpha: Set<char>,
    t: Seq<((Name, char), Name)>,
    start: Name,
    finals: Set<Name>,
) -> bool {
    keys_exact(states, alpha, t) && states.contains(start) && finals.subset_of(states)
}

/// An ε-NFA transition list as identities: ((from, symbol or ε), destinations).
pub open spec fn nfa_entries_of(t: Seq<((State, Option<char>), Vec<State>)>) -> Seq<((Name, Option<char>), Seq<Name>)> {
    t.map_values(|e: ((State, Option<char>), Vec<State>)| ((e.0.0@, e.0.1), names_of(e.1@)))
}

/// The real symbols listed in an ε-NFA alphabet.
pub open spec fn real_symbols(alpha: Seq<Option<char>>) -> Set<char> {
    Set::new(|c: char| alpha.contains(Some(c)))
}

/// Some entry of `t` has key (`from`, `sym`) and lists `to` among its
/// destinations.
pub open spec fn listed_edge(t: Seq<((Name, Option<char>), Seq<Name>)>, from: Name, sym: Option<char>, to: Name) -> bool {
    exists|i: int| 0 <= i < t.len() && (#[trigger] t[i]).0 == (from, sym) && t[i].1.contains(to)
}

} // verus!
