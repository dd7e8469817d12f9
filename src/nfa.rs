use vstd::prelude::*;

use crate::constants::AUTO_OPTIMIZE;
use crate::dfa::{copy_vec, lemma_mark, num_unmarked, DFA};
use crate::input::{listed_edge, names_of, nfa_entries_of, real_symbols};
use crate::table::{distinct_chars, distinct_states, lemma_names_of_contains, lemma_names_of_member, position_of};
use crate::utils::CustomError;
use crate::utils::State;

mod order;
mod prune;
mod subset;

verus! {

/// A nondeterministic finite automaton with ε-transitions.
///
/// States are numbered `0 .. num_states()`; state `s` carries the identity
/// `name(s)`. `edge(s, a, t)` holds when `t` is a destination of `s` on the
/// symbol at position `a` of `alphabet()`, and `eps(s, t)` when `t` is an
/// ε-destination of `s`.
#[derive(Debug, Clone)]
pub struct EpsilonNFA {
    states: Vec<State>,
    alphabets: Vec<char>,
    transition_table: Vec<Vec<Vec<bool>>>,
    epsilon_table: Vec<Vec<bool>>,
    start_states: Vec<bool>,
    final_states: Vec<bool>,
}

impl EpsilonNFA {
    /// The number of states.
    pub closed spec fn num_states(&self) -> int {
        self.states@.len() as int
    }

    /// The symbols other than ε, each once.
    pub closed spec fn alphabet(&self) -> Seq<char> {
        self.alphabets@
    }

    /// The identity of state `s`.
    pub closed spec fn name(&self, s: int) -> Seq<(char, usize)> {
        self.states@[s]@
    }

    /// A transition leads from `s` to `t` on the symbol at position `a`.
    pub closed spec fn edge(&self, s: int, a: int, t: int) -> bool {
        0 <= t < self.states@.len() && self.transition_table@[s]@[a]@[t]
    }

    /// An ε-transition leads from `s` to `t`.
    pub closed spec fn eps(&self, s: int, t: int) -> bool {
        0 <= t < self.states@.len() && self.epsilon_table@[s]@[t]
    }

    /// Whether `s` is a start state.
    pub closed spec fn is_start(&self, s: int) -> bool {
        self.start_states@[s]
    }

    /// Whether `s` accepts.
    pub closed spec fn is_final(&self, s: int) -> bool {
        self.final_states@[s]
    }

    /// The lengths of the storage agree with the number of states and symbols.
    pub closed spec fn wf(&self) -> bool {
        &&& self.alphabets@.no_duplicates()
        &&& self.transition_table@.len() == self.states@.len()
        &&& forall|s: int| 0 <= s < self.states@.len() ==> (#[trigger] self.transition_table@[s])@.len() == self.alphabets@.len()
        &&& forall|s: int, a: int| 0 <= s < self.states@.len() && 0 <= a < self.alphabets@.len()
            ==> (#[trigger] self.transition_table@[s]@[a])@.len() == self.states@.len()
        &&& self.epsilon_table@.len() == self.states@.len()
        &&& forall|s: int| 0 <= s < self.states@.len() ==> (#[trigger] self.epsilon_table@[s])@.len() == self.states@.len()
        &&& self.start_states@.len() == self.states@.len()
        &&& self.final_states@.len() == self.states@.len()
    }

    /// `s` is one of the states.
    pub open spec fn valid_state(&self, s: int) -> bool {
        0 <= s < self.num_states()
    }

    /// `t` is reached from `s` by at most `k` ε-transitions.
    pub open spec fn eps_reach(&self, s: int, t: int, k: nat) -> bool
        decreases k,
    {
        if k == 0 {
            s == t
        } else {
            self.eps_reach(s, t, (k - 1) as nat) || exists|u: int|
                self.valid_state(u) && self.eps_reach(s, u, (k - 1) as nat) && #[trigger] self.eps(u, t)
        }
    }

    /// The ε-closure of a set of states: what ε-transitions reach from it.
    pub open spec fn closure(&self, set: Set<int>) -> Set<int> {
        Set::new(|t: int| self.valid_state(t) && exists|s: int, k: nat| set.contains(s) && #[trigger] self.eps_reach(s, t, k))
    }

    /// The destinations of a set of states on the symbol `c`.
    pub open spec fn post(&self, set: Set<int>, c: char) -> Set<int> {
        Set::new(|t: int| self.valid_state(t) && exists|s: int| set.contains(s) && #[trigger] self.edge(s, self.alphabet().index_of(c), t))
    }

    /// The start states.
    pub open spec fn starts(&self) -> Set<int> {
        Set::new(|s: int| self.valid_state(s) && self.is_start(s))
    }

    /// The states that the automaton may be in after reading `w`.
    pub open spec fn reach(&self, w: Seq<char>) -> Set<int>
        decreases w.len(),
    {
        if w.len() == 0 {
            self.closure(self.starts())
        } else {
            self.closure(self.post(self.reach(w.drop_last()), w.last()))
        }
    }

    /// Every symbol of `w` is in the alphabet.
    pub open spec fn in_alphabet(&self, w: Seq<char>) -> bool {
        forall|i: int| 0 <= i < w.len() ==> self.alphabet().contains(#[trigger] w[i])
    }

    /// Some path through ε- and symbol transitions reads `w` from a start
    /// state into an accepting state.
    pub open spec fn accepts_word(&self, w: Seq<char>) -> bool {
        self.in_alphabet(w) && exists|s: int| #[trigger] self.reach(w).contains(s) && self.is_final(s)
    }

    /// No ε-transitions are left.
    pub open spec fn no_epsilon(&self) -> bool {
        forall|s: int, t: int| self.valid_state(s) && self.valid_state(t) ==> !#[trigger] self.eps(s, t)
    }

    /// A set of states, given by flags, as a set.
    pub open spec fn set_of(&self, m: Seq<bool>) -> Set<int> {
        Set::new(|t: int| self.valid_state(t) && m[t])
    }

    /// A set closed under ε-transitions holds whatever they reach from it.
    pub proof fn lemma_closed_reach(&self, m: Set<int>, s: int, t: int, k: nat)
        requires
            forall|x: int, y: int| self.valid_state(x) && m.contains(x) && #[trigger] self.eps(x, y) ==> m.contains(y),
            m.contains(s),
            self.eps_reach(s, t, k),
        ensures
            m.contains(t),
        decreases k,
    {
        if k > 0 {
            if self.eps_reach(s, t, (k - 1) as nat) {
                self.lemma_closed_reach(m, s, t, (k - 1) as nat);
            } else {
                let u = choose|u: int| self.valid_state(u) && self.eps_reach(s, u, (k - 1) as nat) && #[trigger] self.eps(u, t);
                self.lemma_closed_reach(m, s, u, (k - 1) as nat);
            }
        }
    }

    /// One more ε-transition extends ε-reachability.
    pub proof fn lemma_eps_reach_step(&self, s: int, u: int, t: int, k: nat)
        requires
            self.valid_state(u),
            self.eps_reach(s, u, k),
            self.eps(u, t),
        ensures
            self.eps_reach(s, t, k + 1),
    {
        assert(self.eps_reach(s, t, (k + 1) as nat) == (self.eps_reach(s, t, k) || exists|v: int|
            self.valid_state(v) && self.eps_reach(s, v, k) && #[trigger] self.eps(v, t)));
    }

    /// A closure is closed under ε-transitions.
    pub proof fn lemma_closure_closed(&self, set: Set<int>)
        requires
            self.wf(),
        ensures
            forall|x: int, y: int| self.valid_state(x) && self.closure(set).contains(x) && #[trigger] self.eps(x, y)
                ==> self.closure(set).contains(y),
    {
        assert forall|x: int, y: int| self.valid_state(x) && self.closure(set).contains(x) && #[trigger] self.eps(x, y)
            implies self.closure(set).contains(y) by {
            let (s, k) = choose|s: int, k: nat| set.contains(s) && #[trigger] self.eps_reach(s, x, k);
            self.lemma_eps_reach_step(s, x, y, k);
        }
    }

    /// Every valid member of a set is in its closure.
    pub proof fn lemma_closure_contains(&self, set: Set<int>, s: int)
        requires
            self.valid_state(s),
            set.contains(s),
        ensures
            self.closure(set).contains(s),
    {
        assert(self.eps_reach(s, s, 0));
    }
}

impl EpsilonNFA {
    /// The ε-closure of the states flagged in `set`, by a stack-based
    /// traversal of the ε-transitions.
    fn closure_of(&self, set: &Vec<bool>) -> (r: Vec<bool>)
        requires
            self.wf(),
            set@.len() == self.num_states(),
        ensures
            r@.len() == self.num_states(),
            forall|t: int| self.valid_state(t) ==> (#[trigger] r@[t] <==> self.closure(self.set_of(set@)).contains(t)),
    {
        let ghost src = self.set_of(set@);
        let n = self.states.len();
        let mut mark: Vec<bool> = Vec::new();
        let mut stack: Vec<usize> = Vec::new();
        let mut p: usize = 0;
        while p < n
            invariant
                self.wf(),
                n == self.num_states(),
                src == self.set_of(set@),
                set@.len() == n,
                p <= n,
                mark@.len() == p,
                forall|i: int| 0 <= i < p ==> #[trigger] mark@[i] == set@[i],
                forall|j: int| 0 <= j < stack@.len() ==> (#[trigger] stack@[j] as int) < p && mark@[stack@[j] as int],
                forall|i: int| 0 <= i < p && #[trigger] mark@[i] ==> stack@.contains(i as usize),
            decreases n - p,
        {
            let f = set[p];
            let ghost sb = stack@;
            mark.push(f);
            if f {
                stack.push(p);
            }
            proof {
                assert forall|i: int| 0 <= i < p + 1 && #[trigger] mark@[i] implies stack@.contains(i as usize) by {
                    if i < p {
                        let j = choose|j: int| 0 <= j < sb.len() && sb[j] == i as usize;
                        assert(stack@[j] == i as usize);
                    } else {
                        assert(stack@[stack@.len() - 1] == i as usize);
                    }
                }
            }
            p = p + 1;
        }
        proof {
            assert forall|i: int| self.valid_state(i) && #[trigger] mark@[i] implies self.closure(src).contains(i) by {
                self.lemma_closure_contains(src, i);
            }
        }
        while stack.len() > 0
            invariant
                self.wf(),
                n == self.num_states(),
                src == self.set_of(set@),
                set@.len() == n,
                mark@.len() == n,
                forall|i: int| self.valid_state(i) && set@[i] ==> #[trigger] mark@[i],
                forall|j: int| 0 <= j < stack@.len() ==> (#[trigger] stack@[j] as int) < n && mark@[stack@[j] as int],
                forall|i: int| self.valid_state(i) && #[trigger] mark@[i] ==> self.closure(src).contains(i),
                forall|x: int, y: int| self.valid_state(x) && mark@[x] && !stack@.contains(x as usize) && #[trigger] self.eps(x, y) ==> mark@[y],
            decreases num_unmarked(mark@), stack@.len(),
        {
            let ghost sb = stack@;
            let x = stack.pop().unwrap();
            let ghost base = stack@.len();
            let ghost num0 = num_unmarked(mark@);
            proof {
                assert(stack@ == sb.drop_last() && x == sb[sb.len() - 1]);
                assert forall|x2: int, y: int| self.valid_state(x2) && mark@[x2] && !stack@.contains(x2 as usize) && x2 != x && #[trigger] self.eps(x2, y) implies mark@[y] by {
                    if sb.contains(x2 as usize) {
                        let j = choose|j: int| 0 <= j < sb.len() && sb[j] == x2 as usize;
                        assert(stack@[j] == x2 as usize);
                    }
                }
            }
            let mut y: usize = 0;
            while y < n
                invariant
                    self.wf(),
                    n == self.num_states(),
                    src == self.set_of(set@),
                    set@.len() == n,
                    x < n,
                    mark@[x as int],
                    y <= n,
                    mark@.len() == n,
                    base <= stack@.len(),
                    num_unmarked(mark@) + (stack@.len() - base) == num0,
                    forall|i: int| self.valid_state(i) && set@[i] ==> #[trigger] mark@[i],
                    forall|j: int| 0 <= j < stack@.len() ==> (#[trigger] stack@[j] as int) < n && mark@[stack@[j] as int],
                    forall|i: int| self.valid_state(i) && #[trigger] mark@[i] ==> self.closure(src).contains(i),
                    forall|x2: int, y2: int| self.valid_state(x2) && mark@[x2] && !stack@.contains(x2 as usize) && x2 != x && #[trigger] self.eps(x2, y2) ==> mark@[y2],
                    forall|y2: int| 0 <= y2 < y && #[trigger] self.eps(x as int, y2) ==> mark@[y2],
                decreases n - y,
            {
                proof {
                    assert(self.epsilon_table@[x as int]@.len() == n);
                }
                if self.epsilon_table[x][y] && !mark[y] {
                    proof {
                        assert(self.eps(x as int, y as int));
                        self.lemma_closure_closed(src);
                        lemma_mark(mark@, y as int);
                    }
                    let ghost sb2 = stack@;
                    mark.set(y, true);
                    stack.push(y);
                    proof {
                        assert(stack@[stack@.len() - 1] == y);
                        assert forall|x2: int, y2: int| self.valid_state(x2) && mark@[x2] && !stack@.contains(x2 as usize) && x2 != x && #[trigger] self.eps(x2, y2) implies mark@[y2] by {
                            if x2 == y as int {
                                assert(stack@.contains(y));
                            }
                            if sb2.contains(x2 as usize) {
                                let j = choose|j: int| 0 <= j < sb2.len() && sb2[j] == x2 as usize;
                                assert(stack@[j] == x2 as usize);
                            }
                        }
                    }
                }
                y = y + 1;
            }
        }
        proof {
            assert forall|t: int| self.valid_state(t) implies (#[trigger] mark@[t] <==> self.closure(src).contains(t)) by {
                if self.closure(src).contains(t) {
                    let (s, k) = choose|s: int, k: nat| src.contains(s) && #[trigger] self.eps_reach(s, t, k);
                    self.lemma_closed_reach(self.set_of(mark@), s, t, k);
                }
            }
        }
        mark
    }

    /// The ε-closure of one state.
    fn epsilon_closure(&self, state: usize) -> (r: Vec<bool>)
        requires
            self.wf(),
            self.valid_state(state as int),
        ensures
            r@.len() == self.num_states(),
            forall|t: int| self.valid_state(t) ==> (#[trigger] r@[t] <==> self.closure(set![state as int]).contains(t)),
    {
        let n = self.states.len();
        let mut single: Vec<bool> = Vec::new();
        let mut p: usize = 0;
        while p < n
            invariant
                p <= n,
                single@.len() == p,
                forall|i: int| 0 <= i < p ==> #[trigger] single@[i] == (i == state),
            decreases n - p,
        {
            single.push(p == state);
            p = p + 1;
        }
        proof {
            assert(self.set_of(single@) =~= set![state as int]);
        }
        self.closure_of(&single)
    }

    /// The destinations on the symbol at position `a` of the states flagged in `set`.
    fn post_of(&self, set: &Vec<bool>, a: usize) -> (r: Vec<bool>)
        requires
            self.wf(),
            set@.len() == self.num_states(),
            a < self.alphabet().len(),
        ensures
            r@.len() == self.num_states(),
            forall|t: int| self.valid_state(t) ==> (#[trigger] r@[t] <==> self.post(self.set_of(set@), self.alphabet()[a as int]).contains(t)),
    {
        let n = self.states.len();
        proof {
            crate::dfa::lemma_index_of_unique(self.alphabet(), a as int);
        }
        let mut r: Vec<bool> = Vec::new();
        let mut t: usize = 0;
        while t < n
            invariant
                self.wf(),
                n == self.num_states(),
                set@.len() == n,
                a < self.alphabet().len(),
                self.alphabet().index_of(self.alphabet()[a as int]) == a,
                t <= n,
                r@.len() == t,
                forall|q: int| 0 <= q < t ==> (#[trigger] r@[q] <==> self.post(self.set_of(set@), self.alphabet()[a as int]).contains(q)),
            decreases n - t,
        {
            let mut found = false;
            let mut s: usize = 0;
            while s < n
                invariant
                    self.wf(),
                    n == self.num_states(),
                    set@.len() == n,
                    a < self.alphabet().len(),
                    t < n,
                    s <= n,
                    found == exists|q: int| 0 <= q < s && set@[q] && #[trigger] self.edge(q, a as int, t as int),
                decreases n - s,
            {
                proof {
                    assert(self.transition_table@[s as int]@.len() == self.alphabets@.len());
                    assert(self.transition_table@[s as int]@[a as int]@.len() == n);
                }
                if set[s] && self.transition_table[s][a][t] {
                    assert(self.edge(s as int, a as int, t as int));
                    found = true;
                }
                s = s + 1;
            }
            r.push(found);
            t = t + 1;
        }
        r
    }
}

impl EpsilonNFA {
    /// Without ε-transitions a closure adds nothing.
    pub proof fn lemma_closure_no_epsilon(&self, set: Set<int>)
        requires
            self.no_epsilon(),
        ensures
            forall|t: int| #[trigger] self.closure(set).contains(t) <==> self.valid_state(t) && set.contains(t),
    {
        assert forall|t: int| #[trigger] self.closure(set).contains(t) <==> self.valid_state(t) && set.contains(t) by {
            if self.closure(set).contains(t) {
                let (s, k) = choose|s: int, k: nat| set.contains(s) && #[trigger] self.eps_reach(s, t, k);
                self.lemma_eps_reach_free(s, t, k);
            }
            if self.valid_state(t) && set.contains(t) {
                self.lemma_closure_contains(set, t);
            }
        }
    }

    /// Without ε-transitions, ε-reachability is equality.
    pub proof fn lemma_eps_reach_free(&self, s: int, t: int, k: nat)
        requires
            self.no_epsilon(),
            self.eps_reach(s, t, k),
        ensures
            s == t,
        decreases k,
    {
        if k > 0 {
            if self.eps_reach(s, t, (k - 1) as nat) {
                self.lemma_eps_reach_free(s, t, (k - 1) as nat);
            } else {
                let u = choose|u: int| self.valid_state(u) && self.eps_reach(s, u, (k - 1) as nat) && #[trigger] self.eps(u, t);
                assert(self.valid_state(t));
            }
        }
    }

    /// The states reachable after a word form a closed set.
    pub proof fn lemma_reach_closed(&self, w: Seq<char>)
        requires
            self.wf(),
        ensures
            forall|x: int, y: int| self.valid_state(x) && self.reach(w).contains(x) && #[trigger] self.eps(x, y)
                ==> self.reach(w).contains(y),
    {
        if w.len() == 0 {
            self.lemma_closure_closed(self.starts());
        } else {
            self.lemma_closure_closed(self.post(self.reach(w.drop_last()), w.last()));
        }
    }

    /// The result of eliminating the ε-transitions of `old` is the same
    /// automaton as `new` (only the relations are compared).
    pub open spec fn eliminates(new: &EpsilonNFA, old: &EpsilonNFA) -> bool {
        &&& new.no_epsilon()
        &&& new.num_states() == old.num_states()
        &&& new.alphabet() == old.alphabet()
        &&& forall|s: int, a: int, t: int| old.valid_state(s) && 0 <= a < old.alphabet().len() && old.valid_state(t)
            ==> (#[trigger] new.edge(s, a, t) <==> old.closure(old.post(old.closure(set![s]), old.alphabet()[a])).contains(t))
        &&& forall|s: int| old.valid_state(s) ==> (#[trigger] new.is_start(s) <==> old.closure(old.starts()).contains(s))
        &&& forall|s: int| old.valid_state(s) ==> (#[trigger] new.is_final(s) <==> exists|f: int| old.closure(set![s]).contains(f) && old.is_final(f))
    }

    /// Eliminating ε-transitions keeps the states reached by every word.
    pub proof fn lemma_elimination_reach(new: &EpsilonNFA, old: &EpsilonNFA, w: Seq<char>)
        requires
            old.wf(),
            new.wf(),
            Self::eliminates(new, old),
            old.in_alphabet(w),
        ensures
            new.reach(w) == old.reach(w),
        decreases w.len(),
    {
        if w.len() == 0 {
            new.lemma_closure_no_epsilon(new.starts());
            assert(new.reach(w) =~= old.reach(w));
        } else {
            let u = w.drop_last();
            let c = w.last();
            assert forall|i: int| 0 <= i < u.len() implies old.alphabet().contains(#[trigger] u[i]) by {
                assert(u[i] == w[i]);
            }
            Self::lemma_elimination_reach(new, old, u);
            let r = old.reach(u);
            old.lemma_reach_closed(u);
            assert(old.alphabet().contains(w[w.len() - 1]));
            crate::dfa::lemma_index_of_contained(old.alphabet(), c);
            let a = old.alphabet().index_of(c);
            new.lemma_closure_no_epsilon(new.post(r, c));
            assert forall|t: int| new.reach(w).contains(t) <==> old.reach(w).contains(t) by {
                if new.reach(w).contains(t) {
                    assert(new.post(r, c).contains(t));
                    let s = choose|s: int| r.contains(s) && #[trigger] new.edge(s, new.alphabet().index_of(c), t);
                    let cs = old.closure(set![s]);
                    assert(old.valid_state(s)) by {
                        assert(old.closure(old.post(old.reach(u.drop_last()), u.last())).contains(s) || old.closure(old.starts()).contains(s));
                    }
                    assert(old.closure(old.post(cs, c)).contains(t));
                    let (x, k) = choose|x: int, k: nat| old.post(cs, c).contains(x) && #[trigger] old.eps_reach(x, t, k);
                    let y = choose|y: int| cs.contains(y) && #[trigger] old.edge(y, old.alphabet().index_of(c), x);
                    let (s0, k0) = choose|s0: int, k0: nat| set![s].contains(s0) && #[trigger] old.eps_reach(s0, y, k0);
                    old.lemma_closed_reach(r, s, y, k0);
                    assert(old.post(r, c).contains(x));
                    assert(old.closure(old.post(r, c)).contains(t));
                }
                if old.reach(w).contains(t) {
                    let (x, k) = choose|x: int, k: nat| old.post(r, c).contains(x) && #[trigger] old.eps_reach(x, t, k);
                    let s = choose|s: int| r.contains(s) && #[trigger] old.edge(s, old.alphabet().index_of(c), x);
                    assert(old.valid_state(s)) by {
                        if u.len() == 0 {
                        } else {
                        }
                    }
                    old.lemma_closure_contains(set![s], s);
                    assert(old.post(old.closure(set![s]), c).contains(x));
                    assert(old.closure(old.post(old.closure(set![s]), c)).contains(t));
                    assert(new.edge(s, a, t));
                    assert(new.post(r, c).contains(t));
                }
            }
            assert(new.reach(w) =~= old.reach(w));
        }
    }
}

impl EpsilonNFA {
    /// The transitions of state `s` once ε-transitions are gone, and whether
    /// `s` then accepts.
    fn eliminated_row(&self, s: usize) -> (r: (Vec<Vec<bool>>, bool))
        requires
            self.wf(),
            self.valid_state(s as int),
        ensures
            r.0@.len() == self.alphabet().len(),
            forall|a: int| 0 <= a < self.alphabet().len() ==> (#[trigger] r.0@[a])@.len() == self.num_states(),
            forall|a: int, t: int| 0 <= a < self.alphabet().len() && self.valid_state(t) ==> (#[trigger] r.0@[a]@[t]
                <==> self.closure(self.post(self.closure(set![s as int]), self.alphabet()[a])).contains(t)),
            r.1 <==> exists|f: int| self.closure(set![s as int]).contains(f) && self.is_final(f),
    {
        let n = self.states.len();
        let k = self.alphabets.len();
        let c = self.epsilon_closure(s);
        proof {
            assert(self.set_of(c@) =~= self.closure(set![s as int]));
        }
        let mut row: Vec<Vec<bool>> = Vec::new();
        let mut a: usize = 0;
        while a < k
            invariant
                self.wf(),
                n == self.num_states(),
                k == self.alphabet().len(),
                c@.len() == n,
                self.set_of(c@) == self.closure(set![s as int]),
                a <= k,
                row@.len() == a,
                forall|b: int| 0 <= b < a ==> (#[trigger] row@[b])@.len() == n,
                forall|b: int, t: int| 0 <= b < a && self.valid_state(t) ==> (#[trigger] row@[b]@[t]
                    <==> self.closure(self.post(self.closure(set![s as int]), self.alphabet()[b])).contains(t)),
            decreases k - a,
        {
            let p = self.post_of(&c, a);
            proof {
                assert(self.set_of(p@) =~= self.post(self.set_of(c@), self.alphabet()[a as int]));
            }
            let d = self.closure_of(&p);
            row.push(d);
            a = a + 1;
        }
        let mut f = false;
        let mut t: usize = 0;
        while t < n
            invariant
                self.wf(),
                n == self.num_states(),
                c@.len() == n,
                self.set_of(c@) == self.closure(set![s as int]),
                t <= n,
                f <==> exists|q: int| 0 <= q < t && self.closure(set![s as int]).contains(q) && self.is_final(q),
            decreases n - t,
        {
            proof {
                assert(self.set_of(c@).contains(t as int) == c@[t as int]);
                assert(self.is_final(t as int) == self.final_states@[t as int]);
            }
            if c[t] && self.final_states[t] {
                f = true;
            }
            t = t + 1;
        }
        (row, f)
    }

    /// The automaton with ε-transitions replaced by direct ones: a state
    /// moves on a symbol to the closure of what its closure moves to, the
    /// start states are the closure of the old ones, and a state accepts when
    /// its closure holds an accepting state. The language is unchanged.
    fn eliminated(&self) -> (r: EpsilonNFA)
        requires
            self.wf(),
        ensures
            r.wf(),
            Self::eliminates(&r, self),
            forall|s: int| self.valid_state(s) ==> #[trigger] r.name(s) == self.name(s),
            forall|w: Seq<char>| #[trigger] r.accepts_word(w) == self.accepts_word(w),
    {
        let n = self.states.len();
        let mut table: Vec<Vec<Vec<bool>>> = Vec::new();
        let mut finals: Vec<bool> = Vec::new();
        let mut eps: Vec<Vec<bool>> = Vec::new();
        let mut s: usize = 0;
        while s < n
            invariant
                self.wf(),
                n == self.num_states(),
                s <= n,
                table@.len() == s,
                finals@.len() == s,
                eps@.len() == s,
                forall|q: int| 0 <= q < s ==> (#[trigger] eps@[q])@.len() == n && forall|t: int| 0 <= t < n ==> !eps@[q]@[t],
                forall|q: int| 0 <= q < s ==> (#[trigger] table@[q])@.len() == self.alphabet().len(),
                forall|q: int, a: int| 0 <= q < s && 0 <= a < self.alphabet().len() ==> (#[trigger] table@[q]@[a])@.len() == n,
                forall|q: int, a: int, t: int| 0 <= q < s && 0 <= a < self.alphabet().len() && self.valid_state(t) ==> (#[trigger] table@[q]@[a]@[t]
                    <==> self.closure(self.post(self.closure(set![q]), self.alphabet()[a])).contains(t)),
                forall|q: int| 0 <= q < s ==> (#[trigger] finals@[q] <==> exists|f: int| self.closure(set![q]).contains(f) && self.is_final(f)),
            decreases n - s,
        {
            let (row, f) = self.eliminated_row(s);
            table.push(row);
            finals.push(f);
            let mut none: Vec<bool> = Vec::new();
            let mut t: usize = 0;
            while t < n
                invariant
                    t <= n,
                    none@.len() == t,
                    forall|q: int| 0 <= q < t ==> !#[trigger] none@[q],
                decreases n - t,
            {
                none.push(false);
                t = t + 1;
            }
            eps.push(none);
            s = s + 1;
        }
        let starts = self.closure_of(&self.start_states);
        proof {
            assert(self.set_of(self.start_states@) =~= self.starts());
        }
        let r = EpsilonNFA {
            states: copy_states(&self.states),
            alphabets: copy_vec(&self.alphabets),
            transition_table: table,
            epsilon_table: eps,
            start_states: starts,
            final_states: finals,
        };
        proof {
            assert(r.wf());
            assert forall|x: int, y: int| r.valid_state(x) && r.valid_state(y) implies !#[trigger] r.eps(x, y) by {
                assert(!r.epsilon_table@[x]@[y]);
            }
            assert forall|q: int, a: int, t: int| self.valid_state(q) && 0 <= a < self.alphabet().len() && self.valid_state(t)
                implies (#[trigger] r.edge(q, a, t) <==> self.closure(self.post(self.closure(set![q]), self.alphabet()[a])).contains(t)) by {
                assert(r.edge(q, a, t) == r.transition_table@[q]@[a]@[t]);
            }
            assert(Self::eliminates(&r, self));
            assert forall|w: Seq<char>| #[trigger] r.accepts_word(w) == self.accepts_word(w) by {
                if self.in_alphabet(w) {
                    Self::lemma_elimination_reach(&r, self, w);
                    let rw = self.reach(w);
                    self.lemma_reach_closed(w);
                    if r.accepts_word(w) {
                        let x = choose|x: int| #[trigger] r.reach(w).contains(x) && r.is_final(x);
                        assert(self.valid_state(x)) by {
                            if w.len() == 0 {
                                assert(self.closure(self.starts()).contains(x));
                            } else {
                                assert(self.closure(self.post(self.reach(w.drop_last()), w.last())).contains(x));
                            }
                        }
                        let f = choose|f: int| self.closure(set![x]).contains(f) && self.is_final(f);
                        let (x0, k0) = choose|x0: int, k0: nat| set![x].contains(x0) && #[trigger] self.eps_reach(x0, f, k0);
                        self.lemma_closed_reach(rw, x, f, k0);
                        assert(rw.contains(f) && self.is_final(f));
                    }
                    if self.accepts_word(w) {
                        let f = choose|f: int| #[trigger] rw.contains(f) && self.is_final(f);
                        assert(self.valid_state(f)) by {
                            if w.len() == 0 {
                                assert(self.closure(self.starts()).contains(f));
                            } else {
                                assert(self.closure(self.post(self.reach(w.drop_last()), w.last())).contains(f));
                            }
                        }
                        self.lemma_closure_contains(set![f], f);
                        assert(r.is_final(f));
                        assert(r.reach(w).contains(f));
                    }
                }
            }
        }
        r
    }
}

/// A copy of a list of states.
fn copy_states(v: &Vec<State>) -> (r: Vec<State>)
    ensures
        r@.len() == v@.len(),
        forall|i: int| 0 <= i < v@.len() ==> (#[trigger] r@[i])@ == v@[i]@,
{
    let mut r: Vec<State> = Vec::new();
    let mut i: usize = 0;
    while i < v.len()
        invariant
            i <= v@.len(),
            r@.len() == i,
            forall|j: int| 0 <= j < i ==> (#[trigger] r@[j])@ == v@[j]@,
        decreases v@.len() - i,
    {
        r.push(v[i].duplicate());
        i = i + 1;
    }
    r
}

impl EpsilonNFA {
    /// Replaces the ε-transitions by direct ones (see `get_non_epsilon_nfa`);
    /// the language is unchanged.
    pub fn remove_epsilon_transitions(&mut self)
        requires
            old(self).wf(),
        ensures
            final(self).wf(),
            Self::eliminates(final(self), old(self)),
            forall|s: int| old(self).valid_state(s) ==> #[trigger] final(self).name(s) == old(self).name(s),
            forall|w: Seq<char>| #[trigger] final(self).accepts_word(w) == old(self).accepts_word(w),
    {
        *self = self.eliminated();
    }

    /// A copy of the automaton without ε-transitions: a state moves on a
    /// symbol to the ε-closure of what its ε-closure moves to, the start
    /// states are the closure of the old ones, and a state accepts when its
    /// closure holds an accepting state. `self` is left as it is, and the
    /// language is the same.
    pub fn get_non_epsilon_nfa(&self) -> (r: Self)
        requires
            self.wf(),
        ensures
            r.wf(),
            Self::eliminates(&r, self),
            forall|s: int| self.valid_state(s) ==> #[trigger] r.name(s) == self.name(s),
            forall|w: Seq<char>| #[trigger] r.accepts_word(w) == self.accepts_word(w),
    {
        self.eliminated()
    }
}

/// Whether two symbols (ε being `None`) are the same.
fn same_symbol(a: Option<char>, b: Option<char>) -> (r: bool)
    ensures
        r == (a == b),
{
    match (a, b) {
        (Some(x), Some(y)) => x == y,
        (None, None) => true,
        _ => false,
    }
}

/// Whether some entry of `t` has key (`from`, `sym`) and lists `to`.
fn has_listed_edge(t: &Vec<((State, Option<char>), Vec<State>)>, from: &State, sym: Option<char>, to: &State) -> (r: bool)
    ensures
        r == listed_edge(nfa_entries_of(t@), from@, sym, to@),
{
    let ghost et = nfa_entries_of(t@);
    let mut i: usize = 0;
    while i < t.len()
        invariant
            et == nfa_entries_of(t@),
            i <= t@.len(),
            forall|j: int| 0 <= j < i ==> !((#[trigger] et[j]).0 == (from@, sym) && et[j].1.contains(to@)),
        decreases t@.len() - i,
    {
        let e = &t[i];
        assert(et[i as int] == ((e.0.0@, e.0.1), names_of(e.1@)));
        if same_symbol(e.0.1, sym) && e.0.0.equals(from) && position_of(&e.1, to).is_some() {
            return true;
        }
        i = i + 1;
    }
    false
}

impl EpsilonNFA {
    /// `self` is the automaton that the lists describe.
    pub open spec fn models(
        &self,
        states: Set<Seq<(char, usize)>>,
        alpha: Set<char>,
        t: Seq<((Seq<(char, usize)>, Option<char>), Seq<Seq<(char, usize)>>)>,
        starts: Set<Seq<(char, usize)>>,
        finals: Set<Seq<(char, usize)>>,
    ) -> bool {
        &&& forall|nm: Seq<(char, usize)>| #[trigger] states.contains(nm) <==> exists|s: int| self.valid_state(s) && #[trigger] self.name(s) == nm
        &&& forall|s: int, u: int| self.valid_state(s) && self.valid_state(u) && s != u ==> #[trigger] self.name(s) != #[trigger] self.name(u)
        &&& self.alphabet().to_set() == alpha
        &&& forall|s: int, a: int, u: int| self.valid_state(s) && 0 <= a < self.alphabet().len() && self.valid_state(u)
            ==> (#[trigger] self.edge(s, a, u) <==> listed_edge(t, self.name(s), Some(self.alphabet()[a]), self.name(u)))
        &&& forall|s: int, u: int| self.valid_state(s) && self.valid_state(u)
            ==> (#[trigger] self.eps(s, u) <==> listed_edge(t, self.name(s), None, self.name(u)))
        &&& forall|s: int| self.valid_state(s) ==> (#[trigger] self.is_start(s) <==> starts.contains(self.name(s)))
        &&& forall|s: int| self.valid_state(s) ==> (#[trigger] self.is_final(s) <==> finals.contains(self.name(s)))
    }

    /// Builds an automaton from its states, alphabet (`None` standing for ε),
    /// transition relation, start states and accepting states. Repeated
    /// states or symbols count once; entries that name no listed state, or a
    /// symbol outside the alphabet, add nothing. When `AUTO_OPTIMIZE` holds,
    /// the automaton is then minimized; the language is that of the
    /// lists either way.
    pub fn new(
        states: Vec<State>,
        alphabets: Vec<Option<char>>,
        transition_table: Vec<((State, Option<char>), Vec<State>)>,
        start_states: Vec<State>,
        final_states: Vec<State>,
    ) -> (r: Result<Self, CustomError>)
        ensures
            r matches Ok(nfa) && nfa.wf() && exists|raw: EpsilonNFA| #[trigger] raw.models(
                names_of(states@).to_set(),
                real_symbols(alphabets@),
                nfa_entries_of(transition_table@),
                names_of(start_states@).to_set(),
                names_of(final_states@).to_set(),
            ) && raw.wf() && forall|w: Seq<char>| #[trigger] nfa.accepts_word(w) == raw.accepts_word(w),
    {
        let names = distinct_states(&states);
        let mut reals: Vec<char> = Vec::new();
        let mut i: usize = 0;
        while i < alphabets.len()
            invariant
                i <= alphabets@.len(),
                forall|c: char| reals@.contains(c) <==> exists|j: int| 0 <= j < i && alphabets@[j] == Some(c),
            decreases alphabets@.len() - i,
        {
            let ghost rb = reals@;
            match alphabets[i] {
                Some(c) => {
                    reals.push(c);
                    proof {
                        assert forall|x: char| reals@.contains(x) <==> exists|j: int| 0 <= j < i + 1 && alphabets@[j] == Some(x) by {
                            if reals@.contains(x) && x != c {
                                let j = choose|j: int| 0 <= j < reals@.len() && reals@[j] == x;
                                assert(rb[j] == x);
                            }
                            if rb.contains(x) {
                                let j = choose|j: int| 0 <= j < rb.len() && rb[j] == x;
                                assert(reals@[j] == x);
                            }
                            assert(reals@[rb.len() as int] == c);
                        }
                    }
                },
                None => {},
            }
            i = i + 1;
        }
        let alpha = distinct_chars(&reals);
        let n = names.len();
        let k = alpha.len();
        let mut table: Vec<Vec<Vec<bool>>> = Vec::new();
        let mut eps: Vec<Vec<bool>> = Vec::new();
        let mut starts: Vec<bool> = Vec::new();
        let mut finals: Vec<bool> = Vec::new();
        let ghost et = nfa_entries_of(transition_table@);
        let mut s: usize = 0;
        while s < n
            invariant
                n == names@.len(),
                k == alpha@.len(),
                et == nfa_entries_of(transition_table@),
                s <= n,
                table@.len() == s,
                eps@.len() == s,
                starts@.len() == s,
                finals@.len() == s,
                forall|q: int| 0 <= q < s ==> (#[trigger] table@[q])@.len() == k,
                forall|q: int, a: int| 0 <= q < s && 0 <= a < k ==> (#[trigger] table@[q]@[a])@.len() == n,
                forall|q: int, a: int, u: int| 0 <= q < s && 0 <= a < k && 0 <= u < n ==> (#[trigger] table@[q]@[a]@[u]
                    <==> listed_edge(et, names@[q]@, Some(alpha@[a]), names@[u]@)),
                forall|q: int| 0 <= q < s ==> (#[trigger] eps@[q])@.len() == n,
                forall|q: int, u: int| 0 <= q < s && 0 <= u < n ==> (#[trigger] eps@[q]@[u]
                    <==> listed_edge(et, names@[q]@, None, names@[u]@)),
                forall|q: int| 0 <= q < s ==> (#[trigger] starts@[q] <==> names_of(start_states@).contains(names@[q]@)),
                forall|q: int| 0 <= q < s ==> (#[trigger] finals@[q] <==> names_of(final_states@).contains(names@[q]@)),
            decreases n - s,
        {
            let mut row: Vec<Vec<bool>> = Vec::new();
            let mut a: usize = 0;
            while a < k
                invariant
                    n == names@.len(),
                    k == alpha@.len(),
                    et == nfa_entries_of(transition_table@),
                    s < n,
                    a <= k,
                    row@.len() == a,
                    forall|b: int| 0 <= b < a ==> (#[trigger] row@[b])@.len() == n,
                    forall|b: int, u: int| 0 <= b < a && 0 <= u < n ==> (#[trigger] row@[b]@[u]
                        <==> listed_edge(et, names@[s as int]@, Some(alpha@[b]), names@[u]@)),
                decreases k - a,
            {
                let dest = listed_flags(&transition_table, &names, &names[s], Some(alpha[a]));
                row.push(dest);
                a = a + 1;
            }
            table.push(row);
            eps.push(listed_flags(&transition_table, &names, &names[s], None));
            starts.push(position_of(&start_states, &names[s]).is_some());
            finals.push(position_of(&final_states, &names[s]).is_some());
            s = s + 1;
        }
        let raw = EpsilonNFA {
            states: names,
            alphabets: alpha,
            transition_table: table,
            epsilon_table: eps,
            start_states: starts,
            final_states: finals,
        };
        proof {
            assert(raw.wf());
            let st = names_of(states@).to_set();
            assert forall|x: Seq<(char, usize)>| (exists|q: int| raw.valid_state(q) && #[trigger] raw.name(q) == x) <==> st.contains(x) by {
                if st.contains(x) {
                    lemma_names_of_member(raw.states@, x);
                    let q = choose|q: int| 0 <= q < raw.states@.len() && #[trigger] raw.states@[q]@ == x;
                    assert(raw.name(q) == x);
                }
                if exists|q: int| raw.valid_state(q) && #[trigger] raw.name(q) == x {
                    let q = choose|q: int| raw.valid_state(q) && #[trigger] raw.name(q) == x;
                    lemma_names_of_contains(raw.states@, q);
                }
            }
            assert forall|c: char| raw.alphabet().to_set().contains(c) <==> real_symbols(alphabets@).contains(c) by {
                assert(raw.alphabet().to_set().contains(c) == alpha@.contains(c));
                assert(reals@.to_set().contains(c) == reals@.contains(c));
                if reals@.contains(c) {
                    let j = choose|j: int| 0 <= j < alphabets@.len() && alphabets@[j] == Some(c);
                    assert(alphabets@.contains(Some(c)));
                }
                if alphabets@.contains(Some(c)) {
                    let j = choose|j: int| 0 <= j < alphabets@.len() && alphabets@[j] == Some(c);
                }
            }
            assert(raw.alphabet().to_set() =~= real_symbols(alphabets@));
            assert forall|q: int| raw.valid_state(q) implies (#[trigger] raw.is_start(q) <==> names_of(start_states@).to_set().contains(raw.name(q))) by {}
            assert forall|q: int| raw.valid_state(q) implies (#[trigger] raw.is_final(q) <==> names_of(final_states@).to_set().contains(raw.name(q))) by {}
            assert forall|q: int, a: int, u: int| raw.valid_state(q) && 0 <= a < raw.alphabet().len() && raw.valid_state(u)
                implies (#[trigger] raw.edge(q, a, u) <==> listed_edge(et, raw.name(q), Some(raw.alphabet()[a]), raw.name(u))) by {}
            assert forall|q: int, u: int| raw.valid_state(q) && raw.valid_state(u)
                implies (#[trigger] raw.eps(q, u) <==> listed_edge(et, raw.name(q), None, raw.name(u))) by {}
            assert forall|q: int, u: int| raw.valid_state(q) && raw.valid_state(u) && q != u implies #[trigger] raw.name(q) != #[trigger] raw.name(u) by {
                if q < u {
                    assert(raw.states@[q]@ != raw.states@[u]@);
                } else {
                    assert(raw.states@[u]@ != raw.states@[q]@);
                }
            }
        }
        proof {
            assert(raw.models(
                names_of(states@).to_set(),
                real_symbols(alphabets@),
                nfa_entries_of(transition_table@),
                names_of(start_states@).to_set(),
                names_of(final_states@).to_set(),
            ));
        }
        let ghost raw_g = raw;
        let mut nfa = raw;
        if AUTO_OPTIMIZE {
            nfa.minimize();
        }
        Ok(nfa)
    }
}

/// Flags, over `names`, of the destinations that entries of `t` with key
/// (`from`, `sym`) list.
fn listed_flags(t: &Vec<((State, Option<char>), Vec<State>)>, names: &Vec<State>, from: &State, sym: Option<char>) -> (r: Vec<bool>)
    ensures
        r@.len() == names@.len(),
        forall|u: int| 0 <= u < names@.len() ==> (#[trigger] r@[u] <==> listed_edge(nfa_entries_of(t@), from@, sym, names@[u]@)),
{
    let mut r: Vec<bool> = Vec::new();
    let mut u: usize = 0;
    while u < names.len()
        invariant
            u <= names@.len(),
            r@.len() == u,
            forall|q: int| 0 <= q < u ==> (#[trigger] r@[q] <==> listed_edge(nfa_entries_of(t@), from@, sym, names@[q]@)),
        decreases names@.len() - u,
    {
        r.push(has_listed_edge(t, from, sym, &names[u]));
        u = u + 1;
    }
    r
}

impl EpsilonNFA {
    /// Removes the ε-transitions, then the states that cannot lead to
    /// acceptance, then those that cannot be reached; the language is
    /// unchanged.
    pub fn minimize(&mut self)
        requires
            old(self).wf(),
        ensures
            final(self).wf(),
            final(self).no_epsilon(),
            forall|w: Seq<char>| #[trigger] final(self).accepts_word(w) == old(self).accepts_word(w),
    {
        self.remove_epsilon_transitions();
        let ghost d1 = *self;
        self.remove_trapped_states();
        let ghost d2 = *self;
        proof {
            Self::lemma_restrict_no_epsilon(&d1, &d2);
        }
        self.remove_unreachable_states();
        proof {
            Self::lemma_restrict_no_epsilon(&d2, self);
        }
    }

    /// Cutting down an automaton without ε-transitions leaves none.
    proof fn lemma_restrict_no_epsilon(a: &EpsilonNFA, b: &EpsilonNFA)
        requires
            a.no_epsilon(),
            exists|keep: Seq<bool>, g: Seq<int>| #[trigger] a.restricts(b, keep, g),
        ensures
            b.no_epsilon(),
    {
        let (keep, g) = choose|keep: Seq<bool>, g: Seq<int>| #[trigger] a.restricts(b, keep, g);
        assert forall|i: int, j: int| b.valid_state(i) && b.valid_state(j) implies !#[trigger] b.eps(i, j) by {
            assert(a.valid_state(g[i]) && a.valid_state(g[j]));
        }
    }
}

impl EpsilonNFA {
    /// The automaton with the states, alphabet, transitions, start state and
    /// accepting states of `dfa`, each transition leading to one state.
    pub fn from_dfa(dfa: &DFA) -> (r: EpsilonNFA)
        requires
            dfa.wf(),
        ensures
            r.wf(),
            r.no_epsilon(),
            r.num_states() == dfa.num_states(),
            r.alphabet() == dfa.alphabet(),
            forall|s: int| dfa.valid_state(s) ==> #[trigger] r.name(s) == dfa.name(s),
            forall|w: Seq<char>| #[trigger] r.accepts_word(w) == dfa.accepts_word(w),
    {
        let n = dfa.state_count();
        let alpha = dfa.get_alphabets();
        let k = alpha.len();
        let names = dfa.get_states();
        let start = dfa.start_index();
        let mut table: Vec<Vec<Vec<bool>>> = Vec::new();
        let mut eps: Vec<Vec<bool>> = Vec::new();
        let mut starts: Vec<bool> = Vec::new();
        let mut finals: Vec<bool> = Vec::new();
        let mut s: usize = 0;
        while s < n
            invariant
                dfa.wf(),
                n == dfa.num_states(),
                k == dfa.alphabet().len(),
                start == dfa.start(),
                s <= n,
                table@.len() == s,
                eps@.len() == s,
                starts@.len() == s,
                finals@.len() == s,
                forall|p: int| 0 <= p < s ==> (#[trigger] table@[p])@.len() == k,
                forall|p: int, a: int| 0 <= p < s && 0 <= a < k ==> (#[trigger] table@[p]@[a])@.len() == n,
                forall|p: int, a: int, t: int| 0 <= p < s && 0 <= a < k && 0 <= t < n ==> (#[trigger] table@[p]@[a]@[t]
                    <==> t == dfa.next(p, a)),
                forall|p: int| 0 <= p < s ==> (#[trigger] eps@[p])@.len() == n && forall|t: int| 0 <= t < n ==> !eps@[p]@[t],
                forall|p: int| 0 <= p < s ==> (#[trigger] starts@[p] <==> p == start),
                forall|p: int| 0 <= p < s ==> #[trigger] finals@[p] == dfa.is_final(p),
            decreases n - s,
        {
            let mut row: Vec<Vec<bool>> = Vec::new();
            let mut a: usize = 0;
            while a < k
                invariant
                    dfa.wf(),
                    n == dfa.num_states(),
                    k == dfa.alphabet().len(),
                    s < n,
                    a <= k,
                    row@.len() == a,
                    forall|b: int| 0 <= b < a ==> (#[trigger] row@[b])@.len() == n,
                    forall|b: int, t: int| 0 <= b < a && 0 <= t < n ==> (#[trigger] row@[b]@[t] <==> t == dfa.next(s as int, b)),
                decreases k - a,
            {
                let target = dfa.next_index(s, a);
                let mut dest: Vec<bool> = Vec::new();
                let mut t: usize = 0;
                while t < n
                    invariant
                        t <= n,
                        dest@.len() == t,
                        forall|x: int| 0 <= x < t ==> (#[trigger] dest@[x] <==> x == target),
                    decreases n - t,
                {
                    dest.push(t == target);
                    t = t + 1;
                }
                row.push(dest);
                a = a + 1;
            }
            let mut none: Vec<bool> = Vec::new();
            let mut t: usize = 0;
            while t < n
                invariant
                    t <= n,
                    none@.len() == t,
                    forall|x: int| 0 <= x < t ==> !#[trigger] none@[x],
                decreases n - t,
            {
                none.push(false);
                t = t + 1;
            }
            table.push(row);
            eps.push(none);
            starts.push(s == start);
            finals.push(dfa.accepting(s));
            s = s + 1;
        }
        let r = EpsilonNFA {
            states: names,
            alphabets: alpha,
            transition_table: table,
            epsilon_table: eps,
            start_states: starts,
            final_states: finals,
        };
        proof {
            assert(r.wf());
            assert forall|x: int, y: int| r.valid_state(x) && r.valid_state(y) implies !#[trigger] r.eps(x, y) by {
                assert(!r.epsilon_table@[x]@[y]);
            }
            assert forall|w: Seq<char>| #[trigger] r.accepts_word(w) == dfa.accepts_word(w) by {
                if dfa.in_alphabet(w) {
                    Self::lemma_from_dfa_reach(&r, dfa, w);
                    dfa.lemma_run_valid(dfa.start(), w);
                    if r.accepts_word(w) {
                        let x = choose|x: int| #[trigger] r.reach(w).contains(x) && r.is_final(x);
                        assert(x == dfa.run(dfa.start(), w));
                    }
                    if dfa.accepts_word(w) {
                        assert(r.reach(w).contains(dfa.run(dfa.start(), w)));
                    }
                }
            }
        }
        r
    }

    /// The automaton made from a deterministic one reaches exactly the state
    /// of the deterministic run.
    proof fn lemma_from_dfa_reach(r: &EpsilonNFA, dfa: &DFA, w: Seq<char>)
        requires
            dfa.wf(),
            r.wf(),
            r.no_epsilon(),
            r.num_states() == dfa.num_states(),
            r.alphabet() == dfa.alphabet(),
            forall|p: int, a: int, t: int| dfa.valid_state(p) && 0 <= a < dfa.alphabet().len() && dfa.valid_state(t)
                ==> (#[trigger] r.edge(p, a, t) <==> t == dfa.next(p, a)),
            forall|p: int| dfa.valid_state(p) ==> (#[trigger] r.is_start(p) <==> p == dfa.start()),
            dfa.in_alphabet(w),
        ensures
            r.reach(w) == set![dfa.run(dfa.start(), w)],
        decreases w.len(),
    {
        if w.len() == 0 {
            r.lemma_closure_no_epsilon(r.starts());
            assert(r.reach(w) =~= set![dfa.start()]);
        } else {
            let u = w.drop_last();
            let c = w.last();
            assert(w =~= u.push(c));
            assert forall|i: int| 0 <= i < u.len() implies dfa.alphabet().contains(#[trigger] u[i]) by {
                assert(u[i] == w[i]);
            }
            Self::lemma_from_dfa_reach(r, dfa, u);
            dfa.lemma_run_snoc(dfa.start(), u, c);
            dfa.lemma_run_valid(dfa.start(), u);
            assert(dfa.alphabet().contains(w[w.len() - 1]));
            crate::dfa::lemma_index_of_contained(dfa.alphabet(), c);
            dfa.lemma_delta_valid(dfa.run(dfa.start(), u), c);
            r.lemma_closure_no_epsilon(r.post(r.reach(u), c));
            let x = dfa.run(dfa.start(), u);
            let a = dfa.alphabet().index_of(c);
            let target = dfa.next(x, a);
            assert(dfa.run(dfa.start(), w) == target);
            assert forall|t: int| r.reach(w).contains(t) <==> t == target by {
                assert(r.reach(w).contains(t) <==> r.valid_state(t) && r.post(r.reach(u), c).contains(t));
                if r.valid_state(t) && r.post(r.reach(u), c).contains(t) {
                    let s0 = choose|s0: int| r.reach(u).contains(s0) && #[trigger] r.edge(s0, r.alphabet().index_of(c), t);
                    assert(s0 == x);
                    assert(r.edge(x, a, t));
                }
                if t == target {
                    assert(r.edge(x, a, t));
                    assert(r.reach(u).contains(x));
                    assert(r.post(r.reach(u), c).contains(t));
                }
            }
            assert(r.reach(w) =~= set![dfa.run(dfa.start(), w)]);
        }
    }
}

} // verus!
