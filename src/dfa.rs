use vstd::prelude::*;

use crate::table::{
    all_listed, build_table, distinct_chars, distinct_states, entries_known, keys_unique,
    lemma_names_of_contains,
    position_of,
};
use crate::input::{entries_of, keys_exact, names_of, valid_lists, Name};
use crate::constants::AUTO_OPTIMIZE;
use crate::language::{is_isomorphism, is_morphism, isomorphic, lemma_morphism_accepts, lemma_morphism_live, lemma_morphism_run};
use crate::utils::{chars_of, CustomError, State};

mod canonical;
pub mod minimize;
pub mod product;
pub mod matcher;
mod access;
mod builders;

pub use canonical::lemma_perm_len;
pub use matcher::MatchIterator;

verus! {

/// A deterministic finite automaton with a total transition function.
///
/// States are numbered `0 .. num_states()`; state `s` carries the identity
/// `name(s)`. Symbols are numbered by their position in `alphabet()`, and
/// `next(s, a)` is the state reached from `s` on symbol number `a`.
#[derive(Debug, Clone)]
pub struct DFA {
    states: Vec<State>,
    alphabets: Vec<char>,
    transition_table: Vec<Vec<usize>>,
    start_state: usize,
    current_state: usize,
    final_states: Vec<bool>,
    trapped_states: Vec<bool>,
}

impl DFA {
    /// The number of states.
    pub closed spec fn num_states(&self) -> int {
        self.states@.len() as int
    }

    /// The symbols, each once, in symbol order.
    pub closed spec fn alphabet(&self) -> Seq<char> {
        self.alphabets@
    }

    /// The identity of state `s`.
    pub closed spec fn name(&self, s: int) -> Name {
        self.states@[s]@
    }

    /// The start state.
    pub closed spec fn start(&self) -> int {
        self.start_state as int
    }

    /// The execution cursor.
    pub closed spec fn cursor(&self) -> int {
        self.current_state as int
    }

    /// Whether state `s` accepts.
    pub closed spec fn is_final(&self, s: int) -> bool {
        self.final_states@[s]
    }

    /// Whether state `s` is marked trapped.
    pub closed spec fn is_trapped(&self, s: int) -> bool {
        self.trapped_states@[s]
    }

    /// The state that `s` moves to on the symbol at position `a`.
    pub closed spec fn next(&self, s: int, a: int) -> int {
        self.transition_table@[s]@[a] as int
    }

    /// The lengths of the storage agree with the number of states and symbols.
    pub closed spec fn layout_ok(&self) -> bool {
        &&& self.transition_table@.len() == self.states@.len()
        &&& forall|s: int|
            0 <= s < self.states@.len() ==> (#[trigger] self.transition_table@[s])@.len()
                == self.alphabets@.len()
        &&& self.final_states@.len() == self.states@.len()
        &&& self.trapped_states@.len() == self.states@.len()
    }

    /// `s` is one of the states.
    pub open spec fn valid_state(&self, s: int) -> bool {
        0 <= s < self.num_states()
    }

    /// Well-formedness: the transition function is total over states ×
    /// alphabet and lands on states; start and cursor are states; the alphabet
    /// holds each symbol once.
    pub open spec fn wf(&self) -> bool {
        &&& self.layout_ok()
        &&& self.alphabet().no_duplicates()
        &&& self.valid_state(self.start())
        &&& self.valid_state(self.cursor())
        &&& forall|s: int, a: int|
            self.valid_state(s) && 0 <= a < self.alphabet().len() ==> self.valid_state(
                #[trigger] self.next(s, a),
            )
    }

    /// Distinct states carry distinct identities.
    pub open spec fn names_distinct(&self) -> bool {
        forall|s: int, t: int|
            self.valid_state(s) && self.valid_state(t) && s != t ==> #[trigger] self.name(s)
                != #[trigger] self.name(t)
    }

    /// The identities of the states, as a set.
    pub open spec fn name_set(&self) -> Set<Name> {
        Set::new(|nm: Name| exists|s: int| self.valid_state(s) && #[trigger] self.name(s) == nm)
    }

    /// The state reached from `s` on the symbol `c`.
    pub open spec fn delta(&self, s: int, c: char) -> int {
        self.next(s, self.alphabet().index_of(c))
    }

    /// Every symbol of `w` is in the alphabet.
    pub open spec fn in_alphabet(&self, w: Seq<char>) -> bool {
        forall|i: int| 0 <= i < w.len() ==> self.alphabet().contains(#[trigger] w[i])
    }

    /// The state reached from `s` by reading `w`.
    pub open spec fn run(&self, s: int, w: Seq<char>) -> int
        decreases w.len(),
    {
        if w.len() == 0 {
            s
        } else {
            self.run(self.delta(s, w[0]), w.drop_first())
        }
    }

    /// The automaton accepts `w`: every symbol is in the alphabet and the run
    /// from the start state ends in an accepting state.
    pub open spec fn accepts_word(&self, w: Seq<char>) -> bool {
        self.in_alphabet(w) && self.is_final(self.run(self.start(), w))
    }

    /// Some word leads from `s` to an accepting state.
    pub open spec fn live(&self, s: int) -> bool {
        exists|w: Seq<char>| #[trigger] self.in_alphabet(w) && self.is_final(self.run(s, w))
    }

    /// The trapped states are exactly those from which no accepting state can
    /// be reached.
    pub open spec fn trapped_ok(&self) -> bool {
        forall|s: int| self.valid_state(s) ==> (#[trigger] self.is_trapped(s) <==> !self.live(s))
    }

    /// `self` and `o` have the same states, alphabet and transitions.
    pub open spec fn same_moves(&self, o: &DFA) -> bool {
        &&& self.num_states() == o.num_states()
        &&& self.alphabet() == o.alphabet()
        &&& forall|s: int, a: int|
            self.valid_state(s) && 0 <= a < self.alphabet().len() ==> #[trigger] self.next(s, a)
                == o.next(s, a)
    }

    /// `self` and `o` have the same states, alphabet, start, accepting states
    /// and transitions.
    pub open spec fn same_transitions(&self, o: &DFA) -> bool {
        &&& self.same_moves(o)
        &&& self.start() == o.start()
        &&& forall|s: int| self.valid_state(s) ==> #[trigger] self.name(s) == o.name(s)
        &&& forall|s: int| self.valid_state(s) ==> #[trigger] self.is_final(s) == o.is_final(s)
    }

    /// `self` and `o` are the same automaton, the cursor aside.
    pub open spec fn same_automaton(&self, o: &DFA) -> bool {
        &&& self.same_transitions(o)
        &&& forall|s: int| self.valid_state(s) ==> #[trigger] self.is_trapped(s) == o.is_trapped(s)
    }

    /// The position of `c` in the alphabet, if it is there.
    pub fn symbol_index(&self, c: char) -> (r: Option<usize>)
        ensures
            match r {
                Some(a) => a < self.alphabet().len() && self.alphabet()[a as int] == c,
                None => !self.alphabet().contains(c),
            },
    {
        let mut a: usize = 0;
        while a < self.alphabets.len()
            invariant
                a <= self.alphabets@.len(),
                forall|b: int| 0 <= b < a ==> self.alphabets@[b] != c,
            decreases self.alphabets@.len() - a,
        {
            if self.alphabets[a] == c {
                return Some(a);
            }
            a = a + 1;
        }
        None
    }

    /// Puts the cursor on the start state.
    fn reset_cursor(&mut self)
        requires
            old(self).wf(),
        ensures
            final(self).wf(),
            final(self).same_automaton(old(self)),
            final(self).cursor() == final(self).start(),
    {
        let ghost d0 = *self;
        self.current_state = self.start_state;
        proof {
            assert forall|s: int, b: int|
                self.valid_state(s) && 0 <= b < self.alphabet().len() implies self.valid_state(
                #[trigger] self.next(s, b),
            ) by {
                assert(self.next(s, b) == d0.next(s, b));
            }
        }
    }

    /// Moves the cursor along the transition on `alphabet`.
    pub fn update_to_next_state(&mut self, alphabet: char) -> (r: Result<(), CustomError>)
        requires
            old(self).wf(),
        ensures
            final(self).wf(),
            final(self).same_automaton(old(self)),
            match r {
                Ok(()) => old(self).alphabet().contains(alphabet) && final(self).cursor()
                    == old(self).delta(old(self).cursor(), alphabet),
                Err(e) => e == CustomError::InvalidAlphabet && !old(self).alphabet().contains(
                    alphabet,
                ) && final(self).cursor() == old(self).cursor(),
            },
    {
        match self.symbol_index(alphabet) {
            Some(a) => {
                proof {
                    lemma_index_of_unique(self.alphabet(), a as int);
                    assert(self.valid_state(self.next(self.cursor(), a as int)));
                }
                let ghost d0 = *self;
                self.current_state = self.transition_table[self.current_state][a];
                proof {
                    assert forall|s: int, b: int|
                        self.valid_state(s) && 0 <= b < self.alphabet().len() implies self.valid_state(
                        #[trigger] self.next(s, b),
                    ) by {
                        assert(self.next(s, b) == d0.next(s, b));
                    }
                }
                Ok(())
            },
            None => Err(CustomError::InvalidAlphabet),
        }
    }
}

/// The number of `false` entries.
pub open spec fn num_unmarked(m: Seq<bool>) -> nat
    decreases m.len(),
{
    if m.len() == 0 {
        0
    } else {
        num_unmarked(m.drop_last()) + if m.last() {
            0nat
        } else {
            1nat
        }
    }
}

/// Marking an unmarked entry lowers the count by one.
pub proof fn lemma_mark(m: Seq<bool>, i: int)
    requires
        0 <= i < m.len(),
        !m[i],
    ensures
        num_unmarked(m.update(i, true)) + 1 == num_unmarked(m),
    decreases m.len(),
{
    if i == m.len() - 1 {
        assert(m.update(i, true).drop_last() =~= m.drop_last());
    } else {
        assert(m.update(i, true).drop_last() =~= m.drop_last().update(i, true));
        lemma_mark(m.drop_last(), i);
    }
}

impl DFA {
    /// Each transition lands on a state.
    pub proof fn lemma_delta_valid(&self, s: int, c: char)
        requires
            self.wf(),
            self.valid_state(s),
            self.alphabet().contains(c),
        ensures
            self.valid_state(self.delta(s, c)),
    {
        lemma_index_of_contained(self.alphabet(), c);
    }

    /// A run from a state over the alphabet ends in a state.
    pub proof fn lemma_run_valid(&self, s: int, w: Seq<char>)
        requires
            self.wf(),
            self.valid_state(s),
            self.in_alphabet(w),
        ensures
            self.valid_state(self.run(s, w)),
        decreases w.len(),
    {
        if w.len() > 0 {
            assert(self.alphabet().contains(w[0]));
            self.lemma_delta_valid(s, w[0]);
            assert forall|i: int| 0 <= i < w.drop_first().len() implies self.alphabet().contains(
                #[trigger] w.drop_first()[i],
            ) by {
                assert(w.drop_first()[i] == w[i + 1]);
            }
            self.lemma_run_valid(self.delta(s, w[0]), w.drop_first());
        }
    }

    /// Reading one more symbol takes one more step.
    pub proof fn lemma_run_snoc(&self, s: int, w: Seq<char>, c: char)
        ensures
            self.run(s, w.push(c)) == self.delta(self.run(s, w), c),
        decreases w.len(),
    {
        if w.len() == 0 {
            assert(w.push(c).drop_first() =~= Seq::<char>::empty());
            assert(w.push(c)[0] == c);
            assert(self.run(self.delta(s, c), Seq::<char>::empty()) == self.delta(s, c));
        } else {
            assert(w.push(c).drop_first() =~= w.drop_first().push(c));
            assert(w.push(c)[0] == w[0]);
            self.lemma_run_snoc(self.delta(s, w[0]), w.drop_first(), c);
        }
    }

    /// Reading `u` then `v` is reading `u + v`.
    pub proof fn lemma_run_concat(&self, s: int, u: Seq<char>, v: Seq<char>)
        ensures
            self.run(s, u + v) == self.run(self.run(s, u), v),
        decreases u.len(),
    {
        if u.len() == 0 {
            assert(u + v =~= v);
        } else {
            assert((u + v).drop_first() =~= u.drop_first() + v);
            self.lemma_run_concat(self.delta(s, u[0]), u.drop_first(), v);
        }
    }

    /// Reading `c` first moves along the transition on `c`.
    pub proof fn lemma_run_cons(&self, s: int, c: char, w: Seq<char>)
        ensures
            self.run(s, seq![c] + w) == self.run(self.delta(s, c), w),
    {
        assert((seq![c] + w).drop_first() =~= w);
    }
}

impl DFA {
    /// A state with a transition into a live state is live.
    pub proof fn lemma_live_pred(&self, s: int, a: int)
        requires
            self.wf(),
            self.valid_state(s),
            0 <= a < self.alphabet().len(),
            self.live(self.next(s, a)),
        ensures
            self.live(s),
    {
        let w = choose|w: Seq<char>| #[trigger]
            self.in_alphabet(w) && self.is_final(self.run(self.next(s, a), w));
        let c = self.alphabet()[a];
        lemma_index_of_unique(self.alphabet(), a);
        self.lemma_run_cons(s, c, w);
        let w2 = seq![c] + w;
        assert forall|i: int| 0 <= i < w2.len() implies self.alphabet().contains(#[trigger] w2[i]) by {
            if i > 0 {
                assert(w2[i] == w[i - 1]);
            }
        }
        assert(self.in_alphabet(w2) && self.is_final(self.run(s, w2)));
    }

    /// A set of states that holds every accepting state and every state with a
    /// transition into it holds every live state.
    pub proof fn lemma_backward_closed(&self, m: Seq<bool>, s: int, w: Seq<char>)
        requires
            self.wf(),
            m.len() == self.num_states(),
            forall|s2: int, a: int|
                self.valid_state(s2) && 0 <= a < self.alphabet().len() && m[#[trigger] self.next(
                    s2,
                    a,
                )] ==> m[s2],
            forall|s2: int| self.valid_state(s2) && #[trigger] self.is_final(s2) ==> m[s2],
            self.valid_state(s),
            self.in_alphabet(w),
            self.is_final(self.run(s, w)),
        ensures
            m[s],
        decreases w.len(),
    {
        if w.len() > 0 {
            let c = w[0];
            assert(self.alphabet().contains(c));
            lemma_index_of_contained(self.alphabet(), c);
            self.lemma_delta_valid(s, c);
            assert forall|i: int| 0 <= i < w.drop_first().len() implies self.alphabet().contains(
                #[trigger] w.drop_first()[i],
            ) by {
                assert(w.drop_first()[i] == w[i + 1]);
            }
            self.lemma_backward_closed(m, self.delta(s, c), w.drop_first());
            assert(m[self.next(s, self.alphabet().index_of(c))]);
        }
    }

    /// Whether some transition leads from `s` to `t`.
    fn has_edge_to(&self, s: usize, t: usize) -> (r: bool)
        requires
            self.wf(),
            self.valid_state(s as int),
        ensures
            r == exists|a: int| 0 <= a < self.alphabet().len() && #[trigger] self.next(s as int, a) == t,
    {
        let mut a: usize = 0;
        while a < self.alphabets.len()
            invariant
                self.wf(),
                self.valid_state(s as int),
                a <= self.alphabet().len(),
                forall|b: int| 0 <= b < a ==> #[trigger] self.next(s as int, b) != t,
            decreases self.alphabet().len() - a,
        {
            if self.transition_table[s][a] == t {
                assert(self.next(s as int, a as int) == t);
                return true;
            }
            a = a + 1;
        }
        false
    }

    /// Recomputes the trapped states: a state is trapped when no accepting
    /// state can be reached from it.
    pub fn update_trapped_states(&mut self)
        requires
            old(self).wf(),
        ensures
            final(self).wf(),
            final(self).same_transitions(old(self)),
            final(self).cursor() == old(self).cursor(),
            final(self).trapped_ok(),
    {
        let n = self.states.len();
        let mut reach: Vec<bool> = Vec::new();
        let mut stack: Vec<usize> = Vec::new();
        let mut s: usize = 0;
        while s < n
            invariant
                self.wf(),
                n == self.num_states(),
                s <= n,
                reach@.len() == s,
                forall|i: int| 0 <= i < s ==> reach@[i] == self.is_final(i),
                forall|i: int| 0 <= i < s && reach@[i] ==> stack@.contains(i as usize),
                forall|j: int| 0 <= j < stack@.len() ==> stack@[j] < s && reach@[stack@[j] as int],
            decreases n - s,
        {
            let f = self.final_states[s];
            let ghost sb = stack@;
            reach.push(f);
            if f {
                stack.push(s);
                assert(stack@[stack@.len() - 1] == s);
            }
            proof {
                assert forall|i: int| 0 <= i < s + 1 && reach@[i] implies stack@.contains(i as usize) by {
                    if i < s {
                        let j = choose|j: int| 0 <= j < sb.len() && sb[j] == i as usize;
                        assert(stack@[j] == i as usize);
                    }
                }
            }
            s = s + 1;
        }
        proof {
            assert forall|i: int| self.valid_state(i) && reach@[i] implies self.live(i) by {
                let e = Seq::<char>::empty();
                assert(self.in_alphabet(e) && self.is_final(self.run(i, e)));
            }
        }
        while stack.len() > 0
            invariant
                self.wf(),
                n == self.num_states(),
                reach@.len() == n,
                forall|j: int| 0 <= j < stack@.len() ==> stack@[j] < n && reach@[stack@[j] as int],
                forall|i: int| self.valid_state(i) && #[trigger] reach@[i] ==> self.live(i),
                forall|i: int| self.valid_state(i) && #[trigger] self.is_final(i) ==> reach@[i],
                forall|s2: int, a: int|
                    self.valid_state(s2) && 0 <= a < self.alphabet().len() && reach@[
                        #[trigger] self.next(s2, a)
                    ] && !stack@.contains(self.next(s2, a) as usize) ==> reach@[s2],
            decreases num_unmarked(reach@), stack@.len(),
        {
            let ghost sb = stack@;
            let t = stack.pop().unwrap();
            let ghost base = stack@.len();
            let ghost num0 = num_unmarked(reach@);
            proof {
                assert(stack@ == sb.drop_last() && t == sb[sb.len() - 1]);
                assert forall|s2: int, a: int|
                    self.valid_state(s2) && 0 <= a < self.alphabet().len() && reach@[
                        #[trigger] self.next(s2, a)
                    ] && !stack@.contains(self.next(s2, a) as usize) && self.next(s2, a) != t
                        implies reach@[s2] by {
                    let x = self.next(s2, a) as usize;
                    if sb.contains(x) {
                        let j = choose|j: int| 0 <= j < sb.len() && sb[j] == x;
                        assert(stack@[j] == x);
                    }
                }
            }
            let mut p: usize = 0;
            while p < n
                invariant
                    self.wf(),
                    n == self.num_states(),
                    t < n,
                    p <= n,
                    reach@.len() == n,
                    base <= stack@.len(),
                    num_unmarked(reach@) + (stack@.len() - base) == num0,
                    reach@[t as int],
                    forall|j: int| 0 <= j < stack@.len() ==> stack@[j] < n && reach@[stack@[j] as int],
                    forall|i: int| self.valid_state(i) && #[trigger] reach@[i] ==> self.live(i),
                    forall|i: int| self.valid_state(i) && #[trigger] self.is_final(i) ==> reach@[i],
                    forall|s2: int, a: int|
                        self.valid_state(s2) && 0 <= a < self.alphabet().len() && reach@[
                            #[trigger] self.next(s2, a)
                        ] && !stack@.contains(self.next(s2, a) as usize) && self.next(s2, a) != t
                            ==> reach@[s2],
                    forall|s2: int, a: int|
                        0 <= s2 < p && 0 <= a < self.alphabet().len() && #[trigger] self.next(s2, a)
                            == t ==> reach@[s2],
                decreases n - p,
            {
                if !reach[p] && self.has_edge_to(p, t) {
                    proof {
                        let a = choose|a: int| 0 <= a < self.alphabet().len() && #[trigger] self.next(p as int, a) == t;
                        self.lemma_live_pred(p as int, a);
                        lemma_mark(reach@, p as int);
                    }
                    let ghost sb2 = stack@;
                    let ghost rb = reach@;
                    reach.set(p, true);
                    stack.push(p);
                    proof {
                        assert(stack@[stack@.len() - 1] == p);
                        assert(stack@.contains(p));
                        assert forall|s2: int, a: int|
                            self.valid_state(s2) && 0 <= a < self.alphabet().len() && reach@[
                                #[trigger] self.next(s2, a)
                            ] && !stack@.contains(self.next(s2, a) as usize) && self.next(s2, a) != t
                                implies reach@[s2] by {
                            let x = self.next(s2, a) as usize;
                            if sb2.contains(x) {
                                let j = choose|j: int| 0 <= j < sb2.len() && sb2[j] == x;
                                assert(stack@[j] == x);
                            }
                            assert(rb[x as int]);
                        }
                    }
                }
                p = p + 1;
            }
        }
        proof {
            assert forall|i: int| self.valid_state(i) && self.live(i) implies reach@[i] by {
                let w = choose|w: Seq<char>| #[trigger] self.in_alphabet(w) && self.is_final(self.run(i, w));
                self.lemma_backward_closed(reach@, i, w);
            }
        }
        let mut trapped: Vec<bool> = Vec::new();
        let mut q: usize = 0;
        while q < n
            invariant
                n == reach@.len(),
                q <= n,
                trapped@.len() == q,
                forall|i: int| 0 <= i < q ==> trapped@[i] == !reach@[i],
            decreases n - q,
        {
            trapped.push(!reach[q]);
            q = q + 1;
        }
        let ghost d0 = *self;
        self.trapped_states = trapped;
        proof {
            self.lemma_wf_from(&d0);
            assert forall|i: int| self.valid_state(i) implies (#[trigger] self.is_trapped(i) <==> !self.live(i)) by {
                self.lemma_same_live(&d0, i);
            }
        }
    }

    /// Two automata with the same transitions run alike.
    pub proof fn lemma_same_run(&self, o: &DFA, s: int, w: Seq<char>)
        requires
            o.wf(),
            self.same_moves(o),
            o.valid_state(s),
            o.in_alphabet(w),
        ensures
            self.run(s, w) == o.run(s, w),
        decreases w.len(),
    {
        if w.len() > 0 {
            assert(o.alphabet().contains(w[0]));
            lemma_index_of_contained(o.alphabet(), w[0]);
            o.lemma_delta_valid(s, w[0]);
            assert(self.delta(s, w[0]) == o.delta(s, w[0]));
            assert forall|i: int| 0 <= i < w.drop_first().len() implies o.alphabet().contains(
                #[trigger] w.drop_first()[i],
            ) by {
                assert(w.drop_first()[i] == w[i + 1]);
            }
            self.lemma_same_run(o, o.delta(s, w[0]), w.drop_first());
        }
    }

    /// An automaton with the same transitions is the same up to renaming.
    pub proof fn lemma_same_iso(&self, o: &DFA)
        requires
            o.wf(),
            self.wf(),
            self.same_transitions(o),
        ensures
            isomorphic(o, self),
    {
        let f = Seq::new(o.num_states() as nat, |s: int| s);
        assert(is_morphism(o, self, f));
        assert(is_isomorphism(o, self, f));
    }

    /// Two automata with the same transitions accept the same words.
    pub proof fn lemma_same_accepts(&self, o: &DFA)
        requires
            o.wf(),
            self.same_transitions(o),
        ensures
            forall|w: Seq<char>| #[trigger] self.accepts_word(w) == o.accepts_word(w),
    {
        assert forall|w: Seq<char>| #[trigger] self.accepts_word(w) == o.accepts_word(w) by {
            if o.in_alphabet(w) {
                self.lemma_same_run(o, o.start(), w);
                o.lemma_run_valid(o.start(), w);
            }
        }
    }

    /// Two automata with the same transitions agree on which states are live.
    pub proof fn lemma_same_live(&self, o: &DFA, s: int)
        requires
            o.wf(),
            self.same_moves(o),
            forall|x: int| o.valid_state(x) ==> #[trigger] self.is_final(x) == o.is_final(x),
            o.valid_state(s),
        ensures
            self.live(s) == o.live(s),
    {
        if self.live(s) {
            let w = choose|w: Seq<char>| #[trigger] self.in_alphabet(w) && self.is_final(self.run(s, w));
            assert(o.in_alphabet(w));
            self.lemma_same_run(o, s, w);
            o.lemma_run_valid(s, w);
            assert(o.in_alphabet(w) && o.is_final(o.run(s, w)));
        }
        if o.live(s) {
            let w = choose|w: Seq<char>| #[trigger] o.in_alphabet(w) && o.is_final(o.run(s, w));
            self.lemma_same_run(o, s, w);
            o.lemma_run_valid(s, w);
            assert(self.in_alphabet(w) && self.is_final(self.run(s, w)));
        }
    }

    /// Well-formedness carries over to a copy with the same transitions.
    proof fn lemma_wf_from(&self, d0: &DFA)
        requires
            d0.wf(),
            self.layout_ok(),
            self.same_transitions(d0),
            self.valid_state(self.cursor()),
        ensures
            self.wf(),
    {
        assert forall|s: int, a: int|
            self.valid_state(s) && 0 <= a < self.alphabet().len() implies self.valid_state(
            #[trigger] self.next(s, a),
        ) by {
            assert(self.next(s, a) == d0.next(s, a));
        }
    }
}

impl DFA {
    /// `self` is the automaton that the lists describe.
    pub open spec fn models(
        &self,
        states: Set<Name>,
        alpha: Set<char>,
        t: Seq<((Name, char), Name)>,
        start: Name,
        finals: Set<Name>,
    ) -> bool {
        &&& self.name_set() == states
        &&& self.alphabet().to_set() == alpha
        &&& self.name(self.start()) == start
        &&& forall|s: int| self.valid_state(s) ==> (#[trigger] self.is_final(s) <==> finals.contains(self.name(s)))
        &&& forall|s: int, a: int|
            self.valid_state(s) && 0 <= a < self.alphabet().len() ==> t.contains(
                ((self.name(s), self.alphabet()[a]), self.name(#[trigger] self.next(s, a))),
            )
    }

    /// Builds and validates an automaton from its states, alphabet, transition
    /// table, start state and accepting states, and computes its trapped
    /// states. Repeated states or symbols in the lists count once.
    #[verifier::rlimit(50)]
    pub fn new_unoptimized(
        states: Vec<State>,
        alphabets: Vec<char>,
        transition_table: Vec<((State, char), State)>,
        start_state: State,
        final_states: Vec<State>,
    ) -> (r: Result<Self, CustomError>)
        ensures
            ({
                let st = names_of(states@).to_set();
                let al = alphabets@.to_set();
                let t = entries_of(transition_table@);
                let fi = names_of(final_states@).to_set();
                match r {
                    Ok(d) => valid_lists(st, al, t, start_state@, fi) && d.wf() && d.trapped_ok()
                        && d.names_distinct() && d.models(st, al, t, start_state@, fi) && d.cursor()
                        == d.start(),
                    Err(e) => !valid_lists(st, al, t, start_state@, fi) && (e
                        == CustomError::InvalidDFAKeys <==> !keys_exact(st, al, t)) && (e
                        == CustomError::NoDFAStartState <==> keys_exact(st, al, t) && !st.contains(
                        start_state@,
                    )) && (e == CustomError::InvalidDFAFinalStates <==> keys_exact(st, al, t)
                        && st.contains(start_state@) && !fi.subset_of(st)),
                }
            }),
    {
        let ghost st = names_of(states@).to_set();
        let ghost al = alphabets@.to_set();
        let ghost t = entries_of(transition_table@);
        let ghost fi = names_of(final_states@).to_set();
        let names = distinct_states(&states);
        let alpha = distinct_chars(&alphabets);
        let n = names.len();
        let k = alpha.len();
        let ghost nm = names_of(names@);
        proof {
            assert forall|x: Name| st.contains(x) <==> nm.contains(x) by {
                assert(nm.to_set().contains(x) == nm.contains(x));
            }
            assert forall|c: char| al.contains(c) <==> alpha@.contains(c) by {
                assert(alpha@.to_set().contains(c) == alpha@.contains(c));
            }
        }
        if !entries_known(&names, &alpha, &transition_table) {
            return Err(CustomError::InvalidDFAKeys);
        }
        if !keys_unique(&transition_table) {
            return Err(CustomError::InvalidDFAKeys);
        }
        let table = match build_table(&names, &alpha, &transition_table) {
            Ok(table) => table,
            Err((p, a)) => {
                proof {
                    lemma_names_of_contains(names@, p as int);
                    assert(st.contains(names@[p as int]@));
                    assert(al.contains(alpha@[a as int]));
                    assert(!keys_exact(st, al, t)) by {
                        if keys_exact(st, al, t) {
                            let q = choose|q: int| 0 <= q < t.len() && #[trigger] t[q].0 == (names@[p as int]@, alpha@[a as int]);
                            assert(t[q].0 != (names@[p as int]@, alpha@[a as int]));
                        }
                    }
                }
                return Err(CustomError::InvalidDFAKeys);
            },
        };
        proof {
            assert forall|x: Name, c: char| st.contains(x) && al.contains(c) implies exists|q: int|
                0 <= q < t.len() && #[trigger] t[q].0 == (x, c) by {
                let p = choose|p: int| 0 <= p < nm.len() && nm[p] == x;
                let a = choose|a: int| 0 <= a < k && alpha@[a] == c;
                assert(table@[p]@.len() == k);
                let y = ((names@[p]@, alpha@[a]), names@[table@[p]@[a] as int]@);
                assert(t.contains(y));
                let q = choose|q: int| 0 <= q < t.len() && t[q] == y;
                assert(t[q].0 == (x, c));
            }
            assert(keys_exact(st, al, t));
        }
        let start = match position_of(&names, &start_state) {
            Some(s0) => s0,
            None => {
                return Err(CustomError::NoDFAStartState);
            },
        };
        if !all_listed(&names, &final_states) {
            return Err(CustomError::InvalidDFAFinalStates);
        }
        let mut finals: Vec<bool> = Vec::new();
        let mut trapped: Vec<bool> = Vec::new();
        let mut p: usize = 0;
        while p < n
            invariant
                p <= n,
                n == names@.len(),
                fi == names_of(final_states@).to_set(),
                finals@.len() == p,
                trapped@.len() == p,
                forall|q: int| 0 <= q < p ==> (#[trigger] finals@[q] <==> fi.contains(names@[q]@)),
            decreases n - p,
        {
            let isf = position_of(&final_states, &names[p]).is_some();
            assert(fi.contains(names@[p as int]@) == names_of(final_states@).contains(names@[p as int]@));
            finals.push(isf);
            trapped.push(false);
            p = p + 1;
        }
        let mut d = DFA {
            states: names,
            alphabets: alpha,
            transition_table: table,
            start_state: start,
            current_state: start,
            final_states: finals,
            trapped_states: trapped,
        };
        proof {
            assert(d.layout_ok());
            assert forall|s: int, a: int| d.valid_state(s) && 0 <= a < d.alphabet().len() implies d.valid_state(
                #[trigger] d.next(s, a),
            ) by {
                assert(d.transition_table@[s]@.len() == k);
            }
            assert(d.wf());
        }
        d.update_trapped_states();
        proof {
            assert forall|x: Name| d.name_set().contains(x) <==> st.contains(x) by {
                if st.contains(x) {
                    let q = choose|q: int| 0 <= q < nm.len() && nm[q] == x;
                    assert(d.name(q) == x);
                }
                if d.name_set().contains(x) {
                    let q = choose|q: int| d.valid_state(q) && #[trigger] d.name(q) == x;
                    assert(nm[q] == x);
                }
            }
            assert(d.name_set() =~= st);
            assert forall|c: char| d.alphabet().to_set().contains(c) <==> al.contains(c) by {
                assert(d.alphabet().to_set().contains(c) == d.alphabet().contains(c));
            }
            assert(d.alphabet().to_set() =~= al);
            assert forall|s: int, a: int|
                d.valid_state(s) && 0 <= a < d.alphabet().len() implies t.contains(
                    ((d.name(s), d.alphabet()[a]), d.name(#[trigger] d.next(s, a))),
                ) by {
                assert(d.transition_table@[s]@.len() == k);
            }
        }
        Ok(d)
    }

    /// Resets the cursor to the start state and runs the automaton over
    /// `text`; tells whether it ends in an accepting state.
    pub fn accepts(&mut self, text: &str) -> (r: Result<bool, CustomError>)
        requires
            old(self).wf(),
        ensures
            final(self).wf(),
            final(self).same_automaton(old(self)),
            match r {
                Ok(b) => old(self).in_alphabet(text@) && b == old(self).accepts_word(text@),
                Err(e) => e == CustomError::InvalidAlphabet && !old(self).in_alphabet(text@),
            },
    {
        let ghost d0 = *self;
        self.current_state = self.start_state;
        let chars = chars_of(text);
        let mut i: usize = 0;
        proof {
            self.lemma_wf_from(&d0);
        }
        while i < chars.len()
            invariant
                self.wf(),
                self.same_automaton(&d0),
                d0 == *old(self),
                d0.wf(),
                chars@ == text@,
                i <= chars@.len(),
                d0.in_alphabet(chars@.subrange(0, i as int)),
                self.cursor() == d0.run(d0.start(), chars@.subrange(0, i as int)),
            decreases chars@.len() - i,
        {
            let c = chars[i];
            let ghost cur = self.cursor();
            match self.update_to_next_state(c) {
                Ok(()) => {},
                Err(e) => {
                    proof {
                        assert(!d0.alphabet().contains(text@[i as int]));
                    }
                    return Err(e);
                },
            }
            proof {
                let u = chars@.subrange(0, i as int);
                assert(chars@.subrange(0, i + 1) =~= u.push(c));
                d0.lemma_run_snoc(d0.start(), u, c);
                assert(self.delta(cur, c) == d0.delta(cur, c)) by {
                    lemma_index_of_contained(self.alphabet(), c);
                    d0.lemma_run_valid(d0.start(), u);
                }
                assert forall|p: int| 0 <= p < i + 1 implies d0.alphabet().contains(#[trigger] chars@.subrange(0, i + 1)[p]) by {
                    if p < i {
                        assert(chars@.subrange(0, i + 1)[p] == u[p]);
                    }
                }
            }
            i = i + 1;
        }
        assert(chars@.subrange(0, i as int) =~= text@);
        proof {
            d0.lemma_run_valid(d0.start(), text@);
            assert(self.is_final(self.cursor()) == d0.is_final(self.cursor()));
        }
        Ok(self.final_states[self.current_state])
    }
}

impl DFA {
    /// Some word leads from the start state to `s`.
    pub open spec fn reachable(&self, s: int) -> bool {
        exists|w: Seq<char>| #[trigger] self.in_alphabet(w) && self.run(self.start(), w) == s
    }

    /// Every state can be reached from the start state.
    pub open spec fn all_reachable(&self) -> bool {
        forall|s: int| self.valid_state(s) ==> #[trigger] self.reachable(s)
    }

    /// A state reached by a transition from a reachable state is reachable.
    pub proof fn lemma_reachable_succ(&self, s: int, a: int)
        requires
            self.wf(),
            self.reachable(s),
            0 <= a < self.alphabet().len(),
        ensures
            self.reachable(self.next(s, a)),
    {
        let w = choose|w: Seq<char>| #[trigger] self.in_alphabet(w) && self.run(self.start(), w) == s;
        let c = self.alphabet()[a];
        lemma_index_of_unique(self.alphabet(), a);
        self.lemma_run_snoc(self.start(), w, c);
        let w2 = w.push(c);
        assert forall|i: int| 0 <= i < w2.len() implies self.alphabet().contains(#[trigger] w2[i]) by {
            if i < w.len() {
                assert(w2[i] == w[i]);
            }
        }
        assert(self.in_alphabet(w2) && self.run(self.start(), w2) == self.next(s, a));
    }

    /// A set of states that holds the start state and is closed under
    /// transitions holds every reachable state.
    pub proof fn lemma_forward_closed(&self, m: Seq<bool>, w: Seq<char>)
        requires
            self.wf(),
            m.len() == self.num_states(),
            m[self.start()],
            forall|s2: int, a: int|
                self.valid_state(s2) && 0 <= a < self.alphabet().len() && m[s2] ==> m[#[trigger] self.next(s2, a)],
            self.in_alphabet(w),
        ensures
            m[self.run(self.start(), w)],
        decreases w.len(),
    {
        if w.len() > 0 {
            let u = w.drop_last();
            let c = w.last();
            assert(w =~= u.push(c));
            assert forall|i: int| 0 <= i < u.len() implies self.alphabet().contains(#[trigger] u[i]) by {
                assert(u[i] == w[i]);
            }
            self.lemma_forward_closed(m, u);
            self.lemma_run_snoc(self.start(), u, c);
            self.lemma_run_valid(self.start(), u);
            assert(self.alphabet().contains(w[w.len() - 1]));
            lemma_index_of_contained(self.alphabet(), c);
        }
    }

    /// The states reachable from the start state, as flags.
    fn reachable_flags(&self) -> (reach: Vec<bool>)
        requires
            self.wf(),
        ensures
            reach@.len() == self.num_states(),
            forall|s: int| self.valid_state(s) ==> (#[trigger] reach@[s] <==> self.reachable(s)),
    {
        let n = self.states.len();
        let mut reach: Vec<bool> = Vec::new();
        let mut p: usize = 0;
        while p < n
            invariant
                p <= n,
                reach@.len() == p,
                forall|i: int| 0 <= i < p ==> !reach@[i],
            decreases n - p,
        {
            reach.push(false);
            p = p + 1;
        }
        reach.set(self.start_state, true);
        let mut stack: Vec<usize> = Vec::new();
        stack.push(self.start_state);
        proof {
            let e = Seq::<char>::empty();
            assert(self.in_alphabet(e) && self.run(self.start(), e) == self.start());
            assert(stack@[0] == self.start_state);
            assert forall|i: int| self.valid_state(i) && #[trigger] reach@[i] implies stack@.contains(i as usize) by {
                assert(i == self.start());
            }
        }
        while stack.len() > 0
            invariant
                self.wf(),
                n == self.num_states(),
                reach@.len() == n,
                reach@[self.start()],
                forall|j: int| 0 <= j < stack@.len() ==> stack@[j] < n && reach@[stack@[j] as int],
                forall|i: int| self.valid_state(i) && #[trigger] reach@[i] ==> self.reachable(i),
                forall|s2: int, a: int|
                    self.valid_state(s2) && 0 <= a < self.alphabet().len() && reach@[s2]
                        && !stack@.contains(s2 as usize) ==> reach@[#[trigger] self.next(s2, a)],
            decreases num_unmarked(reach@), stack@.len(),
        {
            let ghost sb = stack@;
            let s = stack.pop().unwrap();
            let ghost base = stack@.len();
            let ghost num0 = num_unmarked(reach@);
            proof {
                assert(stack@ == sb.drop_last() && s == sb[sb.len() - 1]);
                assert forall|s2: int, a: int|
                    self.valid_state(s2) && 0 <= a < self.alphabet().len() && reach@[s2]
                        && !stack@.contains(s2 as usize) && s2 != s implies reach@[#[trigger] self.next(s2, a)] by {
                    if sb.contains(s2 as usize) {
                        let j = choose|j: int| 0 <= j < sb.len() && sb[j] == s2 as usize;
                        assert(stack@[j] == s2 as usize);
                    }
                }
            }
            let mut a: usize = 0;
            while a < self.alphabets.len()
                invariant
                    self.wf(),
                    n == self.num_states(),
                    s < n,
                    a <= self.alphabet().len(),
                    reach@.len() == n,
                    reach@[self.start()],
                    reach@[s as int],
                    base <= stack@.len(),
                    num_unmarked(reach@) + (stack@.len() - base) == num0,
                    forall|j: int| 0 <= j < stack@.len() ==> stack@[j] < n && reach@[stack@[j] as int],
                    forall|i: int| self.valid_state(i) && #[trigger] reach@[i] ==> self.reachable(i),
                    forall|s2: int, b: int|
                        self.valid_state(s2) && 0 <= b < self.alphabet().len() && reach@[s2]
                            && !stack@.contains(s2 as usize) && s2 != s ==> reach@[#[trigger] self.next(s2, b)],
                    forall|b: int| 0 <= b < a ==> reach@[#[trigger] self.next(s as int, b)],
                decreases self.alphabet().len() - a,
            {
                let t = self.transition_table[s][a];
                proof {
                    assert(t == self.next(s as int, a as int));
                    assert(self.valid_state(self.next(s as int, a as int)));
                }
                if !reach[t] {
                    proof {
                        self.lemma_reachable_succ(s as int, a as int);
                        lemma_mark(reach@, t as int);
                    }
                    let ghost sb2 = stack@;
                    reach.set(t, true);
                    stack.push(t);
                    proof {
                        assert forall|s2: int, b: int|
                            self.valid_state(s2) && 0 <= b < self.alphabet().len() && reach@[s2]
                                && !stack@.contains(s2 as usize) && s2 != s implies reach@[#[trigger] self.next(s2, b)] by {
                            assert(stack@[stack@.len() - 1] == t);
                            if s2 == t as int {
                                assert(stack@.contains(t));
                            }
                            if sb2.contains(s2 as usize) {
                                let j = choose|j: int| 0 <= j < sb2.len() && sb2[j] == s2 as usize;
                                assert(stack@[j] == s2 as usize);
                            }
                        }
                    }
                }
                a = a + 1;
            }
        }
        proof {
            assert forall|i: int| self.valid_state(i) && self.reachable(i) implies reach@[i] by {
                let w = choose|w: Seq<char>| #[trigger] self.in_alphabet(w) && self.run(self.start(), w) == i;
                self.lemma_forward_closed(reach@, w);
            }
        }
        reach
    }

    /// Deletes the states that cannot be reached from the start state,
    /// together with their transitions; the language and the trapped
    /// status of the remaining states are unchanged. The cursor is reset to
    /// the start state.
    pub fn remove_unreachable_states(&mut self)
        requires
            old(self).wf(),
        ensures
            final(self).wf(),
            final(self).all_reachable(),
            final(self).cursor() == final(self).start(),
            exists|f: Seq<int>| #[trigger] is_morphism(old(self), final(self), f)
                && (forall|s: int| old(self).valid_state(s) ==> (0 <= #[trigger] f[s] <==> old(self).reachable(s)))
                && (forall|s: int, t: int| old(self).valid_state(s) && old(self).valid_state(t) && 0 <= f[s] && s != t ==> #[trigger] f[s] != #[trigger] f[t])
                && (forall|s: int| old(self).valid_state(s) && 0 <= f[s] ==> #[trigger] final(self).name(f[s]) == old(self).name(s) && final(self).is_trapped(f[s]) == old(self).is_trapped(s)),
            forall|w: Seq<char>| #[trigger] final(self).accepts_word(w) == old(self).accepts_word(w),
            old(self).trapped_ok() ==> final(self).trapped_ok(),
            old(self).names_distinct() ==> final(self).names_distinct(),
            old(self).is_minimal() ==> final(self).is_minimal() && isomorphic(old(self), final(self)),
    {
        let ghost d0 = *self;
        let reach = self.reachable_flags();
        let n = self.states.len();
        // Reached states in increasing order, and each state's new position.
        let mut old_of: Vec<usize> = Vec::new();
        let mut new_of: Vec<usize> = Vec::new();
        let mut s: usize = 0;
        while s < n
            invariant
                s <= n,
                reach@.len() == n,
                new_of@.len() == s,
                old_of@.len() <= s,
                forall|i: int| 0 <= i < old_of@.len() ==> (#[trigger] old_of@[i] as int) < s && reach@[old_of@[i] as int]
                    && new_of@[old_of@[i] as int] == i,
                forall|i: int, j: int| 0 <= i < j < old_of@.len() ==> #[trigger] old_of@[i] < #[trigger] old_of@[j],
                forall|x: int| 0 <= x < s ==> (reach@[x] ==> (#[trigger] new_of@[x] as int) < old_of@.len() && old_of@[new_of@[x] as int] == x),
                forall|x: int| 0 <= x < s && !reach@[x] ==> #[trigger] new_of@[x] == n,
            decreases n - s,
        {
            if reach[s] {
                new_of.push(old_of.len());
                old_of.push(s);
            } else {
                new_of.push(n);
            }
            s = s + 1;
        }
        let m = old_of.len();
        let k = self.alphabets.len();
        let mut states: Vec<State> = Vec::new();
        let mut table: Vec<Vec<usize>> = Vec::new();
        let mut finals: Vec<bool> = Vec::new();
        let mut trapped: Vec<bool> = Vec::new();
        let mut i: usize = 0;
        while i < m
            invariant
                self.wf(),
                *self == d0,
                n == self.num_states(),
                k == self.alphabet().len(),
                m == old_of@.len(),
                reach@.len() == n,
                new_of@.len() == n,
                forall|s2: int| self.valid_state(s2) ==> (#[trigger] reach@[s2] <==> self.reachable(s2)),
                forall|j: int| 0 <= j < m ==> (#[trigger] old_of@[j] as int) < n && reach@[old_of@[j] as int]
                    && new_of@[old_of@[j] as int] == j,
                forall|x: int| 0 <= x < n ==> (reach@[x] ==> (#[trigger] new_of@[x] as int) < m && old_of@[new_of@[x] as int] == x),
                i <= m,
                states@.len() == i,
                table@.len() == i,
                finals@.len() == i,
                trapped@.len() == i,
                forall|j: int| 0 <= j < i ==> (#[trigger] states@[j])@ == self.name(old_of@[j] as int),
                forall|j: int| 0 <= j < i ==> #[trigger] finals@[j] == self.is_final(old_of@[j] as int),
                forall|j: int| 0 <= j < i ==> #[trigger] trapped@[j] == self.is_trapped(old_of@[j] as int),
                forall|j: int| 0 <= j < i ==> (#[trigger] table@[j])@.len() == k,
                forall|j: int, a: int| 0 <= j < i && 0 <= a < k ==> #[trigger] table@[j]@[a] as int == new_of@[self.next(old_of@[j] as int, a)] as int,
            decreases m - i,
        {
            let o = old_of[i];
            let mut row: Vec<usize> = Vec::new();
            let mut a: usize = 0;
            while a < k
                invariant
                    self.wf(),
                    n == self.num_states(),
                    k == self.alphabet().len(),
                    o < n,
                    new_of@.len() == n,
                    a <= k,
                    row@.len() == a,
                    forall|b: int| 0 <= b < a ==> #[trigger] row@[b] as int == new_of@[self.next(o as int, b)] as int,
                decreases k - a,
            {
                let t = self.transition_table[o][a];
                proof {
                    assert(t == self.next(o as int, a as int));
                    assert(self.valid_state(self.next(o as int, a as int)));
                }
                row.push(new_of[t]);
                a = a + 1;
            }
            states.push(self.states[o].duplicate());
            table.push(row);
            finals.push(self.final_states[o]);
            trapped.push(self.trapped_states[o]);
            i = i + 1;
        }
        let start = new_of[self.start_state];
        proof {
            let e = Seq::<char>::empty();
            assert(self.in_alphabet(e) && self.run(self.start(), e) == self.start());
            assert(reach@[self.start()]);
        }
        *self = DFA {
            states,
            alphabets: copy_vec(&self.alphabets),
            transition_table: table,
            start_state: start,
            current_state: start,
            final_states: finals,
            trapped_states: trapped,
        };
        proof {
            assert(self.layout_ok());
            assert forall|j: int, a: int| self.valid_state(j) && 0 <= a < self.alphabet().len() implies self.valid_state(
                #[trigger] self.next(j, a),
            ) by {
                let o = old_of@[j] as int;
                d0.lemma_reachable_succ(o, a);
                assert(d0.valid_state(d0.next(o, a)));
                assert(self.next(j, a) == new_of@[d0.next(o, a)] as int);
            }
            assert(self.wf());
            let f = Seq::new(n as nat, |x: int| if reach@[x] { new_of@[x] as int } else { -1 });
            assert forall|x: int, a: int|
                d0.valid_state(x) && 0 <= f[x] && 0 <= a < d0.alphabet().len() implies 0 <= f[#[trigger] d0.next(x, a)]
                    && f[d0.next(x, a)] == self.next(f[x], a) by {
                d0.lemma_reachable_succ(x, a);
                assert(d0.valid_state(d0.next(x, a)));
                assert(reach@[x]);
                let j = new_of@[x] as int;
                assert(old_of@[j] as int == x);
                assert(self.next(j, a) == new_of@[d0.next(old_of@[j] as int, a)] as int);
            }
            assert forall|x: int| d0.valid_state(x) && 0 <= #[trigger] f[x] implies self.valid_state(f[x])
                && d0.is_final(x) == self.is_final(f[x]) by {
                assert(reach@[x]);
                let j = new_of@[x] as int;
                assert(old_of@[j] as int == x);
            }
            assert(is_morphism(&d0, self, f));
            assert forall|x: int, y: int| d0.valid_state(x) && d0.valid_state(y) && 0 <= f[x] && x != y implies #[trigger] f[x] != #[trigger] f[y] by {
                if 0 <= f[y] && f[x] == f[y] {
                    assert(old_of@[new_of@[x] as int] as int == x);
                    assert(old_of@[new_of@[y] as int] as int == y);
                }
            }
            assert forall|x: int| d0.valid_state(x) && 0 <= f[x] implies #[trigger] self.name(f[x]) == d0.name(x)
                && self.is_trapped(f[x]) == d0.is_trapped(x) by {
                let j = new_of@[x] as int;
                assert(old_of@[j] as int == x);
                assert(self.name(j) == states@[j]@);
            }
            assert forall|x: int| d0.valid_state(x) implies (0 <= #[trigger] f[x] <==> d0.reachable(x)) by {}
            lemma_morphism_accepts(&d0, self, f);
            assert forall|j: int| self.valid_state(j) implies #[trigger] self.reachable(j) by {
                let o = old_of@[j] as int;
                assert(d0.reachable(o));
                let w = choose|w: Seq<char>| #[trigger] d0.in_alphabet(w) && d0.run(d0.start(), w) == o;
                lemma_morphism_run(&d0, self, f, d0.start(), w);
                assert(f[o] == j);
                assert(self.in_alphabet(w) && self.run(self.start(), w) == j);
            }
            if d0.trapped_ok() {
                assert forall|j: int| self.valid_state(j) implies (#[trigger] self.is_trapped(j) <==> !self.live(j)) by {
                    let o = old_of@[j] as int;
                    assert(f[o] == j);
                    lemma_morphism_live(&d0, self, f, o);
                }
            }
            if d0.names_distinct() {
                assert forall|x: int, y: int| self.valid_state(x) && self.valid_state(y) && x != y implies #[trigger] self.name(x)
                    != #[trigger] self.name(y) by {
                    let ox = old_of@[x] as int;
                    let oy = old_of@[y] as int;
                    assert(self.name(x) == d0.name(ox));
                    assert(self.name(y) == d0.name(oy));
                    if ox == oy {
                        assert(new_of@[ox] as int == x);
                    }
                }
            }
            if d0.is_minimal() {
                assert forall|x: int, y: int| self.valid_state(x) && self.valid_state(y) && x != y implies #[trigger] self.distinguishable(x, y) by {
                    let ox = old_of@[x] as int;
                    let oy = old_of@[y] as int;
                    assert(f[ox] == x && f[oy] == y);
                    assert(d0.distinguishable(ox, oy));
                    minimize::lemma_morphism_distinguish(&d0, self, f, ox, oy);
                }
                assert(old_of@.no_duplicates()) by {
                    assert forall|a: int, b: int| 0 <= a < old_of@.len() && 0 <= b < old_of@.len() && a != b implies old_of@[a] != old_of@[b] by {
                        if a < b { assert(old_of@[a] < old_of@[b]); } else { assert(old_of@[b] < old_of@[a]); }
                    }
                }
                assert forall|x: usize| (x as int) < n implies old_of@.contains(x) by {
                    assert(d0.reachable(x as int));
                    assert(old_of@[new_of@[x as int] as int] == x);
                }
                lemma_perm_len(old_of@, n as nat);
                assert forall|x: int| d0.valid_state(x) implies 0 <= #[trigger] f[x] by {
                    assert(d0.reachable(x));
                }
                assert(is_isomorphism(&d0, self, f));
            }
        }
    }

}

/// A copy of a list of plain values.
pub(crate) fn copy_vec<T: Copy>(v: &Vec<T>) -> (r: Vec<T>)
    ensures
        r@ == v@,
{
    let mut r: Vec<T> = Vec::new();
    let mut i: usize = 0;
    while i < v.len()
        invariant
            i <= v@.len(),
            r@ == v@.subrange(0, i as int),
        decreases v@.len() - i,
    {
        r.push(v[i]);
        i = i + 1;
        assert(r@ =~= v@.subrange(0, i as int));
    }
    assert(v@.subrange(0, i as int) =~= v@);
    r
}

impl DFA {
    /// An independent copy of the automaton, cursor included.
    pub fn duplicate(&self) -> (r: DFA)
        requires
            self.wf(),
        ensures
            r.wf(),
            r.same_automaton(self),
            r.cursor() == self.cursor(),
            self.trapped_ok() ==> r.trapped_ok(),
            self.names_distinct() ==> r.names_distinct(),
    {
        let mut states: Vec<State> = Vec::new();
        let mut table: Vec<Vec<usize>> = Vec::new();
        let mut i: usize = 0;
        while i < self.states.len()
            invariant
                self.wf(),
                i <= self.num_states(),
                states@.len() == i,
                table@.len() == i,
                forall|j: int| 0 <= j < i ==> (#[trigger] states@[j])@ == self.states@[j]@,
                forall|j: int| 0 <= j < i ==> (#[trigger] table@[j])@ == self.transition_table@[j]@,
            decreases self.num_states() - i,
        {
            states.push(self.states[i].duplicate());
            table.push(copy_vec(&self.transition_table[i]));
            i = i + 1;
        }
        let r = DFA {
            states,
            alphabets: copy_vec(&self.alphabets),
            transition_table: table,
            start_state: self.start_state,
            current_state: self.current_state,
            final_states: copy_vec(&self.final_states),
            trapped_states: copy_vec(&self.trapped_states),
        };
        proof {
            assert(r.layout_ok());
            assert forall|s: int, a: int| r.valid_state(s) && 0 <= a < r.alphabet().len() implies #[trigger] r.next(s, a) == self.next(s, a) by {}
            assert forall|s: int, a: int| r.valid_state(s) && 0 <= a < r.alphabet().len() implies r.valid_state(#[trigger] r.next(s, a)) by {
                assert(r.next(s, a) == self.next(s, a));
            }
            assert forall|s: int| r.valid_state(s) implies #[trigger] r.name(s) == self.name(s) by {}
            assert(r.same_transitions(self));
            if self.trapped_ok() {
                assert forall|s: int| r.valid_state(s) implies (#[trigger] r.is_trapped(s) <==> !r.live(s)) by {
                    r.lemma_same_live(self, s);
                    assert(r.is_trapped(s) == self.is_trapped(s));
                    assert(self.is_trapped(s) <==> !self.live(s));
                }
            }
        }
        r
    }
}

impl DFA {
    /// Swaps accepting and non-accepting states, then recomputes the trapped
    /// states. On a total automaton this accepts exactly the words over the
    /// alphabet that were rejected.
    pub fn complement(&mut self)
        requires
            old(self).wf(),
        ensures
            final(self).wf(),
            final(self).trapped_ok(),
            final(self).num_states() == old(self).num_states(),
            final(self).alphabet() == old(self).alphabet(),
            final(self).start() == old(self).start(),
            final(self).cursor() == old(self).cursor(),
            forall|s: int| old(self).valid_state(s) ==> #[trigger] final(self).name(s) == old(self).name(s),
            forall|s: int| old(self).valid_state(s) ==> #[trigger] final(self).is_final(s) == !old(self).is_final(s),
            forall|s: int, a: int| old(self).valid_state(s) && 0 <= a < old(self).alphabet().len() ==> #[trigger] final(self).next(s, a) == old(self).next(s, a),
            old(self).names_distinct() ==> final(self).names_distinct(),
            forall|w: Seq<char>| #[trigger] final(self).accepts_word(w) == (old(self).in_alphabet(w) && !old(self).accepts_word(w)),
    {
        let ghost d0 = *self;
        let n = self.states.len();
        let mut finals: Vec<bool> = Vec::new();
        let mut s: usize = 0;
        while s < n
            invariant
                self.wf(),
                n == self.num_states(),
                s <= n,
                finals@.len() == s,
                forall|q: int| 0 <= q < s ==> #[trigger] finals@[q] == !self.is_final(q),
            decreases n - s,
        {
            finals.push(!self.final_states[s]);
            s = s + 1;
        }
        self.final_states = finals;
        proof {
            self.lemma_wf_from_layout(&d0);
        }
        let ghost d1 = *self;
        self.update_trapped_states();
        proof {
            assert forall|w: Seq<char>| #[trigger] self.accepts_word(w) == (d0.in_alphabet(w) && !d0.accepts_word(w)) by {
                if d0.in_alphabet(w) {
                    self.lemma_same_run(&d1, d1.start(), w);
                    d1.lemma_same_run(&d0, d0.start(), w);
                    d0.lemma_run_valid(d0.start(), w);
                }
            }
        }
    }

    /// Well-formedness carries over to a copy that differs in acceptance only.
    proof fn lemma_wf_from_layout(&self, d0: &DFA)
        requires
            d0.wf(),
            self.layout_ok(),
            self.states == d0.states,
            self.alphabets == d0.alphabets,
            self.transition_table == d0.transition_table,
            self.start_state == d0.start_state,
            self.current_state == d0.current_state,
        ensures
            self.wf(),
            self.same_transitions_but_final(d0),
    {
        assert forall|s: int, a: int|
            self.valid_state(s) && 0 <= a < self.alphabet().len() implies self.valid_state(
            #[trigger] self.next(s, a),
        ) by {
            assert(self.next(s, a) == d0.next(s, a));
        }
    }

    /// `self` and `o` agree on everything but acceptance and trapped states.
    pub open spec fn same_transitions_but_final(&self, o: &DFA) -> bool {
        &&& self.same_moves(o)
        &&& self.start() == o.start()
        &&& self.cursor() == o.cursor()
        &&& forall|s: int| self.valid_state(s) ==> #[trigger] self.name(s) == o.name(s)
    }

    /// A complemented copy of the automaton; `self` is left as it is.
    pub fn get_complement(&self) -> (r: Self)
        requires
            self.wf(),
        ensures
            r.wf(),
            r.trapped_ok(),
            r.alphabet() == self.alphabet(),
            forall|w: Seq<char>| #[trigger] r.accepts_word(w) == (self.in_alphabet(w) && !self.accepts_word(w)),
    {
        let mut d = self.duplicate();
        let ghost d0 = d;
        d.complement();
        proof {
            assert forall|w: Seq<char>| #[trigger] d.accepts_word(w) == (self.in_alphabet(w) && !self.accepts_word(w)) by {
                assert(d.accepts_word(w) == (d0.in_alphabet(w) && !d0.accepts_word(w)));
                d0.lemma_same_accepts(self);
                assert(d0.in_alphabet(w) == self.in_alphabet(w));
            }
        }
        d
    }

    /// A minimized copy of the automaton; `self` is left as it is.
    pub fn get_minimized(&self) -> (r: Self)
        requires
            self.wf(),
        ensures
            r.wf(),
            r.is_minimal(),
            r.canonical(),
            r.names_distinct(),
            r.trapped_ok(),
            r.alphabet() == self.alphabet(),
            forall|w: Seq<char>| #[trigger] r.accepts_word(w) == self.accepts_word(w),
    {
        let mut d = self.duplicate();
        let ghost d0 = d;
        proof {
            d0.lemma_same_accepts(self);
        }
        d.minimize();
        d
    }
}

/// Complementing twice gives back the language: an automaton obtained by
/// complementing the complement of `a` accepts exactly the words `a` accepts.
pub proof fn lemma_complement_involution(a: &DFA, b: &DFA, c: &DFA)
    requires
        b.alphabet() == a.alphabet(),
        forall|w: Seq<char>| #[trigger] b.accepts_word(w) == (a.in_alphabet(w) && !a.accepts_word(w)),
        forall|w: Seq<char>| #[trigger] c.accepts_word(w) == (b.in_alphabet(w) && !b.accepts_word(w)),
    ensures
        forall|w: Seq<char>| #[trigger] c.accepts_word(w) == a.accepts_word(w),
{
    assert forall|w: Seq<char>| #[trigger] c.accepts_word(w) == a.accepts_word(w) by {
        assert(b.accepts_word(w) == (a.in_alphabet(w) && !a.accepts_word(w)));
        assert(b.in_alphabet(w) == a.in_alphabet(w));
    }
}

/// Once a run is in a trapped state, no continuation reaches an accepting
/// state.
pub proof fn lemma_trapped_sound(d: &DFA, s: int, w: Seq<char>, v: Seq<char>)
    requires
        d.wf(),
        d.trapped_ok(),
        d.valid_state(s),
        d.in_alphabet(w),
        d.in_alphabet(v),
        d.is_trapped(d.run(s, w)),
    ensures
        !d.is_final(d.run(s, w + v)),
{
    d.lemma_run_valid(s, w);
    d.lemma_run_concat(s, w, v);
    if d.is_final(d.run(s, w + v)) {
        assert(d.live(d.run(s, w)));
    }
}

impl DFA {
    /// Assembles an automaton from its parts; the trapped states are left
    /// for `update_trapped_states` to compute.
    pub(crate) fn from_parts(
        states: Vec<State>,
        alphabets: Vec<char>,
        transition_table: Vec<Vec<usize>>,
        start: usize,
        final_states: Vec<bool>,
    ) -> (r: DFA)
        requires
            alphabets@.no_duplicates(),
            transition_table@.len() == states@.len(),
            forall|s: int| 0 <= s < states@.len() ==> (#[trigger] transition_table@[s])@.len() == alphabets@.len(),
            forall|s: int, a: int| 0 <= s < states@.len() && 0 <= a < alphabets@.len() ==> (#[trigger] transition_table@[s]@[a] as int) < states@.len(),
            (start as int) < states@.len(),
            final_states@.len() == states@.len(),
        ensures
            r.wf(),
            r.num_states() == states@.len(),
            r.alphabet() == alphabets@,
            r.start() == start,
            r.cursor() == start,
            forall|s: int| 0 <= s < states@.len() ==> #[trigger] r.name(s) == states@[s]@,
            forall|s: int| 0 <= s < states@.len() ==> #[trigger] r.is_final(s) == final_states@[s],
            forall|s: int, a: int| 0 <= s < states@.len() && 0 <= a < alphabets@.len() ==> #[trigger] r.next(s, a) == transition_table@[s]@[a] as int,
    {
        let n = states.len();
        let mut trapped: Vec<bool> = Vec::new();
        let mut i: usize = 0;
        while i < n
            invariant
                i <= n,
                trapped@.len() == i,
            decreases n - i,
        {
            trapped.push(false);
            i = i + 1;
        }
        let r = DFA {
            states,
            alphabets,
            transition_table,
            start_state: start,
            current_state: start,
            final_states,
            trapped_states: trapped,
        };
        proof {
            assert(r.layout_ok());
            assert forall|s: int, a: int| r.valid_state(s) && 0 <= a < r.alphabet().len() implies r.valid_state(#[trigger] r.next(s, a)) by {}
        }
        r
    }
}

impl DFA {
    /// Builds and validates an automaton as `new_unoptimized` does; when
    /// `AUTO_OPTIMIZE` holds, it is then minimized. The errors are those of
    /// `new_unoptimized`, and the language is that of the lists.
    pub fn new(
        states: Vec<State>,
        alphabets: Vec<char>,
        transition_table: Vec<((State, char), State)>,
        start_state: State,
        final_states: Vec<State>,
    ) -> (r: Result<Self, CustomError>)
        ensures
            ({
                let st = names_of(states@).to_set();
                let al = alphabets@.to_set();
                let t = entries_of(transition_table@);
                let fi = names_of(final_states@).to_set();
                match r {
                    Ok(d) => valid_lists(st, al, t, start_state@, fi) && d.wf() && d.trapped_ok()
                        && d.names_distinct() && d.cursor() == d.start() && d.alphabet().to_set() == al
                        && (exists|raw: DFA| #[trigger] raw.models(st, al, t, start_state@, fi) && raw.wf()
                            && forall|w: Seq<char>| #[trigger] d.accepts_word(w) == raw.accepts_word(w))
                        && (AUTO_OPTIMIZE ==> d.is_minimal() && d.canonical()),
                    Err(e) => !valid_lists(st, al, t, start_state@, fi) && (e
                        == CustomError::InvalidDFAKeys <==> !keys_exact(st, al, t)) && (e
                        == CustomError::NoDFAStartState <==> keys_exact(st, al, t) && !st.contains(
                        start_state@,
                    )) && (e == CustomError::InvalidDFAFinalStates <==> keys_exact(st, al, t)
                        && st.contains(start_state@) && !fi.subset_of(st)),
                }
            }),
    {
        let ghost st = names_of(states@).to_set();
        let ghost al = alphabets@.to_set();
        let ghost t = entries_of(transition_table@);
        let ghost fi = names_of(final_states@).to_set();
        let ghost start_v = start_state@;
        let mut d = match Self::new_unoptimized(states, alphabets, transition_table, start_state, final_states) {
            Ok(d) => d,
            Err(e) => {
                return Err(e);
            },
        };
        let ghost raw = d;
        if AUTO_OPTIMIZE {
            d.minimize();
        }
        proof {
            assert(raw.models(st, al, t, start_v, fi));
        }
        Ok(d)
    }
}

/// In a sequence without duplicates, `index_of` finds the one position.
pub proof fn lemma_index_of_unique<A>(s: Seq<A>, i: int)
    requires
        s.no_duplicates(),
        0 <= i < s.len(),
    ensures
        s.index_of(s[i]) == i,
        s.contains(s[i]),
{
    assert(s.contains(s[i]));
    let j = s.index_of(s[i]);
    assert(0 <= j < s.len() && s[j] == s[i]);
}

/// The symbol number of an alphabet member lies in range.
pub proof fn lemma_index_of_contained<A>(s: Seq<A>, c: A)
    requires
        s.contains(c),
    ensures
        0 <= s.index_of(c) < s.len(),
        s[s.index_of(c)] == c,
{
}

} // verus!
