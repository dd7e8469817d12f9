use vstd::prelude::*;

use super::{copy_vec, lemma_index_of_contained, lemma_index_of_unique, DFA};
use crate::table::position_of;
use crate::utils::State;

verus! {

impl DFA {
    /// Adds a state with the identity `state` when no state has it yet. The
    /// new state does not accept and moves to itself on every symbol, so the
    /// transition function stays total.
    pub fn add_state(&mut self, state: State)
        requires
            old(self).wf(),
        ensures
            final(self).wf(),
            old(self).trapped_ok() ==> final(self).trapped_ok(),
            (exists|s: int| old(self).valid_state(s) && old(self).name(s) == state@) ==> final(self).same_automaton(old(self))
                && final(self).cursor() == old(self).cursor(),
            !(exists|s: int| old(self).valid_state(s) && old(self).name(s) == state@) ==> {
                let n = old(self).num_states();
                &&& final(self).trapped_ok()
                &&& final(self).num_states() == n + 1
                &&& final(self).alphabet() == old(self).alphabet()
                &&& final(self).start() == old(self).start()
                &&& final(self).cursor() == old(self).cursor()
                &&& final(self).name(n) == state@
                &&& !final(self).is_final(n)
                &&& forall|a: int| 0 <= a < old(self).alphabet().len() ==> #[trigger] final(self).next(n, a) == n
                &&& forall|s: int| old(self).valid_state(s) ==> #[trigger] final(self).name(s) == old(self).name(s)
                    && final(self).is_final(s) == old(self).is_final(s)
                &&& forall|s: int, a: int| old(self).valid_state(s) && 0 <= a < old(self).alphabet().len()
                    ==> #[trigger] final(self).next(s, a) == old(self).next(s, a)
            },
    {
        match position_of(&self.states, &state) {
            Some(p) => {
                proof {
                    assert(self.name(p as int) == state@);
                    assert forall|s: int, a: int| self.valid_state(s) && 0 <= a < self.alphabet().len() implies #[trigger] self.next(s, a) == self.next(s, a) by {}
                }
            },
            None => {
                proof {
                    assert(!(exists|s: int| self.valid_state(s) && self.name(s) == state@)) by {
                        if exists|s: int| self.valid_state(s) && self.name(s) == state@ {
                            let s = choose|s: int| self.valid_state(s) && self.name(s) == state@;
                            assert(self.states@[s]@ == state@);
                        }
                    }
                }
                let n = self.states.len();
                let mut row: Vec<usize> = Vec::new();
                let mut a: usize = 0;
                while a < self.alphabets.len()
                    invariant
                        a <= self.alphabets@.len(),
                        row@.len() == a,
                        forall|b: int| 0 <= b < a ==> row@[b] == n,
                    decreases self.alphabets@.len() - a,
                {
                    row.push(n);
                    a = a + 1;
                }
                let ghost d0 = *self;
                self.states.push(state);
                self.transition_table.push(row);
                self.final_states.push(false);
                self.trapped_states.push(true);
                proof {
                    assert(self.layout_ok()) by {
                        assert forall|s: int| 0 <= s < self.states@.len() implies (#[trigger] self.transition_table@[s])@.len() == self.alphabets@.len() by {
                            if s < n {
                                assert(self.transition_table@[s] == d0.transition_table@[s]);
                            }
                        }
                    }
                    assert forall|s: int, b: int| self.valid_state(s) && 0 <= b < self.alphabet().len() implies self.valid_state(#[trigger] self.next(s, b)) by {
                        if s < n {
                            assert(self.transition_table@[s] == d0.transition_table@[s]);
                            assert(d0.valid_state(d0.next(s, b)));
                        }
                    }
                    assert forall|s: int| d0.valid_state(s) implies #[trigger] self.name(s) == d0.name(s) && self.is_final(s) == d0.is_final(s) by {
                        assert(self.states@[s] == d0.states@[s]);
                    }
                    assert forall|s: int, b: int| d0.valid_state(s) && 0 <= b < d0.alphabet().len() implies #[trigger] self.next(s, b) == d0.next(s, b) by {
                        assert(self.transition_table@[s] == d0.transition_table@[s]);
                    }
                    assert(self.name(n as int) == state@);
                    assert(!self.is_final(n as int));
                    assert forall|b: int| 0 <= b < d0.alphabet().len() implies #[trigger] self.next(n as int, b) == n by {}
                }
                let ghost d1 = *self;
                self.update_trapped_states();
                proof {
                    assert(self.name(n as int) == d1.name(n as int));
                    assert(self.is_final(n as int) == d1.is_final(n as int));
                    assert forall|b: int| 0 <= b < d0.alphabet().len() implies #[trigger] self.next(n as int, b) == n by {
                        assert(self.next(n as int, b) == d1.next(n as int, b));
                    }
                    assert forall|s: int| d0.valid_state(s) implies #[trigger] self.name(s) == d0.name(s) && self.is_final(s) == d0.is_final(s) by {
                        assert(self.name(s) == d1.name(s));
                        assert(self.is_final(s) == d1.is_final(s));
                        assert(d1.name(s) == d0.name(s));
                    }
                    assert forall|s: int, b: int| d0.valid_state(s) && 0 <= b < d0.alphabet().len() implies #[trigger] self.next(s, b) == d0.next(s, b) by {
                        assert(self.next(s, b) == d1.next(s, b));
                        assert(d1.next(s, b) == d0.next(s, b));
                    }
                }
            },
        }
    }

    /// Moves the start state to the state with the identity `state`, when
    /// there is one; otherwise nothing changes.
    pub fn set_start_state(&mut self, state: State)
        requires
            old(self).wf(),
        ensures
            final(self).wf(),
            final(self).cursor() == old(self).cursor(),
            final(self).num_states() == old(self).num_states(),
            final(self).alphabet() == old(self).alphabet(),
            forall|s: int| old(self).valid_state(s) ==> #[trigger] final(self).name(s) == old(self).name(s)
                && final(self).is_final(s) == old(self).is_final(s) && final(self).is_trapped(s) == old(self).is_trapped(s),
            forall|s: int, a: int| old(self).valid_state(s) && 0 <= a < old(self).alphabet().len() ==> #[trigger] final(self).next(s, a) == old(self).next(s, a),
            (exists|s: int| old(self).valid_state(s) && old(self).name(s) == state@) ==> final(self).name(final(self).start()) == state@,
            !(exists|s: int| old(self).valid_state(s) && old(self).name(s) == state@) ==> final(self).start() == old(self).start(),
            old(self).trapped_ok() ==> final(self).trapped_ok(),
    {
        let ghost d0 = *self;
        match position_of(&self.states, &state) {
            Some(s) => {
                self.start_state = s;
                assert(self.name(s as int) == state@);
                assert(d0.valid_state(s as int) && d0.name(s as int) == state@);
            },
            None => {
                proof {
                    assert(!(exists|s: int| d0.valid_state(s) && d0.name(s) == state@)) by {
                        if exists|s: int| d0.valid_state(s) && d0.name(s) == state@ {
                            let s = choose|s: int| d0.valid_state(s) && d0.name(s) == state@;
                            assert(d0.states@[s]@ == state@);
                        }
                    }
                }
            },
        }
        proof {
            assert forall|s: int, b: int| self.valid_state(s) && 0 <= b < self.alphabet().len() implies self.valid_state(#[trigger] self.next(s, b)) by {
                assert(d0.valid_state(d0.next(s, b)));
            }
            assert forall|s: int, b: int| self.valid_state(s) && 0 <= b < self.alphabet().len() implies #[trigger] self.next(s, b) == d0.next(s, b) by {}
            assert forall|s: int| d0.valid_state(s) implies #[trigger] self.is_final(s) == d0.is_final(s) by {}
            if d0.trapped_ok() {
                assert forall|s: int| self.valid_state(s) implies (#[trigger] self.is_trapped(s) <==> !self.live(s)) by {
                    self.lemma_same_live(&d0, s);
                    assert(self.is_trapped(s) == d0.is_trapped(s));
                    assert(d0.is_trapped(s) <==> !d0.live(s));
                }
            }
        }
    }

    /// Puts the cursor on the state with the identity `state`, when there is
    /// one; otherwise nothing changes.
    pub fn set_current_state(&mut self, state: State)
        requires
            old(self).wf(),
        ensures
            final(self).wf(),
            final(self).same_automaton(old(self)),
            (exists|s: int| old(self).valid_state(s) && old(self).name(s) == state@) ==> final(self).name(final(self).cursor()) == state@,
            !(exists|s: int| old(self).valid_state(s) && old(self).name(s) == state@) ==> final(self).cursor() == old(self).cursor(),
    {
        let ghost d0 = *self;
        match position_of(&self.states, &state) {
            Some(s) => {
                self.current_state = s;
                assert(self.name(s as int) == state@);
                assert(d0.valid_state(s as int) && d0.name(s as int) == state@);
            },
            None => {
                proof {
                    assert(!(exists|s: int| d0.valid_state(s) && d0.name(s) == state@)) by {
                        if exists|s: int| d0.valid_state(s) && d0.name(s) == state@ {
                            let s = choose|s: int| d0.valid_state(s) && d0.name(s) == state@;
                            assert(d0.states@[s]@ == state@);
                        }
                    }
                }
            },
        }
        proof {
            assert forall|s: int, b: int| self.valid_state(s) && 0 <= b < self.alphabet().len() implies self.valid_state(#[trigger] self.next(s, b)) by {
                assert(d0.valid_state(d0.next(s, b)));
            }
        }
    }

    /// Makes the state with the identity `state` accepting, when there is
    /// one, and recomputes the trapped states.
    pub fn add_final_state(&mut self, state: State)
        requires
            old(self).wf(),
        ensures
            final(self).wf(),
            final(self).trapped_ok(),
            final(self).same_moves(old(self)),
            final(self).start() == old(self).start(),
            final(self).cursor() == old(self).cursor(),
            forall|s: int| old(self).valid_state(s) ==> #[trigger] final(self).name(s) == old(self).name(s),
            forall|s: int| old(self).valid_state(s) && #[trigger] old(self).is_final(s) ==> final(self).is_final(s),
            forall|s: int| old(self).valid_state(s) && #[trigger] final(self).is_final(s) ==> old(self).is_final(s) || old(self).name(s) == state@,
            (exists|s: int| old(self).valid_state(s) && old(self).name(s) == state@) ==> exists|s: int|
                old(self).valid_state(s) && #[trigger] old(self).name(s) == state@ && final(self).is_final(s),
    {
        let ghost d0 = *self;
        let pos = position_of(&self.states, &state);
        match pos {
            Some(s) => {
                self.final_states.set(s, true);
            },
            None => {},
        }
        proof {
            assert forall|s: int, b: int| self.valid_state(s) && 0 <= b < self.alphabet().len() implies self.valid_state(#[trigger] self.next(s, b)) by {
                assert(d0.valid_state(d0.next(s, b)));
            }
            assert forall|s: int, b: int| self.valid_state(s) && 0 <= b < self.alphabet().len() implies #[trigger] self.next(s, b) == d0.next(s, b) by {}
        }
        let ghost d1 = *self;
        self.update_trapped_states();
        proof {
            assert forall|s: int| d0.valid_state(s) implies #[trigger] self.name(s) == d0.name(s) by {
                assert(self.name(s) == d1.name(s));
            }
            assert forall|s: int| d0.valid_state(s) && #[trigger] d0.is_final(s) implies self.is_final(s) by {
                assert(self.is_final(s) == d1.is_final(s));
            }
            assert forall|s: int| d0.valid_state(s) && #[trigger] self.is_final(s) implies d0.is_final(s) || d0.name(s) == state@ by {
                assert(self.is_final(s) == d1.is_final(s));
            }
            if exists|s: int| d0.valid_state(s) && d0.name(s) == state@ {
                let s = choose|s: int| d0.valid_state(s) && d0.name(s) == state@;
                assert(d0.states@[s]@ == state@);
                match pos {
                    Some(p) => {
                        assert(d1.is_final(p as int));
                        assert(self.is_final(p as int) == d1.is_final(p as int));
                        assert(d0.name(p as int) == state@);
                    },
                    None => {},
                }
            }
            assert forall|s: int, b: int| self.valid_state(s) && 0 <= b < self.alphabet().len() implies #[trigger] self.next(s, b) == d0.next(s, b) by {
                assert(self.next(s, b) == d1.next(s, b));
            }
        }
    }
}

impl DFA {
    /// Adds the symbol `alphabet` when it is not in the alphabet yet; every
    /// state moves to itself on it, so the transition function stays total.
    pub fn add_alphabet(&mut self, alphabet: char)
        requires
            old(self).wf(),
        ensures
            final(self).wf(),
            old(self).trapped_ok() ==> final(self).trapped_ok(),
            old(self).alphabet().contains(alphabet) ==> final(self).same_automaton(old(self)) && final(self).cursor() == old(self).cursor(),
            !old(self).alphabet().contains(alphabet) ==> {
                let k = old(self).alphabet().len() as int;
                &&& final(self).trapped_ok()
                &&& final(self).alphabet() == old(self).alphabet().push(alphabet)
                &&& final(self).num_states() == old(self).num_states()
                &&& final(self).start() == old(self).start()
                &&& final(self).cursor() == old(self).cursor()
                &&& forall|s: int| old(self).valid_state(s) ==> #[trigger] final(self).name(s) == old(self).name(s)
                    && final(self).is_final(s) == old(self).is_final(s)
                &&& forall|s: int, a: int| old(self).valid_state(s) && 0 <= a < k ==> #[trigger] final(self).next(s, a) == old(self).next(s, a)
                &&& forall|s: int| old(self).valid_state(s) ==> #[trigger] final(self).next(s, k) == s
            },
    {
        if self.symbol_index(alphabet).is_some() {
            proof {
                assert forall|s: int, a: int| self.valid_state(s) && 0 <= a < self.alphabet().len() implies #[trigger] self.next(s, a) == self.next(s, a) by {}
            }
            return;
        }
        let ghost d0 = *self;
        let n = self.states.len();
        let mut table: Vec<Vec<usize>> = Vec::new();
        let mut s: usize = 0;
        while s < n
            invariant
                self.wf(),
                *self == d0,
                n == self.num_states(),
                s <= n,
                table@.len() == s,
                forall|q: int| 0 <= q < s ==> (#[trigger] table@[q])@ == self.transition_table@[q]@.push(q as usize),
            decreases n - s,
        {
            let mut row = copy_vec(&self.transition_table[s]);
            row.push(s);
            table.push(row);
            s = s + 1;
        }
        self.transition_table = table;
        self.alphabets.push(alphabet);
        proof {
            let k = d0.alphabet().len() as int;
            assert(self.alphabet() == d0.alphabet().push(alphabet));
            assert(self.alphabet().no_duplicates()) by {
                assert forall|i: int, j: int| 0 <= i < self.alphabet().len() && 0 <= j < self.alphabet().len() && i != j implies self.alphabet()[i] != self.alphabet()[j] by {
                    if i == k {
                        assert(!d0.alphabet().contains(alphabet));
                        assert(d0.alphabet()[j] != alphabet);
                    } else if j == k {
                        assert(d0.alphabet()[i] != alphabet);
                    }
                }
            }
            assert(self.layout_ok()) by {
                assert forall|q: int| 0 <= q < self.states@.len() implies (#[trigger] self.transition_table@[q])@.len() == self.alphabets@.len() by {
                    assert(d0.transition_table@[q]@.len() == k);
                }
            }
            assert forall|q: int, a: int| self.valid_state(q) && 0 <= a < self.alphabet().len() implies self.valid_state(#[trigger] self.next(q, a)) by {
                assert(d0.transition_table@[q]@.len() == k);
                if a < k {
                    assert(self.next(q, a) == d0.next(q, a));
                    assert(d0.valid_state(d0.next(q, a)));
                }
            }
            assert forall|q: int, a: int| d0.valid_state(q) && 0 <= a < k implies #[trigger] self.next(q, a) == d0.next(q, a) by {
                assert(d0.transition_table@[q]@.len() == k);
            }
            assert forall|q: int| d0.valid_state(q) implies #[trigger] self.next(q, k) == q by {
                assert(d0.transition_table@[q]@.len() == k);
            }
        }
        let ghost d1 = *self;
        self.update_trapped_states();
        proof {
            let k = d0.alphabet().len() as int;
            assert forall|q: int| d0.valid_state(q) implies #[trigger] self.name(q) == d0.name(q) && self.is_final(q) == d0.is_final(q) by {
                assert(self.name(q) == d1.name(q));
                assert(self.is_final(q) == d1.is_final(q));
            }
            assert forall|q: int, a: int| d0.valid_state(q) && 0 <= a < k implies #[trigger] self.next(q, a) == d0.next(q, a) by {
                assert(self.next(q, a) == d1.next(q, a));
                assert(d1.next(q, a) == d0.next(q, a));
            }
            assert forall|q: int| d0.valid_state(q) implies #[trigger] self.next(q, k) == q by {
                assert(self.next(q, k) == d1.next(q, k));
                assert(d1.next(q, k) == q);
            }
        }
    }

    /// Sets the transition from the state named `from` on `alphabet` to the
    /// state named `to`, when both states and the symbol exist, and
    /// recomputes the trapped states; otherwise nothing changes.
    pub fn add_transition(&mut self, from: State, to: State, alphabet: char)
        requires
            old(self).wf(),
        ensures
            final(self).wf(),
            final(self).num_states() == old(self).num_states(),
            final(self).alphabet() == old(self).alphabet(),
            final(self).start() == old(self).start(),
            final(self).cursor() == old(self).cursor(),
            old(self).trapped_ok() ==> final(self).trapped_ok(),
            forall|s: int| old(self).valid_state(s) ==> #[trigger] final(self).name(s) == old(self).name(s)
                && final(self).is_final(s) == old(self).is_final(s),
            forall|s: int, a: int| old(self).valid_state(s) && 0 <= a < old(self).alphabet().len() ==> #[trigger] final(self).next(s, a)
                == old(self).next(s, a) || (old(self).name(s) == from@ && old(self).alphabet()[a] == alphabet
                && old(self).name(final(self).next(s, a)) == to@),
            (exists|s: int| old(self).valid_state(s) && old(self).name(s) == from@) && (exists|t: int| old(self).valid_state(t)
                && old(self).name(t) == to@) && old(self).alphabet().contains(alphabet) ==> exists|s: int| old(self).valid_state(s)
                && old(self).name(s) == from@ && #[trigger] old(self).name(final(self).delta(s, alphabet)) == to@,
    {
        let ghost d0 = *self;
        let f = position_of(&self.states, &from);
        let t = position_of(&self.states, &to);
        let a = self.symbol_index(alphabet);
        match (f, t, a) {
            (Some(f), Some(t), Some(a)) => {
                let mut row = copy_vec(&self.transition_table[f]);
                row.set(a, t);
                self.transition_table.set(f, row);
                proof {
                    lemma_index_of_unique(d0.alphabet(), a as int);
                    assert(self.layout_ok()) by {
                        assert forall|q: int| 0 <= q < self.states@.len() implies (#[trigger] self.transition_table@[q])@.len() == self.alphabets@.len() by {
                            if q != f {
                                assert(self.transition_table@[q] == d0.transition_table@[q]);
                            }
                        }
                    }
                    assert forall|q: int, b: int| self.valid_state(q) && 0 <= b < self.alphabet().len() implies self.valid_state(#[trigger] self.next(q, b)) by {
                        if q != f || b != a {
                            assert(self.next(q, b) == d0.next(q, b));
                            assert(d0.valid_state(d0.next(q, b)));
                        }
                    }
                    assert forall|q: int, b: int| d0.valid_state(q) && 0 <= b < d0.alphabet().len() implies #[trigger] self.next(q, b)
                        == d0.next(q, b) || (d0.name(q) == from@ && d0.alphabet()[b] == alphabet && d0.name(self.next(q, b)) == to@) by {
                        if q != f || b != a {
                            assert(self.next(q, b) == d0.next(q, b));
                        }
                    }
                    assert(d0.name(self.delta(f as int, alphabet)) == to@);
                }
            },
            _ => {
                proof {
                    assert forall|q: int, b: int| self.valid_state(q) && 0 <= b < self.alphabet().len() implies #[trigger] self.next(q, b) == d0.next(q, b) by {}
                    if (exists|s: int| d0.valid_state(s) && d0.name(s) == from@) && (exists|u: int| d0.valid_state(u) && d0.name(u) == to@) && d0.alphabet().contains(alphabet) {
                        let s = choose|s: int| d0.valid_state(s) && d0.name(s) == from@;
                        let u = choose|u: int| d0.valid_state(u) && d0.name(u) == to@;
                        assert(d0.states@[s]@ == from@);
                        assert(d0.states@[u]@ == to@);
                        assert(false);
                    }
                }
                return;
            },
        }
        let ghost d1 = *self;
        self.update_trapped_states();
        proof {
            assert forall|q: int| d0.valid_state(q) implies #[trigger] self.name(q) == d0.name(q) && self.is_final(q) == d0.is_final(q) by {
                assert(self.name(q) == d1.name(q));
                assert(self.is_final(q) == d1.is_final(q));
            }
            assert forall|q: int, b: int| d0.valid_state(q) && 0 <= b < d0.alphabet().len() implies #[trigger] self.next(q, b)
                == d0.next(q, b) || (d0.name(q) == from@ && d0.alphabet()[b] == alphabet && d0.name(self.next(q, b)) == to@) by {
                assert(self.next(q, b) == d1.next(q, b));
            }
            let fq = f.unwrap() as int;
            lemma_index_of_contained(d0.alphabet(), alphabet);
            assert(self.delta(fq, alphabet) == d1.delta(fq, alphabet));
        }
    }
}

} // verus!
