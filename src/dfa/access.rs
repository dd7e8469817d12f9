use vstd::prelude::*;

use super::{copy_vec, DFA};
use crate::input::{entries_of, names_of, Name};
use crate::utils::State;

verus! {

impl DFA {
    /// The state identities, in state order.
    pub fn get_states(&self) -> (r: Vec<State>)
        requires
            self.wf(),
        ensures
            r@.len() == self.num_states(),
            forall|s: int| self.valid_state(s) ==> (#[trigger] r@[s])@ == self.name(s),
    {
        let mut r: Vec<State> = Vec::new();
        let mut i: usize = 0;
        while i < self.states.len()
            invariant
                self.wf(),
                i <= self.num_states(),
                r@.len() == i,
                forall|s: int| 0 <= s < i ==> (#[trigger] r@[s])@ == self.name(s),
            decreases self.num_states() - i,
        {
            r.push(self.states[i].duplicate());
            i = i + 1;
        }
        r
    }

    /// The alphabet, in symbol order.
    pub fn get_alphabets(&self) -> (r: Vec<char>)
        ensures
            r@ == self.alphabet(),
    {
        copy_vec(&self.alphabets)
    }

    /// The identity of the start state.
    pub fn get_start_state(&self) -> (r: State)
        requires
            self.wf(),
        ensures
            r@ == self.name(self.start()),
    {
        self.states[self.start_state].duplicate()
    }

    /// The identity of the state under the cursor.
    pub fn get_current_state(&self) -> (r: State)
        requires
            self.wf(),
        ensures
            r@ == self.name(self.cursor()),
    {
        self.states[self.current_state].duplicate()
    }

    /// The identities of the first `i` states whose flag is set, in order.
    pub open spec fn names_where(&self, flags: Seq<bool>, i: int) -> Seq<Name>
        decreases i,
    {
        if i <= 0 {
            Seq::empty()
        } else {
            self.names_where(flags, i - 1) + if flags[i - 1] {
                seq![self.name(i - 1)]
            } else {
                Seq::empty()
            }
        }
    }

    /// The transition entries of state `s` for its first `a` symbols.
    pub open spec fn row_entries(&self, s: int, a: int) -> Seq<((Name, char), Name)>
        decreases a,
    {
        if a <= 0 {
            Seq::empty()
        } else {
            self.row_entries(s, a - 1).push(((self.name(s), self.alphabet()[a - 1]), self.name(self.next(s, a - 1))))
        }
    }

    /// The transition entries of the first `i` states, state by state.
    pub open spec fn table_entries(&self, i: int) -> Seq<((Name, char), Name)>
        decreases i,
    {
        if i <= 0 {
            Seq::empty()
        } else {
            self.table_entries(i - 1) + self.row_entries(i - 1, self.alphabet().len() as int)
        }
    }

    /// The identities of the states whose flag in `flags` is set, in state order.
    fn flagged(&self, flags: &Vec<bool>) -> (r: Vec<State>)
        requires
            self.wf(),
            flags@.len() == self.num_states(),
        ensures
            names_of(r@) == self.names_where(flags@, self.num_states()),
    {
        let mut r: Vec<State> = Vec::new();
        let mut i: usize = 0;
        while i < self.states.len()
            invariant
                self.wf(),
                flags@.len() == self.num_states(),
                i <= self.num_states(),
                names_of(r@) == self.names_where(flags@, i as int),
            decreases self.num_states() - i,
        {
            if flags[i] {
                r.push(self.states[i].duplicate());
            }
            proof {
                assert(names_of(r@) =~= self.names_where(flags@, i + 1));
            }
            i = i + 1;
        }
        r
    }

    /// The identities of the accepting states, in state order.
    pub fn get_final_states(&self) -> (r: Vec<State>)
        requires
            self.wf(),
        ensures
            names_of(r@) == self.names_where(Seq::new(self.num_states() as nat, |s: int| self.is_final(s)), self.num_states()),
    {
        proof {
            assert(self.final_states@ =~= Seq::new(self.num_states() as nat, |s: int| self.is_final(s)));
        }
        self.flagged(&self.final_states)
    }

    /// The identities of the trapped states, in state order.
    pub fn get_trapped_states(&self) -> (r: Vec<State>)
        requires
            self.wf(),
        ensures
            names_of(r@) == self.names_where(Seq::new(self.num_states() as nat, |s: int| self.is_trapped(s)), self.num_states()),
    {
        proof {
            assert(self.trapped_states@ =~= Seq::new(self.num_states() as nat, |s: int| self.is_trapped(s)));
        }
        self.flagged(&self.trapped_states)
    }

    /// The transitions as ((from, symbol), to) entries, state by state and
    /// symbol by symbol.
    pub fn get_transition_table(&self) -> (r: Vec<((State, char), State)>)
        requires
            self.wf(),
        ensures
            entries_of(r@) == self.table_entries(self.num_states()),
    {
        let mut r: Vec<((State, char), State)> = Vec::new();
        let mut i: usize = 0;
        while i < self.states.len()
            invariant
                self.wf(),
                i <= self.num_states(),
                entries_of(r@) == self.table_entries(i as int),
            decreases self.num_states() - i,
        {
            let ghost before = entries_of(r@);
            let mut a: usize = 0;
            while a < self.alphabets.len()
                invariant
                    self.wf(),
                    i < self.num_states(),
                    a <= self.alphabet().len(),
                    entries_of(r@) == before + self.row_entries(i as int, a as int),
                decreases self.alphabet().len() - a,
            {
                let t = self.transition_table[i][a];
                proof {
                    assert(t == self.next(i as int, a as int));
                    assert(self.valid_state(self.next(i as int, a as int)));
                }
                let ghost rb = r@;
                let e = ((self.states[i].duplicate(), self.alphabets[a]), self.states[t].duplicate());
                r.push(e);
                proof {
                    let x = ((self.name(i as int), self.alphabet()[a as int]), self.name(self.next(i as int, a as int)));
                    assert(entries_of(r@) =~= entries_of(rb).push(x)) by {
                        assert(entries_of(r@)[rb.len() as int] == x);
                    }
                    assert(self.row_entries(i as int, a + 1) == self.row_entries(i as int, a as int).push(x));
                    assert(entries_of(r@) =~= before + self.row_entries(i as int, a + 1));
                }
                a = a + 1;
            }
            proof {
                assert(entries_of(r@) =~= self.table_entries(i + 1));
            }
            i = i + 1;
        }
        r
    }
}

impl DFA {
    /// The number of states.
    pub(crate) fn state_count(&self) -> (r: usize)
        ensures
            r == self.num_states(),
    {
        self.states.len()
    }

    /// The position of the start state.
    pub(crate) fn start_index(&self) -> (r: usize)
        ensures
            r == self.start(),
    {
        self.start_state
    }

    /// Whether state `s` accepts.
    pub(crate) fn accepting(&self, s: usize) -> (r: bool)
        requires
            self.wf(),
            self.valid_state(s as int),
        ensures
            r == self.is_final(s as int),
    {
        self.final_states[s]
    }

    /// The state that state `s` moves to on the symbol at position `a`.
    pub(crate) fn next_index(&self, s: usize, a: usize) -> (r: usize)
        requires
            self.wf(),
            self.valid_state(s as int),
            a < self.alphabet().len(),
        ensures
            r == self.next(s as int, a as int),
    {
        self.transition_table[s][a]
    }
}

} // verus!
