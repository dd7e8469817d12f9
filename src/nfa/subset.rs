use vstd::prelude::*;

use super::EpsilonNFA;
use crate::constants::AUTO_OPTIMIZE;
use crate::dfa::{copy_vec, lemma_index_of_contained, DFA};
use crate::utils::State;

verus! {

/// 2 to the power `n`.
pub open spec fn pow2(n: nat) -> nat
    decreases n,
{
    if n == 0 {
        1
    } else {
        2 * pow2((n - 1) as nat)
    }
}

/// A list of flags read as a binary number, first flag lowest.
pub open spec fn encode(v: Seq<bool>) -> nat
    decreases v.len(),
{
    if v.len() == 0 {
        0
    } else {
        2 * encode(v.drop_first()) + if v[0] {
            1nat
        } else {
            0nat
        }
    }
}

/// The number lies below 2 to the length, and equal-length lists with the
/// same number are equal.
pub proof fn lemma_encode(v: Seq<bool>, w: Seq<bool>)
    requires
        v.len() == w.len(),
    ensures
        encode(v) < pow2(v.len()),
        encode(v) == encode(w) ==> v == w,
    decreases v.len(),
{
    if v.len() > 0 {
        lemma_encode(v.drop_first(), w.drop_first());
        if encode(v) == encode(w) {
            assert(v[0] == w[0]);
            assert(v.drop_first() == w.drop_first());
            assert(v =~= seq![v[0]] + v.drop_first());
            assert(w =~= seq![w[0]] + w.drop_first());
        }
    }
}

/// Distinct lists of `n` flags number at most 2 to the `n`.
pub proof fn lemma_flag_lists_bound(s: Seq<Seq<bool>>, n: nat)
    requires
        forall|i: int, j: int| 0 <= i < j < s.len() ==> #[trigger] s[i] != #[trigger] s[j],
        forall|i: int| 0 <= i < s.len() ==> (#[trigger] s[i]).len() == n,
    ensures
        s.len() <= pow2(n),
{
    let q = s.map_values(|v: Seq<bool>| encode(v) as int);
    assert forall|i: int| 0 <= i < q.len() implies 0 <= #[trigger] q[i] < pow2(n) by {
        lemma_encode(s[i], s[i]);
    }
    assert(q.no_duplicates()) by {
        assert forall|i: int, j: int| 0 <= i < q.len() && 0 <= j < q.len() && i != j implies q[i] != q[j] by {
            lemma_encode(s[i], s[j]);
            if i < j {
                assert(s[i] != s[j]);
            } else {
                assert(s[j] != s[i]);
            }
        }
    }
    q.unique_seq_to_set();
    assert(q.to_set().subset_of(vstd::set_lib::set_int_range(0, pow2(n) as int)));
    vstd::set_lib::lemma_int_range(0, pow2(n) as int);
    vstd::set_lib::lemma_len_subset(q.to_set(), vstd::set_lib::set_int_range(0, pow2(n) as int));
}

/// Whether two lists of flags are equal.
fn same_flags(v: &Vec<bool>, w: &Vec<bool>) -> (r: bool)
    ensures
        r == (v@ == w@),
{
    if v.len() != w.len() {
        return false;
    }
    let mut i: usize = 0;
    while i < v.len()
        invariant
            v@.len() == w@.len(),
            i <= v@.len(),
            forall|j: int| 0 <= j < i ==> v@[j] == w@[j],
        decreases v@.len() - i,
    {
        if v[i] != w[i] {
            return false;
        }
        i = i + 1;
    }
    assert(v@ =~= w@);
    true
}

/// The position of the flags `v` in `sets`, appending them when absent.
fn set_index(sets: &mut Vec<Vec<bool>>, v: Vec<bool>) -> (r: usize)
    requires
        forall|i: int, j: int| 0 <= i < j < old(sets)@.len() ==> (#[trigger] old(sets)@[i])@ != (#[trigger] old(sets)@[j])@,
    ensures
        forall|i: int, j: int| 0 <= i < j < final(sets)@.len() ==> (#[trigger] final(sets)@[i])@ != (#[trigger] final(sets)@[j])@,
        (r as int) < final(sets)@.len(),
        final(sets)@[r as int]@ == v@,
        final(sets)@.len() >= old(sets)@.len(),
        forall|i: int| 0 <= i < old(sets)@.len() ==> #[trigger] final(sets)@[i] == old(sets)@[i],
        final(sets)@.len() > old(sets)@.len() ==> final(sets)@.len() == old(sets)@.len() + 1 && r == old(sets)@.len(),
        final(sets)@.len() == old(sets)@.len() ==> final(sets)@ == old(sets)@,
{
    let mut i: usize = 0;
    while i < sets.len()
        invariant
            i <= sets@.len(),
            sets@ == old(sets)@,
            forall|a: int, b: int| 0 <= a < b < sets@.len() ==> (#[trigger] sets@[a])@ != (#[trigger] sets@[b])@,
            forall|j: int| 0 <= j < i ==> (#[trigger] sets@[j])@ != v@,
        decreases sets@.len() - i,
    {
        if same_flags(&sets[i], &v) {
            return i;
        }
        i = i + 1;
    }
    let ghost sb = sets@;
    sets.push(v);
    proof {
        assert forall|a: int, b: int| 0 <= a < b < sets@.len() implies (#[trigger] sets@[a])@ != (#[trigger] sets@[b])@ by {
            if b < sb.len() {
                assert(sets@[a] == sb[a] && sets@[b] == sb[b]);
            } else {
                assert(sets@[a] == sb[a]);
            }
        }
    }
    i
}

/// In the subset automaton, the set behind the state reached by `w` is what
/// the ε-free automaton reaches.
pub proof fn lemma_subset_run(nfa: &EpsilonNFA, d: &DFA, sets: Seq<Seq<bool>>, w: Seq<char>)
    requires
        nfa.wf(),
        nfa.no_epsilon(),
        d.wf(),
        d.alphabet() == nfa.alphabet(),
        sets.len() == d.num_states(),
        nfa.set_of(sets[d.start()]) == nfa.starts(),
        forall|x: int, a: int|
            d.valid_state(x) && 0 <= a < d.alphabet().len() ==> nfa.set_of(sets[#[trigger] d.next(x, a)])
                == nfa.post(nfa.set_of(sets[x]), d.alphabet()[a]),
        d.in_alphabet(w),
    ensures
        nfa.set_of(sets[d.run(d.start(), w)]) == nfa.reach(w),
    decreases w.len(),
{
    if w.len() == 0 {
        nfa.lemma_closure_no_epsilon(nfa.starts());
        assert(nfa.reach(w) =~= nfa.starts());
    } else {
        let u = w.drop_last();
        let c = w.last();
        assert(w =~= u.push(c));
        assert forall|i: int| 0 <= i < u.len() implies d.alphabet().contains(#[trigger] u[i]) by {
            assert(u[i] == w[i]);
        }
        lemma_subset_run(nfa, d, sets, u);
        d.lemma_run_snoc(d.start(), u, c);
        d.lemma_run_valid(d.start(), u);
        assert(d.alphabet().contains(w[w.len() - 1]));
        lemma_index_of_contained(d.alphabet(), c);
        nfa.lemma_closure_no_epsilon(nfa.post(nfa.reach(u), c));
        assert(nfa.reach(w) =~= nfa.post(nfa.reach(u), c));
    }
}

impl EpsilonNFA {
    /// The identity of a set of states: the merge of its members' identities,
    /// in state order; the empty set gets the empty identity.
    fn set_name(&self, m: &Vec<bool>) -> (r: State)
        requires
            self.wf(),
            m@.len() == self.num_states(),
    {
        let mut name = State::new_empty();
        let mut i: usize = 0;
        while i < m.len()
            invariant
                self.wf(),
                m@.len() == self.num_states(),
                i <= m@.len(),
            decreases m@.len() - i,
        {
            if m[i] {
                name = name.concat(&self.states[i]);
            }
            i = i + 1;
        }
        name
    }

    /// Whether the flagged set holds an accepting state.
    fn meets_final(&self, m: &Vec<bool>) -> (r: bool)
        requires
            self.wf(),
            m@.len() == self.num_states(),
        ensures
            r == exists|t: int| self.set_of(m@).contains(t) && self.is_final(t),
    {
        let mut i: usize = 0;
        while i < m.len()
            invariant
                self.wf(),
                m@.len() == self.num_states(),
                i <= m@.len(),
                forall|t: int| 0 <= t < i ==> !(m@[t] && self.is_final(t)),
            decreases m@.len() - i,
        {
            if m[i] && self.final_states[i] {
                assert(self.set_of(m@).contains(i as int) && self.is_final(i as int));
                return true;
            }
            i = i + 1;
        }
        false
    }

    /// The deterministic automaton of the same language, by subset
    /// construction over the ε-free form: each state stands for a set of
    /// states, explored lazily from the set of start states, and accepts when
    /// the set holds an accepting state; the empty set is the trap.
    pub fn to_dfa(&self) -> (r: DFA)
        requires
            self.wf(),
        ensures
            r.wf(),
            r.trapped_ok(),
            r.alphabet() == self.alphabet(),
            forall|w: Seq<char>| #[trigger] r.accepts_word(w) == self.accepts_word(w),
    {
        let nfa = self.get_non_epsilon_nfa();
        let n = nfa.states.len();
        let k = nfa.alphabets.len();
        let mut sets: Vec<Vec<bool>> = Vec::new();
        sets.push(copy_vec(&nfa.start_states));
        let mut table: Vec<Vec<usize>> = Vec::new();
        let ghost bound = pow2(n as nat) as int;
        proof {
            let fl = sets@.map_values(|v: Vec<bool>| v@);
            assert(fl[0] == sets@[0]@);
            lemma_flag_lists_bound(fl, n as nat);
        }
        let mut i: usize = 0;
        while i < sets.len()
            invariant
                nfa.wf(),
                nfa.no_epsilon(),
                n == nfa.num_states(),
                k == nfa.alphabet().len(),
                bound == pow2(n as nat),
                sets@.len() >= 1,
                sets@[0]@ == nfa.start_states@,
                forall|a: int, b: int| 0 <= a < b < sets@.len() ==> (#[trigger] sets@[a])@ != (#[trigger] sets@[b])@,
                forall|a: int| 0 <= a < sets@.len() ==> (#[trigger] sets@[a])@.len() == n,
                sets@.len() <= bound,
                i <= sets@.len(),
                table@.len() == i,
                forall|x: int| 0 <= x < i ==> (#[trigger] table@[x])@.len() == k,
                forall|x: int, a: int| 0 <= x < i && 0 <= a < k ==> (#[trigger] table@[x]@[a] as int) < sets@.len()
                    && nfa.set_of(sets@[table@[x]@[a] as int]@) == nfa.post(nfa.set_of(sets@[x]@), nfa.alphabet()[a]),
            decreases bound - i,
        {
            let mut row: Vec<usize> = Vec::new();
            let ghost sb = sets@;
            let mut a: usize = 0;
            while a < k
                invariant
                    nfa.wf(),
                    n == nfa.num_states(),
                    k == nfa.alphabet().len(),
                    bound == pow2(n as nat),
                    (i as int) < sb.len(),
                    sb.len() <= sets@.len(),
                    forall|x: int| 0 <= x < sb.len() ==> #[trigger] sets@[x] == sb[x],
                    forall|p: int, q: int| 0 <= p < q < sets@.len() ==> (#[trigger] sets@[p])@ != (#[trigger] sets@[q])@,
                    forall|p: int| 0 <= p < sets@.len() ==> (#[trigger] sets@[p])@.len() == n,
                    sets@.len() <= bound,
                    a <= k,
                    row@.len() == a,
                    forall|b: int| 0 <= b < a ==> (#[trigger] row@[b] as int) < sets@.len()
                        && nfa.set_of(sets@[row@[b] as int]@) == nfa.post(nfa.set_of(sb[i as int]@), nfa.alphabet()[b]),
                decreases k - a,
            {
                let nxt = nfa.post_of(&sets[i], a);
                proof {
                    assert(nfa.set_of(nxt@) =~= nfa.post(nfa.set_of(sb[i as int]@), nfa.alphabet()[a as int]));
                }
                let ghost before = sets@;
                let idx = set_index(&mut sets, nxt);
                proof {
                    assert forall|p: int| 0 <= p < sets@.len() implies (#[trigger] sets@[p])@.len() == n by {
                        if p < before.len() {
                            assert(sets@[p] == before[p]);
                        }
                    }
                    if sets@.len() > before.len() {
                        let fl = sets@.map_values(|v: Vec<bool>| v@);
                        assert forall|p: int, q: int| 0 <= p < q < fl.len() implies #[trigger] fl[p] != #[trigger] fl[q] by {
                            assert(fl[p] == sets@[p]@ && fl[q] == sets@[q]@);
                        }
                        assert forall|p: int| 0 <= p < fl.len() implies (#[trigger] fl[p]).len() == n by {
                            assert(fl[p] == sets@[p]@);
                        }
                        lemma_flag_lists_bound(fl, n as nat);
                    }
                    assert forall|b: int| 0 <= b < a implies (#[trigger] row@[b] as int) < sets@.len()
                        && nfa.set_of(sets@[row@[b] as int]@) == nfa.post(nfa.set_of(sb[i as int]@), nfa.alphabet()[b]) by {
                        assert(sets@[row@[b] as int] == before[row@[b] as int]);
                    }
                }
                row.push(idx);
                a = a + 1;
            }
            table.push(row);
            proof {
                assert forall|x: int, b: int| 0 <= x < i + 1 && 0 <= b < k implies (#[trigger] table@[x]@[b] as int) < sets@.len()
                    && nfa.set_of(sets@[table@[x]@[b] as int]@) == nfa.post(nfa.set_of(sets@[x]@), nfa.alphabet()[b]) by {
                    assert(sets@[x] == sb[x]);
                    if x < i {
                        assert(sets@[table@[x]@[b] as int] == sb[table@[x]@[b] as int]);
                    }
                }
            }
            i = i + 1;
        }
        let m = sets.len();
        let mut names: Vec<State> = Vec::new();
        let mut finals: Vec<bool> = Vec::new();
        let mut x: usize = 0;
        while x < m
            invariant
                nfa.wf(),
                n == nfa.num_states(),
                m == sets@.len(),
                forall|p: int| 0 <= p < sets@.len() ==> (#[trigger] sets@[p])@.len() == n,
                x <= m,
                names@.len() == x,
                finals@.len() == x,
                forall|p: int| 0 <= p < x ==> #[trigger] finals@[p] == exists|t: int| nfa.set_of(sets@[p]@).contains(t) && nfa.is_final(t),
            decreases m - x,
        {
            names.push(nfa.set_name(&sets[x]));
            finals.push(nfa.meets_final(&sets[x]));
            x = x + 1;
        }
        let ghost finals_v = finals@;
        let ghost table_v = table@;
        let mut d = DFA::from_parts(names, copy_vec(&nfa.alphabets), table, 0, finals);
        proof {
            assert(nfa.set_of(sets@[0]@) =~= nfa.starts());
            let fl = sets@.map_values(|v: Vec<bool>| v@);
            assert(fl[0] == sets@[0]@);
            assert forall|y: int, b: int|
                d.valid_state(y) && 0 <= b < d.alphabet().len() implies nfa.set_of(fl[#[trigger] d.next(y, b)])
                    == nfa.post(nfa.set_of(fl[y]), d.alphabet()[b]) by {
                assert(d.next(y, b) == table_v[y]@[b] as int);
                assert(fl[y] == sets@[y]@);
                assert(fl[table_v[y]@[b] as int] == sets@[table_v[y]@[b] as int]@);
            }
            assert forall|w: Seq<char>| #[trigger] d.accepts_word(w) == nfa.accepts_word(w) by {
                if d.in_alphabet(w) {
                    lemma_subset_run(&nfa, &d, fl, w);
                    d.lemma_run_valid(d.start(), w);
                    let x = d.run(d.start(), w);
                    assert(fl[x] == sets@[x]@);
                    assert(d.is_final(x) == finals_v[x]);
                }
            }
        }
        let ghost d0 = d;
        d.update_trapped_states();
        proof {
            d.lemma_same_accepts(&d0);
        }
        if AUTO_OPTIMIZE {
            d.minimize();
        }
        d
    }
}

} // verus!
