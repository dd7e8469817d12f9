use vstd::prelude::*;

use super::{copy_vec, lemma_index_of_contained, lemma_index_of_unique, DFA};
use crate::constants::AUTO_OPTIMIZE;
use crate::table::distinct_chars;
use crate::utils::{CustomError, State};

verus! {

/// How the acceptance of a pair of states follows from its components.
pub(crate) enum BooleanOp {
    Intersection,
    Union,
    Difference,
}

/// Acceptance of a pair whose components accept as `a` and `b`.
pub(crate) open spec fn combine(op: BooleanOp, a: bool, b: bool) -> bool {
    match op {
        BooleanOp::Intersection => a && b,
        BooleanOp::Union => a || b,
        BooleanOp::Difference => a && !b,
    }
}

/// The pair of states that the synchronized product moves to from `p` on
/// `c`; the pair (`a.num_states()`, `b.num_states()`) is the shared trap,
/// taken whenever a side has no transition on `c`.
pub open spec fn pair_step(a: &DFA, b: &DFA, p: (int, int), c: char) -> (int, int) {
    if 0 <= p.0 < a.num_states() && 0 <= p.1 < b.num_states() && a.alphabet().contains(c)
        && b.alphabet().contains(c) {
        (a.delta(p.0, c), b.delta(p.1, c))
    } else {
        (a.num_states(), b.num_states())
    }
}

/// Where the product is after reading `w` from its start: both runs, while
/// every symbol is in both alphabets, else the trap.
pub open spec fn joint_run(a: &DFA, b: &DFA, w: Seq<char>) -> (int, int) {
    if a.in_alphabet(w) && b.in_alphabet(w) {
        (a.run(a.start(), w), b.run(b.start(), w))
    } else {
        (a.num_states(), b.num_states())
    }
}

/// One product step extends the joint run by one symbol.
pub proof fn lemma_joint_step(a: &DFA, b: &DFA, w: Seq<char>, c: char)
    requires
        a.wf(),
        b.wf(),
    ensures
        pair_step(a, b, joint_run(a, b, w), c) == joint_run(a, b, w.push(c)),
{
    let w2 = w.push(c);
    assert forall|i: int| 0 <= i < w.len() implies #[trigger] w2[i] == w[i] by {}
    assert(w2[w.len() as int] == c);
    if a.in_alphabet(w) && b.in_alphabet(w) {
        a.lemma_run_valid(a.start(), w);
        b.lemma_run_valid(b.start(), w);
        a.lemma_run_snoc(a.start(), w, c);
        b.lemma_run_snoc(b.start(), w, c);
        if a.alphabet().contains(c) && b.alphabet().contains(c) {
            assert(a.in_alphabet(w2) && b.in_alphabet(w2));
        } else {
            assert(!(a.in_alphabet(w2) && b.in_alphabet(w2)));
        }
    } else {
        if a.in_alphabet(w2) && b.in_alphabet(w2) {
            assert forall|i: int| 0 <= i < w.len() implies a.alphabet().contains(#[trigger] w[i]) && b.alphabet().contains(w[i]) by {
                assert(w2[i] == w[i]);
            }
            assert(a.in_alphabet(w) && b.in_alphabet(w));
        }
    }
}

/// Distinct pairs from an `x` by `y` grid number at most `x * y`.
pub proof fn lemma_grid_bound(s: Seq<(usize, usize)>, x: nat, y: nat)
    requires
        s.no_duplicates(),
        forall|i: int| 0 <= i < s.len() ==> (#[trigger] s[i]).0 < x && s[i].1 < y,
    ensures
        s.len() <= x * y,
{
    let q = s.map_values(|p: (usize, usize)| p.0 as int * y + p.1 as int);
    assert forall|i: int| 0 <= i < q.len() implies 0 <= #[trigger] q[i] < x * y by {
        let (p0, p1) = (s[i].0 as int, s[i].1 as int);
        assert(0 <= p0 * y + p1 < x * y) by (nonlinear_arith)
            requires 0 <= p0 < x, 0 <= p1 < y;
    }
    assert(q.no_duplicates()) by {
        assert forall|i: int, j: int| 0 <= i < q.len() && 0 <= j < q.len() && i != j implies q[i] != q[j] by {
            let (a0, a1) = (s[i].0 as int, s[i].1 as int);
            let (b0, b1) = (s[j].0 as int, s[j].1 as int);
            assert(s[i] != s[j]);
            if a0 * y + a1 == b0 * y + b1 {
                assert(a0 == b0 && a1 == b1) by (nonlinear_arith)
                    requires a0 * y + a1 == b0 * y + b1, 0 <= a1 < y, 0 <= b1 < y, 0 <= a0, 0 <= b0;
            }
        }
    }
    q.unique_seq_to_set();
    assert(q.to_set().subset_of(vstd::set_lib::set_int_range(0, (x * y) as int)));
    vstd::set_lib::lemma_int_range(0, (x * y) as int);
    vstd::set_lib::lemma_len_subset(q.to_set(), vstd::set_lib::set_int_range(0, (x * y) as int));
}

/// The position of `p` in `pairs`, appending it when it is not there.
fn pair_index(pairs: &mut Vec<(usize, usize)>, p: (usize, usize)) -> (r: usize)
    requires
        old(pairs)@.no_duplicates(),
    ensures
        final(pairs)@.no_duplicates(),
        (r as int) < final(pairs)@.len(),
        final(pairs)@[r as int] == p,
        final(pairs)@ == old(pairs)@ || final(pairs)@ == old(pairs)@.push(p),
        final(pairs)@.len() > old(pairs)@.len() ==> !old(pairs)@.contains(p),
{
    let mut i: usize = 0;
    while i < pairs.len()
        invariant
            i <= pairs@.len(),
            pairs@ == old(pairs)@,
            pairs@.no_duplicates(),
            forall|j: int| 0 <= j < i ==> pairs@[j] != p,
        decreases pairs@.len() - i,
    {
        let q = pairs[i];
        if q.0 == p.0 && q.1 == p.1 {
            return i;
        }
        i = i + 1;
    }
    let ghost pb = pairs@;
    pairs.push(p);
    proof {
        assert forall|a: int, b: int| 0 <= a < pairs@.len() && 0 <= b < pairs@.len() && a != b implies pairs@[a] != pairs@[b] by {
            if a < pb.len() && b < pb.len() {
                assert(pairs@[a] == pb[a] && pairs@[b] == pb[b]);
            } else if a < pb.len() {
                assert(pairs@[a] == pb[a]);
            } else if b < pb.len() {
                assert(pairs@[b] == pb[b]);
            }
        }
    }
    i
}

/// A pair of positions as a pair of integers.
pub open spec fn as_pair(p: (usize, usize)) -> (int, int) {
    (p.0 as int, p.1 as int)
}

/// In the product, the pair behind the state reached by `w` is the joint run.
pub proof fn lemma_product_run(a: &DFA, b: &DFA, p: &DFA, pairs: Seq<(usize, usize)>, w: Seq<char>)
    requires
        a.wf(),
        b.wf(),
        p.wf(),
        pairs.len() == p.num_states(),
        as_pair(pairs[p.start()]) == (a.start(), b.start()),
        forall|x: int, u: int|
            p.valid_state(x) && 0 <= u < p.alphabet().len() ==> as_pair(pairs[#[trigger] p.next(x, u)])
                == pair_step(a, b, as_pair(pairs[x]), p.alphabet()[u]),
        p.in_alphabet(w),
    ensures
        as_pair(pairs[p.run(p.start(), w)]) == joint_run(a, b, w),
    decreases w.len(),
{
    if w.len() == 0 {
        assert(a.in_alphabet(w) && b.in_alphabet(w));
    } else {
        let u = w.drop_last();
        let c = w.last();
        assert(w =~= u.push(c));
        assert forall|i: int| 0 <= i < u.len() implies p.alphabet().contains(#[trigger] u[i]) by {
            assert(u[i] == w[i]);
        }
        lemma_product_run(a, b, p, pairs, u);
        p.lemma_run_snoc(p.start(), u, c);
        p.lemma_run_valid(p.start(), u);
        assert(p.alphabet().contains(w[w.len() - 1]));
        lemma_index_of_contained(p.alphabet(), c);
        lemma_joint_step(a, b, u, c);
    }
}

impl DFA {
    /// The synchronized product of `self` and `other` over the union of their
    /// alphabets, explored lazily from the pair of start states; a pair
    /// accepts as `op` combines its components.
    fn product(&self, other: &DFA, op: BooleanOp) -> (r: DFA)
        requires
            self.wf(),
            other.wf(),
        ensures
            r.wf(),
            r.canonical(),
            r.names_distinct(),
            r.trapped_ok(),
            r.cursor() == r.start(),
            forall|c: char| #[trigger] r.alphabet().contains(c) <==> self.alphabet().contains(c) || other.alphabet().contains(c),
            forall|w: Seq<char>| #[trigger] r.accepts_word(w) == (self.in_alphabet(w) && other.in_alphabet(w)
                && combine(op, self.is_final(self.run(self.start(), w)), other.is_final(other.run(other.start(), w)))),
    {
        let n1 = self.states.len();
        let n2 = other.states.len();
        let mut joined = copy_vec(&self.alphabets);
        let mut j: usize = 0;
        while j < other.alphabets.len()
            invariant
                j <= other.alphabet().len(),
                joined@ == self.alphabet() + other.alphabet().subrange(0, j as int),
            decreases other.alphabet().len() - j,
        {
            joined.push(other.alphabets[j]);
            j = j + 1;
            assert(joined@ =~= self.alphabet() + other.alphabet().subrange(0, j as int));
        }
        assert(other.alphabet().subrange(0, j as int) =~= other.alphabet());
        let alpha = distinct_chars(&joined);
        let k = alpha.len();
        proof {
            assert forall|c: char| alpha@.contains(c) <==> self.alphabet().contains(c) || other.alphabet().contains(c) by {
                assert(alpha@.to_set().contains(c) == alpha@.contains(c));
                assert(joined@.to_set().contains(c) == joined@.contains(c));
                if joined@.contains(c) {
                    let i = choose|i: int| 0 <= i < joined@.len() && joined@[i] == c;
                    if i < self.alphabet().len() {
                        assert(self.alphabet()[i] == c);
                    } else {
                        assert(other.alphabet()[i - self.alphabet().len()] == c);
                    }
                }
                if self.alphabet().contains(c) {
                    let i = choose|i: int| 0 <= i < self.alphabet().len() && self.alphabet()[i] == c;
                    assert(joined@[i] == c);
                }
                if other.alphabet().contains(c) {
                    let i = choose|i: int| 0 <= i < other.alphabet().len() && other.alphabet()[i] == c;
                    assert(joined@[self.alphabet().len() + i] == c);
                }
            }
        }
        let mut sym1: Vec<Option<usize>> = Vec::new();
        let mut sym2: Vec<Option<usize>> = Vec::new();
        let mut u: usize = 0;
        while u < k
            invariant
                k == alpha@.len(),
                u <= k,
                sym1@.len() == u,
                sym2@.len() == u,
                forall|x: int| 0 <= x < u ==> match #[trigger] sym1@[x] {
                    Some(a) => a < self.alphabet().len() && self.alphabet()[a as int] == alpha@[x],
                    None => !self.alphabet().contains(alpha@[x]),
                },
                forall|x: int| 0 <= x < u ==> match #[trigger] sym2@[x] {
                    Some(a) => a < other.alphabet().len() && other.alphabet()[a as int] == alpha@[x],
                    None => !other.alphabet().contains(alpha@[x]),
                },
            decreases k - u,
        {
            sym1.push(self.symbol_index(alpha[u]));
            sym2.push(other.symbol_index(alpha[u]));
            u = u + 1;
        }
        let trap: (usize, usize) = (n1, n2);
        let mut pairs: Vec<(usize, usize)> = Vec::new();
        pairs.push((self.start_state, other.start_state));
        pairs.push(trap);
        let mut table: Vec<Vec<usize>> = Vec::new();
        let ghost bound = ((n1 + 1) * (n2 + 1)) as int;
        let mut i: usize = 0;
        proof {
            assert(pairs@[0] != pairs@[1]);
            lemma_grid_bound(pairs@, (n1 + 1) as nat, (n2 + 1) as nat);
        }
        while i < pairs.len()
            invariant
                self.wf(),
                other.wf(),
                n1 == self.num_states(),
                n2 == other.num_states(),
                trap == (n1, n2),
                k == alpha@.len(),
                sym1@.len() == k,
                sym2@.len() == k,
                forall|x: int| 0 <= x < k ==> match #[trigger] sym1@[x] {
                    Some(a) => a < self.alphabet().len() && self.alphabet()[a as int] == alpha@[x],
                    None => !self.alphabet().contains(alpha@[x]),
                },
                forall|x: int| 0 <= x < k ==> match #[trigger] sym2@[x] {
                    Some(a) => a < other.alphabet().len() && other.alphabet()[a as int] == alpha@[x],
                    None => !other.alphabet().contains(alpha@[x]),
                },
                bound == (n1 + 1) * (n2 + 1),
                pairs@.len() >= 2,
                pairs@[0] == (self.start_state, other.start_state),
                pairs@[1] == trap,
                pairs@.no_duplicates(),
                pairs@.len() <= bound,
                forall|x: int| 0 <= x < pairs@.len() ==> ((#[trigger] pairs@[x]).0 < n1 && pairs@[x].1 < n2) || pairs@[x] == trap,
                i <= pairs@.len(),
                table@.len() == i,
                forall|x: int| 0 <= x < i ==> (#[trigger] table@[x])@.len() == k,
                forall|x: int, v: int| 0 <= x < i && 0 <= v < k ==> (#[trigger] table@[x]@[v] as int) < pairs@.len()
                    && as_pair(pairs@[table@[x]@[v] as int]) == pair_step(self, other, as_pair(pairs@[x]), alpha@[v]),
            decreases bound - i,
        {
            let p = pairs[i];
            let mut row: Vec<usize> = Vec::new();
            let ghost pb = pairs@;
            let mut v: usize = 0;
            while v < k
                invariant
                    self.wf(),
                    other.wf(),
                    n1 == self.num_states(),
                    n2 == other.num_states(),
                    trap == (n1, n2),
                    k == alpha@.len(),
                    sym1@.len() == k,
                    sym2@.len() == k,
                    forall|x: int| 0 <= x < k ==> match #[trigger] sym1@[x] {
                        Some(a) => a < self.alphabet().len() && self.alphabet()[a as int] == alpha@[x],
                        None => !self.alphabet().contains(alpha@[x]),
                    },
                    forall|x: int| 0 <= x < k ==> match #[trigger] sym2@[x] {
                        Some(a) => a < other.alphabet().len() && other.alphabet()[a as int] == alpha@[x],
                        None => !other.alphabet().contains(alpha@[x]),
                    },
                    bound == (n1 + 1) * (n2 + 1),
                    pairs@.no_duplicates(),
                    pairs@.len() <= bound,
                    pb.len() <= pairs@.len(),
                    forall|x: int| 0 <= x < pb.len() ==> #[trigger] pairs@[x] == pb[x],
                    (i as int) < pb.len(),
                    p == pb[i as int],
                    (p.0 < n1 && p.1 < n2) || p == trap,
                    forall|x: int| 0 <= x < pairs@.len() ==> ((#[trigger] pairs@[x]).0 < n1 && pairs@[x].1 < n2) || pairs@[x] == trap,
                    v <= k,
                    row@.len() == v,
                    forall|y: int| 0 <= y < v ==> (#[trigger] row@[y] as int) < pairs@.len()
                        && as_pair(pairs@[row@[y] as int]) == pair_step(self, other, as_pair(p), alpha@[y]),
                decreases k - v,
            {
                let mut nxt = trap;
                if p.0 < n1 && p.1 < n2 {
                    match (sym1[v], sym2[v]) {
                        (Some(a1), Some(a2)) => {
                            proof {
                                lemma_index_of_unique(self.alphabet(), a1 as int);
                                lemma_index_of_unique(other.alphabet(), a2 as int);
                                assert(self.valid_state(self.next(p.0 as int, a1 as int)));
                                assert(other.valid_state(other.next(p.1 as int, a2 as int)));
                            }
                            nxt = (self.transition_table[p.0][a1], other.transition_table[p.1][a2]);
                        },
                        _ => {},
                    }
                }
                proof {
                    assert(as_pair(nxt) == pair_step(self, other, as_pair(p), alpha@[v as int]));
                }
                let ghost before = pairs@;
                let idx = pair_index(&mut pairs, nxt);
                proof {
                    if pairs@.len() > before.len() {
                        assert forall|x: int| 0 <= x < pairs@.len() implies (#[trigger] pairs@[x]).0 < n1 + 1 && pairs@[x].1 < n2 + 1 by {
                            if x < before.len() {
                                assert(pairs@[x] == before[x]);
                            }
                        }
                        lemma_grid_bound(pairs@, (n1 + 1) as nat, (n2 + 1) as nat);
                    }
                    assert forall|x: int| 0 <= x < pairs@.len() implies ((#[trigger] pairs@[x]).0 < n1 && pairs@[x].1 < n2) || pairs@[x] == trap by {
                        if x < before.len() {
                            assert(pairs@[x] == before[x]);
                        }
                    }
                    assert forall|x: int| 0 <= x < pb.len() implies #[trigger] pairs@[x] == pb[x] by {
                        assert(before[x] == pb[x]);
                    }
                    assert forall|y: int| 0 <= y < v implies (#[trigger] row@[y] as int) < pairs@.len()
                        && as_pair(pairs@[row@[y] as int]) == pair_step(self, other, as_pair(p), alpha@[y]) by {
                        assert(pairs@[row@[y] as int] == before[row@[y] as int]);
                    }
                }
                row.push(idx);
                v = v + 1;
            }
            table.push(row);
            proof {
                assert forall|x: int, y: int| 0 <= x < i + 1 && 0 <= y < k implies (#[trigger] table@[x]@[y] as int) < pairs@.len()
                    && as_pair(pairs@[table@[x]@[y] as int]) == pair_step(self, other, as_pair(pairs@[x]), alpha@[y]) by {
                    if x < i {
                        assert(pairs@[table@[x]@[y] as int] == pb[table@[x]@[y] as int]);
                        assert(pairs@[x] == pb[x]);
                    }
                }
            }
            i = i + 1;
        }
        let m = pairs.len();
        let mut states: Vec<State> = Vec::new();
        let mut finals: Vec<bool> = Vec::new();
        let mut trapped: Vec<bool> = Vec::new();
        let mut x: usize = 0;
        while x < m
            invariant
                self.wf(),
                other.wf(),
                n1 == self.num_states(),
                n2 == other.num_states(),
                trap == (n1, n2),
                m == pairs@.len(),
                forall|y: int| 0 <= y < pairs@.len() ==> ((#[trigger] pairs@[y]).0 < n1 && pairs@[y].1 < n2) || pairs@[y] == trap,
                x <= m,
                states@.len() == x,
                finals@.len() == x,
                trapped@.len() == x,
                forall|y: int| 0 <= y < x ==> #[trigger] finals@[y] == (pairs@[y] != trap && combine(op,
                    self.is_final(pairs@[y].0 as int), other.is_final(pairs@[y].1 as int))),
            decreases m - x,
        {
            let p = pairs[x];
            if p.0 < n1 && p.1 < n2 {
                states.push(self.states[p.0].concat(&other.states[p.1]));
                let f1 = self.final_states[p.0];
                let f2 = other.final_states[p.1];
                let f = match op {
                    BooleanOp::Intersection => f1 && f2,
                    BooleanOp::Union => f1 || f2,
                    BooleanOp::Difference => f1 && !f2,
                };
                finals.push(f);
            } else {
                states.push(State::new('T', 0).concat(&State::new('T', 0)));
                finals.push(false);
            }
            trapped.push(false);
            x = x + 1;
        }
        let mut d = DFA {
            states,
            alphabets: alpha,
            transition_table: table,
            start_state: 0,
            current_state: 0,
            final_states: finals,
            trapped_states: trapped,
        };
        proof {
            assert(d.layout_ok());
            assert(d.wf());
            assert forall|y: int, v: int| d.valid_state(y) && 0 <= v < d.alphabet().len() implies as_pair(pairs@[#[trigger] d.next(y, v)])
                == pair_step(self, other, as_pair(pairs@[y]), d.alphabet()[v]) by {}
            assert forall|w: Seq<char>| #[trigger] d.accepts_word(w) == (self.in_alphabet(w) && other.in_alphabet(w)
                && combine(op, self.is_final(self.run(self.start(), w)), other.is_final(other.run(other.start(), w)))) by {
                if self.in_alphabet(w) && other.in_alphabet(w) {
                    assert(d.in_alphabet(w)) by {
                        assert forall|q: int| 0 <= q < w.len() implies d.alphabet().contains(#[trigger] w[q]) by {
                            assert(self.alphabet().contains(w[q]));
                        }
                    }
                }
                if d.in_alphabet(w) {
                    lemma_product_run(self, other, &d, pairs@, w);
                    d.lemma_run_valid(d.start(), w);
                    if self.in_alphabet(w) && other.in_alphabet(w) {
                        self.lemma_run_valid(self.start(), w);
                        other.lemma_run_valid(other.start(), w);
                    }
                }
            }
        }
        if AUTO_OPTIMIZE {
            d.minimize();
        } else {
            d.remove_unreachable_states();
            let ghost d1 = d;
            d.update_trapped_states();
            proof {
                d.lemma_same_accepts(&d1);
            }
            d.rename_states();
        }
        d
    }
}

impl DFA {
    /// The automaton of the words that both automata accept, over the union
    /// of their alphabets, minimized and renamed canonically.
    pub fn intersection(&self, other: &DFA) -> (r: Result<Self, CustomError>)
        requires
            self.wf(),
            other.wf(),
        ensures
            r matches Ok(d) && d.wf() && d.canonical() && d.names_distinct() && d.trapped_ok()
                && (forall|c: char| #[trigger] d.alphabet().contains(c) <==> self.alphabet().contains(c) || other.alphabet().contains(c))
                && (forall|w: Seq<char>| #[trigger] d.accepts_word(w) == (self.accepts_word(w) && other.accepts_word(w))),
    {
        let d = self.product(other, BooleanOp::Intersection);
        Ok(d)
    }

    /// The automaton of the words that either automaton accepts, over the
    /// union of their alphabets. A word with a symbol missing from one of the
    /// alphabets leads to the shared trap and is rejected.
    pub fn union(&self, other: &DFA) -> (r: Result<Self, CustomError>)
        requires
            self.wf(),
            other.wf(),
        ensures
            r matches Ok(d) && d.wf() && d.canonical() && d.names_distinct() && d.trapped_ok()
                && (forall|c: char| #[trigger] d.alphabet().contains(c) <==> self.alphabet().contains(c) || other.alphabet().contains(c))
                && (forall|w: Seq<char>| #[trigger] d.accepts_word(w) == (self.in_alphabet(w) && other.in_alphabet(w)
                    && (self.accepts_word(w) || other.accepts_word(w)))),
    {
        let d = self.product(other, BooleanOp::Union);
        Ok(d)
    }

    /// The automaton of the words that `self` accepts and `other` rejects,
    /// over the union of their alphabets. A word with a symbol missing from
    /// one of the alphabets leads to the shared trap and is rejected.
    pub fn difference(&self, other: &DFA) -> (r: Result<Self, CustomError>)
        requires
            self.wf(),
            other.wf(),
        ensures
            r matches Ok(d) && d.wf() && d.canonical() && d.names_distinct() && d.trapped_ok()
                && (forall|c: char| #[trigger] d.alphabet().contains(c) <==> self.alphabet().contains(c) || other.alphabet().contains(c))
                && (forall|w: Seq<char>| #[trigger] d.accepts_word(w) == (self.in_alphabet(w) && other.in_alphabet(w)
                    && self.accepts_word(w) && !other.accepts_word(w))),
    {
        let d = self.product(other, BooleanOp::Difference);
        Ok(d)
    }
}

} // verus!
