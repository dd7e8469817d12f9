use vstd::prelude::*;

use super::{copy_states, EpsilonNFA};
use crate::dfa::copy_vec;
use crate::dfa::{lemma_mark, num_unmarked};
use crate::utils::State;

verus! {

impl EpsilonNFA {
    /// Some transition, on a symbol or ε, leads from `s` to `t`.
    pub open spec fn any_edge(&self, s: int, t: int) -> bool {
        self.eps(s, t) || exists|a: int| 0 <= a < self.alphabet().len() && #[trigger] self.edge(s, a, t)
    }

    /// `m` is closed under transitions taken forwards (`forward`) or
    /// backwards.
    pub open spec fn closed_under(&self, m: Set<int>, forward: bool) -> bool {
        forall|s: int, t: int|
            self.valid_state(s) && self.valid_state(t) && #[trigger] self.any_edge(s, t) ==> (if forward {
                m.contains(s) ==> m.contains(t)
            } else {
                m.contains(t) ==> m.contains(s)
            })
    }

    /// `t` is reached from `s` by at most `k` transitions of any kind.
    pub open spec fn linked(&self, s: int, t: int, k: nat) -> bool
        decreases k,
    {
        if k == 0 {
            s == t
        } else {
            self.linked(s, t, (k - 1) as nat) || exists|u: int|
                self.valid_state(u) && self.linked(s, u, (k - 1) as nat) && #[trigger] self.any_edge(u, t)
        }
    }

    /// `t` is reached from a flagged seed (`forward`), or reaches one.
    pub open spec fn connected(&self, seeds: Seq<bool>, t: int, forward: bool) -> bool {
        if forward {
            exists|s: int, k: nat| self.valid_state(s) && seeds[s] && #[trigger] self.linked(s, t, k)
        } else {
            exists|s: int, k: nat| self.valid_state(s) && seeds[s] && #[trigger] self.linked(t, s, k)
        }
    }

    /// A set closed forwards holds whatever its members reach.
    pub proof fn lemma_forward_closed(&self, m: Set<int>, s: int, t: int, k: nat)
        requires
            self.closed_under(m, true),
            self.valid_state(s),
            m.contains(s),
            self.linked(s, t, k),
        ensures
            m.contains(t),
        decreases k,
    {
        if k > 0 {
            if self.linked(s, t, (k - 1) as nat) {
                self.lemma_forward_closed(m, s, t, (k - 1) as nat);
            } else {
                let u = choose|u: int| self.valid_state(u) && self.linked(s, u, (k - 1) as nat) && #[trigger] self.any_edge(u, t);
                self.lemma_forward_closed(m, s, u, (k - 1) as nat);
                assert(self.valid_state(t));
            }
        }
    }

    /// A set closed backwards holds whatever reaches its members.
    pub proof fn lemma_backward_closed(&self, m: Set<int>, s: int, t: int, k: nat)
        requires
            self.closed_under(m, false),
            self.valid_state(s),
            self.valid_state(t),
            m.contains(t),
            self.linked(s, t, k),
        ensures
            m.contains(s),
        decreases k,
    {
        if k > 0 {
            if self.linked(s, t, (k - 1) as nat) {
                self.lemma_backward_closed(m, s, t, (k - 1) as nat);
            } else {
                let u = choose|u: int| self.valid_state(u) && self.linked(s, u, (k - 1) as nat) && #[trigger] self.any_edge(u, t);
                assert(m.contains(u));
                self.lemma_backward_closed(m, s, u, (k - 1) as nat);
            }
        }
    }

    /// A transition in front of a path makes a longer path.
    pub proof fn lemma_linked_prepend(&self, y: int, x: int, s: int, k: nat)
        requires
            self.valid_state(y),
            self.valid_state(x),
            self.any_edge(y, x),
            self.linked(x, s, k),
        ensures
            self.linked(y, s, k + 1),
        decreases k,
    {
        if k == 0 {
            assert(self.linked(y, y, 0));
            assert(self.linked(y, s, 1));
        } else {
            if self.linked(x, s, (k - 1) as nat) {
                self.lemma_linked_prepend(y, x, s, (k - 1) as nat);
                assert(self.linked(y, s, k + 1) == (self.linked(y, s, k) || exists|u: int|
                    self.valid_state(u) && self.linked(y, u, k) && #[trigger] self.any_edge(u, s)));
            } else {
                let u = choose|u: int| self.valid_state(u) && self.linked(x, u, (k - 1) as nat) && #[trigger] self.any_edge(u, s);
                self.lemma_linked_prepend(y, x, u, (k - 1) as nat);
                assert(self.linked(y, s, k + 1) == (self.linked(y, s, k) || exists|v: int|
                    self.valid_state(v) && self.linked(y, v, k) && #[trigger] self.any_edge(v, s)));
            }
        }
    }

    /// Whether some transition, on a symbol or ε, leads from `s` to `t`.
    pub(crate) fn has_any_edge(&self, s: usize, t: usize) -> (r: bool)
        requires
            self.wf(),
            self.valid_state(s as int),
            self.valid_state(t as int),
        ensures
            r == self.any_edge(s as int, t as int),
    {
        proof {
            assert(self.epsilon_table@[s as int]@.len() == self.states@.len());
        }
        if self.epsilon_table[s][t] {
            return true;
        }
        let mut a: usize = 0;
        while a < self.alphabets.len()
            invariant
                self.wf(),
                self.valid_state(s as int),
                self.valid_state(t as int),
                a <= self.alphabet().len(),
                forall|b: int| 0 <= b < a ==> !#[trigger] self.edge(s as int, b, t as int),
            decreases self.alphabet().len() - a,
        {
            proof {
                assert(self.transition_table@[s as int]@.len() == self.alphabets@.len());
                assert(self.transition_table@[s as int]@[a as int]@.len() == self.states@.len());
            }
            if self.transition_table[s][a][t] {
                assert(self.edge(s as int, a as int, t as int));
                return true;
            }
            a = a + 1;
        }
        false
    }

    /// Flags the states reached from a seed (`forward`) or reaching one, by a
    /// stack-based traversal.
    fn mark_connected(&self, seeds: &Vec<bool>, forward: bool) -> (m: Vec<bool>)
        requires
            self.wf(),
            seeds@.len() == self.num_states(),
        ensures
            m@.len() == self.num_states(),
            self.closed_under(self.set_of(m@), forward),
            forall|t: int| self.valid_state(t) && seeds@[t] ==> #[trigger] m@[t],
            forall|t: int| self.valid_state(t) && #[trigger] m@[t] ==> self.connected(seeds@, t, forward),
    {
        let n = self.states.len();
        let mut mark: Vec<bool> = Vec::new();
        let mut stack: Vec<usize> = Vec::new();
        let mut p: usize = 0;
        while p < n
            invariant
                self.wf(),
                n == self.num_states(),
                seeds@.len() == n,
                p <= n,
                mark@.len() == p,
                forall|i: int| 0 <= i < p ==> #[trigger] mark@[i] == seeds@[i],
                forall|j: int| 0 <= j < stack@.len() ==> (#[trigger] stack@[j] as int) < p && mark@[stack@[j] as int],
                forall|i: int| 0 <= i < p && #[trigger] mark@[i] ==> stack@.contains(i as usize),
            decreases n - p,
        {
            let f = seeds[p];
            let ghost sb = stack@;
            mark.push(f);
            if f {
                stack.push(p);
            }
            proof {
                assert forall|i: int| 0 <= i < p + 1 && #[trigger] mark@[i] implies stack@.contains(i as usize) by {
                    if i < p {
                        let j = choose|j: int| 0 <= j < sb.len() && sb[j] == i as usize;
                        assert(stack@[j] == i as usize);
                    } else {
                        assert(stack@[stack@.len() - 1] == i as usize);
                    }
                }
            }
            p = p + 1;
        }
        proof {
            assert forall|i: int| self.valid_state(i) && #[trigger] mark@[i] implies self.connected(seeds@, i, forward) by {
                assert(self.linked(i, i, 0));
            }
        }
        while stack.len() > 0
            invariant
                self.wf(),
                n == self.num_states(),
                seeds@.len() == n,
                mark@.len() == n,
                forall|i: int| self.valid_state(i) && seeds@[i] ==> #[trigger] mark@[i],
                forall|j: int| 0 <= j < stack@.len() ==> (#[trigger] stack@[j] as int) < n && mark@[stack@[j] as int],
                forall|i: int| self.valid_state(i) && #[trigger] mark@[i] ==> self.connected(seeds@, i, forward),
                forall|x: int, y: int| self.valid_state(x) && self.valid_state(y) && #[trigger] mark@[x] && !stack@.contains(x as usize)
                    && (if forward { self.any_edge(x, y) } else { self.any_edge(y, x) }) ==> #[trigger] mark@[y],
            decreases num_unmarked(mark@), stack@.len(),
        {
            let ghost sb = stack@;
            let x = stack.pop().unwrap();
            let ghost base = stack@.len();
            let ghost num0 = num_unmarked(mark@);
            proof {
                assert(stack@ == sb.drop_last() && x == sb[sb.len() - 1]);
                assert forall|x2: int, y: int| self.valid_state(x2) && self.valid_state(y) && #[trigger] mark@[x2] && !stack@.contains(x2 as usize)
                    && x2 != x && (if forward { self.any_edge(x2, y) } else { self.any_edge(y, x2) }) implies #[trigger] mark@[y] by {
                    if sb.contains(x2 as usize) {
                        let j = choose|j: int| 0 <= j < sb.len() && sb[j] == x2 as usize;
                        assert(stack@[j] == x2 as usize);
                    }
                }
            }
            let mut y: usize = 0;
            while y < n
                invariant
                    self.wf(),
                    n == self.num_states(),
                    seeds@.len() == n,
                    x < n,
                    mark@[x as int],
                    y <= n,
                    mark@.len() == n,
                    base <= stack@.len(),
                    num_unmarked(mark@) + (stack@.len() - base) == num0,
                    forall|i: int| self.valid_state(i) && seeds@[i] ==> #[trigger] mark@[i],
                    forall|j: int| 0 <= j < stack@.len() ==> (#[trigger] stack@[j] as int) < n && mark@[stack@[j] as int],
                    forall|i: int| self.valid_state(i) && #[trigger] mark@[i] ==> self.connected(seeds@, i, forward),
                    forall|x2: int, y2: int| self.valid_state(x2) && self.valid_state(y2) && #[trigger] mark@[x2] && !stack@.contains(x2 as usize)
                        && x2 != x && (if forward { self.any_edge(x2, y2) } else { self.any_edge(y2, x2) }) ==> #[trigger] mark@[y2],
                    forall|y2: int| 0 <= y2 < y && (if forward { self.any_edge(x as int, y2) } else { self.any_edge(y2, x as int) }) ==> #[trigger] mark@[y2],
                decreases n - y,
            {
                let linked = if forward { self.has_any_edge(x, y) } else { self.has_any_edge(y, x) };
                if linked && !mark[y] {
                    proof {
                        assert(self.connected(seeds@, x as int, forward));
                        if forward {
                            let (s, k) = choose|s: int, k: nat| self.valid_state(s) && seeds@[s] && #[trigger] self.linked(s, x as int, k);
                            assert(self.linked(s, y as int, k + 1) == (self.linked(s, y as int, k) || exists|u: int|
                                self.valid_state(u) && self.linked(s, u, k) && #[trigger] self.any_edge(u, y as int)));
                            assert(self.linked(s, y as int, k + 1));
                        } else {
                            let (s, k) = choose|s: int, k: nat| self.valid_state(s) && seeds@[s] && #[trigger] self.linked(x as int, s, k);
                            self.lemma_linked_prepend(y as int, x as int, s, k);
                        }
                        assert(self.connected(seeds@, y as int, forward));
                        lemma_mark(mark@, y as int);
                    }
                    let ghost sb2 = stack@;
                    mark.set(y, true);
                    stack.push(y);
                    proof {
                        assert(stack@[stack@.len() - 1] == y);
                        assert forall|x2: int, y2: int| self.valid_state(x2) && self.valid_state(y2) && #[trigger] mark@[x2] && !stack@.contains(x2 as usize)
                            && x2 != x && (if forward { self.any_edge(x2, y2) } else { self.any_edge(y2, x2) }) implies #[trigger] mark@[y2] by {
                            if x2 == y as int {
                                assert(stack@.contains(y));
                            }
                            if sb2.contains(x2 as usize) {
                                let j = choose|j: int| 0 <= j < sb2.len() && sb2[j] == x2 as usize;
                                assert(stack@[j] == x2 as usize);
                            }
                        }
                    }
                }
                y = y + 1;
            }
        }
        proof {
            assert forall|s: int, t: int|
                self.valid_state(s) && self.valid_state(t) && #[trigger] self.any_edge(s, t) implies (if forward {
                    self.set_of(mark@).contains(s) ==> self.set_of(mark@).contains(t)
                } else {
                    self.set_of(mark@).contains(t) ==> self.set_of(mark@).contains(s)
                }) by {
                if forward {
                    if mark@[s] {
                        assert(mark@[t]);
                    }
                } else {
                    if mark@[t] {
                        assert(mark@[s]);
                    }
                }
            }
        }
        mark
    }
}

impl EpsilonNFA {
    /// `r` is `self` cut down to the states flagged in `keep`, in their
    /// order: new state `i` is old state `g[i]`.
    pub open spec fn restricts(&self, r: &EpsilonNFA, keep: Seq<bool>, g: Seq<int>) -> bool {
        &&& g.len() == r.num_states()
        &&& r.alphabet() == self.alphabet()
        &&& forall|i: int| 0 <= i < g.len() ==> self.valid_state(#[trigger] g[i]) && keep[g[i]]
        &&& forall|i: int, j: int| 0 <= i < j < g.len() ==> #[trigger] g[i] < #[trigger] g[j]
        &&& forall|s: int| self.valid_state(s) && #[trigger] keep[s] ==> exists|i: int| 0 <= i < g.len() && g[i] == s
        &&& forall|i: int| r.valid_state(i) ==> #[trigger] r.name(i) == self.name(g[i])
        &&& forall|i: int| r.valid_state(i) ==> #[trigger] r.is_start(i) == self.is_start(g[i])
        &&& forall|i: int| r.valid_state(i) ==> #[trigger] r.is_final(i) == self.is_final(g[i])
        &&& forall|i: int, a: int, j: int| r.valid_state(i) && 0 <= a < r.alphabet().len() && r.valid_state(j)
            ==> #[trigger] r.edge(i, a, j) == self.edge(g[i], a, g[j])
        &&& forall|i: int, j: int| r.valid_state(i) && r.valid_state(j) ==> #[trigger] r.eps(i, j) == self.eps(g[i], g[j])
    }

    /// The automaton cut down to the states flagged in `keep`.
    fn restrict(&self, keep: &Vec<bool>) -> (r: EpsilonNFA)
        requires
            self.wf(),
            keep@.len() == self.num_states(),
        ensures
            r.wf(),
            exists|g: Seq<int>| #[trigger] self.restricts(&r, keep@, g),
    {
        let n = self.states.len();
        let k = self.alphabets.len();
        let mut old_of: Vec<usize> = Vec::new();
        let mut s: usize = 0;
        while s < n
            invariant
                s <= n,
                keep@.len() == n,
                forall|i: int| 0 <= i < old_of@.len() ==> (#[trigger] old_of@[i] as int) < s && keep@[old_of@[i] as int],
                forall|i: int, j: int| 0 <= i < j < old_of@.len() ==> #[trigger] old_of@[i] < #[trigger] old_of@[j],
                forall|x: int| 0 <= x < s && #[trigger] keep@[x] ==> exists|i: int| 0 <= i < old_of@.len() && old_of@[i] as int == x,
            decreases n - s,
        {
            let ghost ob = old_of@;
            if keep[s] {
                old_of.push(s);
            }
            proof {
                assert forall|x: int| 0 <= x < s + 1 && #[trigger] keep@[x] implies exists|i: int| 0 <= i < old_of@.len() && old_of@[i] as int == x by {
                    if x < s {
                        let i = choose|i: int| 0 <= i < ob.len() && ob[i] as int == x;
                        assert(old_of@[i] == ob[i]);
                    } else {
                        assert(old_of@[ob.len() as int] as int == x);
                    }
                }
            }
            s = s + 1;
        }
        let m = old_of.len();
        let mut table: Vec<Vec<Vec<bool>>> = Vec::new();
        let mut eps: Vec<Vec<bool>> = Vec::new();
        let mut starts: Vec<bool> = Vec::new();
        let mut finals: Vec<bool> = Vec::new();
        let mut names: Vec<State> = Vec::new();
        let mut i: usize = 0;
        while i < m
            invariant
                self.wf(),
                n == self.num_states(),
                k == self.alphabet().len(),
                m == old_of@.len(),
                forall|q: int| 0 <= q < m ==> (#[trigger] old_of@[q] as int) < n,
                i <= m,
                table@.len() == i,
                eps@.len() == i,
                starts@.len() == i,
                finals@.len() == i,
                names@.len() == i,
                forall|p: int| 0 <= p < i ==> (#[trigger] names@[p])@ == self.name(old_of@[p] as int),
                forall|p: int| 0 <= p < i ==> #[trigger] starts@[p] == self.is_start(old_of@[p] as int),
                forall|p: int| 0 <= p < i ==> #[trigger] finals@[p] == self.is_final(old_of@[p] as int),
                forall|p: int| 0 <= p < i ==> (#[trigger] table@[p])@.len() == k,
                forall|p: int, a: int| 0 <= p < i && 0 <= a < k ==> (#[trigger] table@[p]@[a])@.len() == m,
                forall|p: int, a: int, q: int| 0 <= p < i && 0 <= a < k && 0 <= q < m ==> #[trigger] table@[p]@[a]@[q]
                    == self.edge(old_of@[p] as int, a, old_of@[q] as int),
                forall|p: int| 0 <= p < i ==> (#[trigger] eps@[p])@.len() == m,
                forall|p: int, q: int| 0 <= p < i && 0 <= q < m ==> #[trigger] eps@[p]@[q] == self.eps(old_of@[p] as int, old_of@[q] as int),
            decreases m - i,
        {
            let o = old_of[i];
            let mut row: Vec<Vec<bool>> = Vec::new();
            let mut a: usize = 0;
            while a < k
                invariant
                    self.wf(),
                    n == self.num_states(),
                    k == self.alphabet().len(),
                    m == old_of@.len(),
                    forall|q: int| 0 <= q < m ==> (#[trigger] old_of@[q] as int) < n,
                    (o as int) < n,
                    a <= k,
                    row@.len() == a,
                    forall|b: int| 0 <= b < a ==> (#[trigger] row@[b])@.len() == m,
                    forall|b: int, q: int| 0 <= b < a && 0 <= q < m ==> #[trigger] row@[b]@[q] == self.edge(o as int, b, old_of@[q] as int),
                decreases k - a,
            {
                let mut dest: Vec<bool> = Vec::new();
                let mut q: usize = 0;
                while q < m
                    invariant
                        self.wf(),
                        n == self.num_states(),
                        k == self.alphabet().len(),
                        m == old_of@.len(),
                        forall|x: int| 0 <= x < m ==> (#[trigger] old_of@[x] as int) < n,
                        (o as int) < n,
                        a < k,
                        q <= m,
                        dest@.len() == q,
                        forall|x: int| 0 <= x < q ==> #[trigger] dest@[x] == self.edge(o as int, a as int, old_of@[x] as int),
                    decreases m - q,
                {
                    proof {
                        assert(self.transition_table@[o as int]@.len() == self.alphabets@.len());
                        assert(self.transition_table@[o as int]@[a as int]@.len() == self.states@.len());
                    }
                    dest.push(self.transition_table[o][a][old_of[q]]);
                    q = q + 1;
                }
                row.push(dest);
                a = a + 1;
            }
            let mut erow: Vec<bool> = Vec::new();
            let mut q: usize = 0;
            while q < m
                invariant
                    self.wf(),
                    n == self.num_states(),
                    m == old_of@.len(),
                    forall|x: int| 0 <= x < m ==> (#[trigger] old_of@[x] as int) < n,
                    (o as int) < n,
                    q <= m,
                    erow@.len() == q,
                    forall|x: int| 0 <= x < q ==> #[trigger] erow@[x] == self.eps(o as int, old_of@[x] as int),
                decreases m - q,
            {
                proof {
                    assert(self.epsilon_table@[o as int]@.len() == self.states@.len());
                }
                erow.push(self.epsilon_table[o][old_of[q]]);
                q = q + 1;
            }
            table.push(row);
            eps.push(erow);
            starts.push(self.start_states[o]);
            finals.push(self.final_states[o]);
            names.push(self.states[o].duplicate());
            i = i + 1;
        }
        let r = EpsilonNFA {
            states: names,
            alphabets: copy_vec(&self.alphabets),
            transition_table: table,
            epsilon_table: eps,
            start_states: starts,
            final_states: finals,
        };
        proof {
            assert(r.wf());
            let g = old_of@.map_values(|x: usize| x as int);
            assert forall|p: int| 0 <= p < g.len() implies self.valid_state(#[trigger] g[p]) && keep@[g[p]] by {}
            assert forall|p: int, q: int| 0 <= p < q < g.len() implies #[trigger] g[p] < #[trigger] g[q] by {
                assert(old_of@[p] < old_of@[q]);
            }
            assert forall|x: int| self.valid_state(x) && #[trigger] keep@[x] implies exists|p: int| 0 <= p < g.len() && g[p] == x by {
                let p = choose|p: int| 0 <= p < old_of@.len() && old_of@[p] as int == x;
                assert(g[p] == x);
            }
            assert forall|p: int, a: int, q: int| r.valid_state(p) && 0 <= a < r.alphabet().len() && r.valid_state(q)
                implies #[trigger] r.edge(p, a, q) == self.edge(g[p], a, g[q]) by {
                assert(self.valid_state(g[q]));
            }
            assert forall|p: int, q: int| r.valid_state(p) && r.valid_state(q) implies #[trigger] r.eps(p, q) == self.eps(g[p], g[q]) by {
                assert(self.valid_state(g[q]));
            }
            assert(self.restricts(&r, keep@, g));
        }
        r
    }
}

/// The new positions of the old states in `x`.
pub open spec fn image(g: Seq<int>, x: Set<int>) -> Set<int> {
    Set::new(|i: int| 0 <= i < g.len() && x.contains(g[i]))
}

impl EpsilonNFA {
    /// The start states as flags.
    pub open spec fn start_flags(&self) -> Seq<bool> {
        Seq::new(self.num_states() as nat, |s: int| self.is_start(s))
    }

    /// The accepting states as flags.
    pub open spec fn final_flags(&self) -> Seq<bool> {
        Seq::new(self.num_states() as nat, |s: int| self.is_final(s))
    }

    /// ε-paths of the cut-down automaton are ε-paths of the whole.
    proof fn lemma_eps_down(&self, r: &EpsilonNFA, keep: Seq<bool>, g: Seq<int>, i: int, j: int, k: nat)
        requires
            self.restricts(r, keep, g),
            r.valid_state(i),
            r.valid_state(j),
            r.eps_reach(i, j, k),
        ensures
            self.eps_reach(g[i], g[j], k),
        decreases k,
    {
        if k > 0 {
            if r.eps_reach(i, j, (k - 1) as nat) {
                self.lemma_eps_down(r, keep, g, i, j, (k - 1) as nat);
            } else {
                let u = choose|u: int| r.valid_state(u) && r.eps_reach(i, u, (k - 1) as nat) && #[trigger] r.eps(u, j);
                self.lemma_eps_down(r, keep, g, i, u, (k - 1) as nat);
                assert(self.valid_state(g[u]));
                self.lemma_eps_reach_step(g[i], g[u], g[j], (k - 1) as nat);
            }
        }
    }

    /// ε-paths of the whole automaton that stay among kept states are
    /// ε-paths of the cut-down one: forwards from a kept state when the kept
    /// set is closed forwards, backwards into one when closed backwards.
    proof fn lemma_eps_up(&self, r: &EpsilonNFA, keep: Seq<bool>, g: Seq<int>, forward: bool, x: int, y: int, k: nat)
        requires
            self.wf(),
            self.restricts(r, keep, g),
            self.closed_under(self.set_of(keep), forward),
            self.valid_state(x),
            self.valid_state(y),
            if forward { keep[x] } else { keep[y] },
            self.eps_reach(x, y, k),
        ensures
            keep[x] && keep[y],
            exists|i: int, j: int| 0 <= i < g.len() && 0 <= j < g.len() && g[i] == x && g[j] == y && #[trigger] r.eps_reach(i, j, k),
        decreases k,
    {
        if k == 0 {
            let i = choose|i: int| 0 <= i < g.len() && g[i] == x;
            assert(r.eps_reach(i, i, 0));
        } else {
            if self.eps_reach(x, y, (k - 1) as nat) {
                self.lemma_eps_up(r, keep, g, forward, x, y, (k - 1) as nat);
                let (i, j) = choose|i: int, j: int| 0 <= i < g.len() && 0 <= j < g.len() && g[i] == x && g[j] == y && #[trigger] r.eps_reach(i, j, (k - 1) as nat);
                assert(r.eps_reach(i, j, k));
            } else {
                let u = choose|u: int| self.valid_state(u) && self.eps_reach(x, u, (k - 1) as nat) && #[trigger] self.eps(u, y);
                assert(self.any_edge(u, y));
                if !forward {
                    assert(self.set_of(keep).contains(y));
                    assert(keep[u]);
                }
                self.lemma_eps_up(r, keep, g, forward, x, u, (k - 1) as nat);
                let (i, ju) = choose|i: int, j: int| 0 <= i < g.len() && 0 <= j < g.len() && g[i] == x && g[j] == u && #[trigger] r.eps_reach(i, j, (k - 1) as nat);
                assert(keep[y]);
                let j = choose|j: int| 0 <= j < g.len() && g[j] == y;
                assert(r.eps(ju, j));
                r.lemma_eps_reach_step(i, ju, j, (k - 1) as nat);
            }
        }
    }

    /// Cutting down commutes with ε-closure.
    proof fn lemma_closure_image(&self, r: &EpsilonNFA, keep: Seq<bool>, g: Seq<int>, forward: bool, x: Set<int>)
        requires
            self.wf(),
            self.restricts(r, keep, g),
            self.closed_under(self.set_of(keep), forward),
            forall|s: int| #[trigger] x.contains(s) ==> self.valid_state(s),
            forward ==> forall|s: int| #[trigger] x.contains(s) ==> keep[s],
        ensures
            r.closure(image(g, x)) == image(g, self.closure(x)),
            forward ==> forall|t: int| #[trigger] self.closure(x).contains(t) ==> keep[t],
    {
        assert forall|t: int| r.closure(image(g, x)).contains(t) implies image(g, self.closure(x)).contains(t) by {
            let (i, k) = choose|i: int, k: nat| image(g, x).contains(i) && #[trigger] r.eps_reach(i, t, k);
            self.lemma_eps_down(r, keep, g, i, t, k);
        }
        assert forall|t: int| image(g, self.closure(x)).contains(t) implies r.closure(image(g, x)).contains(t) by {
            let (s, k) = choose|s: int, k: nat| x.contains(s) && #[trigger] self.eps_reach(s, g[t], k);
            self.lemma_eps_up(r, keep, g, forward, s, g[t], k);
            let (i, j) = choose|i: int, j: int| 0 <= i < g.len() && 0 <= j < g.len() && g[i] == s && g[j] == g[t] && #[trigger] r.eps_reach(i, j, k);
            assert(j == t) by {
                if j < t { assert(g[j] < g[t]); } else if t < j { assert(g[t] < g[j]); }
            }
            assert(image(g, x).contains(i));
        }
        assert(r.closure(image(g, x)) =~= image(g, self.closure(x)));
        if forward {
            assert forall|t: int| #[trigger] self.closure(x).contains(t) implies keep[t] by {
                let (s, k) = choose|s: int, k: nat| x.contains(s) && #[trigger] self.eps_reach(s, t, k);
                self.lemma_eps_up(r, keep, g, forward, s, t, k);
            }
        }
    }

    /// Cutting down commutes with taking the destinations on a symbol.
    proof fn lemma_post_image(&self, r: &EpsilonNFA, keep: Seq<bool>, g: Seq<int>, forward: bool, x: Set<int>, c: char)
        requires
            self.wf(),
            self.restricts(r, keep, g),
            self.closed_under(self.set_of(keep), forward),
            self.alphabet().contains(c),
            forall|s: int| #[trigger] x.contains(s) ==> self.valid_state(s),
            forward ==> forall|s: int| #[trigger] x.contains(s) ==> keep[s],
        ensures
            r.post(image(g, x), c) == image(g, self.post(x, c)),
            forward ==> forall|t: int| #[trigger] self.post(x, c).contains(t) ==> keep[t],
    {
        crate::dfa::lemma_index_of_contained(self.alphabet(), c);
        let a = self.alphabet().index_of(c);
        assert forall|t: int| r.post(image(g, x), c).contains(t) implies image(g, self.post(x, c)).contains(t) by {
            let i = choose|i: int| image(g, x).contains(i) && #[trigger] r.edge(i, r.alphabet().index_of(c), t);
            assert(self.edge(g[i], a, g[t]));
        }
        assert forall|t: int| image(g, self.post(x, c)).contains(t) implies r.post(image(g, x), c).contains(t) by {
            let s = choose|s: int| x.contains(s) && #[trigger] self.edge(s, self.alphabet().index_of(c), g[t]);
            assert(self.any_edge(s, g[t]));
            if !forward {
                assert(self.set_of(keep).contains(g[t]));
            }
            assert(keep[s]);
            let i = choose|i: int| 0 <= i < g.len() && g[i] == s;
            assert(r.edge(i, a, t));
        }
        assert(r.post(image(g, x), c) =~= image(g, self.post(x, c)));
        if forward {
            assert forall|t: int| #[trigger] self.post(x, c).contains(t) implies keep[t] by {
                let s = choose|s: int| x.contains(s) && #[trigger] self.edge(s, a, t);
                assert(self.any_edge(s, t));
                assert(self.set_of(keep).contains(s));
            }
        }
    }
}

impl EpsilonNFA {
    /// Cutting down to a closed set keeps what each word reaches.
    proof fn lemma_restrict_reach(&self, r: &EpsilonNFA, keep: Seq<bool>, g: Seq<int>, forward: bool, w: Seq<char>)
        requires
            self.wf(),
            self.restricts(r, keep, g),
            self.closed_under(self.set_of(keep), forward),
            forward ==> forall|s: int| self.valid_state(s) && #[trigger] self.is_start(s) ==> keep[s],
            self.in_alphabet(w),
        ensures
            r.reach(w) == image(g, self.reach(w)),
            forall|t: int| #[trigger] self.reach(w).contains(t) ==> self.valid_state(t),
            forward ==> forall|t: int| #[trigger] self.reach(w).contains(t) ==> keep[t],
        decreases w.len(),
    {
        if w.len() == 0 {
            assert(r.starts() =~= image(g, self.starts()));
            self.lemma_closure_image(r, keep, g, forward, self.starts());
        } else {
            let u = w.drop_last();
            let c = w.last();
            assert forall|i: int| 0 <= i < u.len() implies self.alphabet().contains(#[trigger] u[i]) by {
                assert(u[i] == w[i]);
            }
            self.lemma_restrict_reach(r, keep, g, forward, u);
            assert(self.alphabet().contains(w[w.len() - 1]));
            self.lemma_post_image(r, keep, g, forward, self.reach(u), c);
            self.lemma_closure_image(r, keep, g, forward, self.post(self.reach(u), c));
        }
    }

    /// Cutting down to a set that is closed forwards and holds the start
    /// states, or closed backwards and holds the accepting states, keeps the
    /// language.
    proof fn lemma_restrict_accepts(&self, r: &EpsilonNFA, keep: Seq<bool>, g: Seq<int>, forward: bool)
        requires
            self.wf(),
            self.restricts(r, keep, g),
            self.closed_under(self.set_of(keep), forward),
            forward ==> forall|s: int| self.valid_state(s) && #[trigger] self.is_start(s) ==> keep[s],
            !forward ==> forall|s: int| self.valid_state(s) && #[trigger] self.is_final(s) ==> keep[s],
        ensures
            forall|w: Seq<char>| #[trigger] r.accepts_word(w) == self.accepts_word(w),
    {
        assert forall|w: Seq<char>| #[trigger] r.accepts_word(w) == self.accepts_word(w) by {
            if self.in_alphabet(w) {
                self.lemma_restrict_reach(r, keep, g, forward, w);
                if self.accepts_word(w) {
                    let t = choose|t: int| #[trigger] self.reach(w).contains(t) && self.is_final(t);
                    assert(keep[t]);
                    let i = choose|i: int| 0 <= i < g.len() && g[i] == t;
                    assert(r.reach(w).contains(i) && r.is_final(i));
                }
                if r.accepts_word(w) {
                    let i = choose|i: int| #[trigger] r.reach(w).contains(i) && r.is_final(i);
                    assert(self.reach(w).contains(g[i]) && self.is_final(g[i]));
                }
            }
        }
    }

    /// Keeps only the states connected to the flagged `start_states`: those
    /// they reach along the transition table (`forward`) or along the
    /// reversed table. Seeded with the start states forwards, or with the
    /// accepting states backwards, the language is unchanged.
    fn remove_unreachable_states_with_custom_start_states_and_transition_table(
        &mut self,
        start_states: &Vec<bool>,
        forward: bool,
    )
        requires
            old(self).wf(),
            start_states@.len() == old(self).num_states(),
        ensures
            final(self).wf(),
            exists|keep: Seq<bool>, g: Seq<int>| #[trigger] old(self).restricts(final(self), keep, g)
                && forall|s: int| old(self).valid_state(s) ==> (keep[s] <==> old(self).connected(start_states@, s, forward)),
            (forward && start_states@ == old(self).start_flags()) || (!forward && start_states@ == old(self).final_flags())
                ==> forall|w: Seq<char>| #[trigger] final(self).accepts_word(w) == old(self).accepts_word(w),
    {
        let ghost d0 = *self;
        let keep = self.mark_connected(start_states, forward);
        proof {
            assert forall|s: int| d0.valid_state(s) implies (keep@[s] <==> d0.connected(start_states@, s, forward)) by {
                if d0.connected(start_states@, s, forward) {
                    if forward {
                        let (s0, k) = choose|s0: int, k: nat| d0.valid_state(s0) && start_states@[s0] && #[trigger] d0.linked(s0, s, k);
                        d0.lemma_forward_closed(d0.set_of(keep@), s0, s, k);
                    } else {
                        let (s0, k) = choose|s0: int, k: nat| d0.valid_state(s0) && start_states@[s0] && #[trigger] d0.linked(s, s0, k);
                        d0.lemma_backward_closed(d0.set_of(keep@), s, s0, k);
                    }
                }
            }
        }
        let r = self.restrict(&keep);
        proof {
            let g = choose|g: Seq<int>| #[trigger] d0.restricts(&r, keep@, g);
            if (forward && start_states@ == d0.start_flags()) || (!forward && start_states@ == d0.final_flags()) {
                assert forall|s: int| d0.valid_state(s) && #[trigger] d0.is_start(s) && forward implies keep@[s] by {
                    if forward {
                        assert(start_states@[s] == d0.start_flags()[s]);
                    }
                }
                assert forall|s: int| d0.valid_state(s) && #[trigger] d0.is_final(s) && !forward implies keep@[s] by {
                    if !forward {
                        assert(start_states@[s] == d0.final_flags()[s]);
                    }
                }
                d0.lemma_restrict_accepts(&r, keep@, g, forward);
            }
        }
        *self = r;
    }

    /// Deletes the states that no path reaches from a start state, with
    /// their transitions; the language is unchanged.
    pub fn remove_unreachable_states(&mut self)
        requires
            old(self).wf(),
        ensures
            final(self).wf(),
            exists|keep: Seq<bool>, g: Seq<int>| #[trigger] old(self).restricts(final(self), keep, g)
                && forall|s: int| old(self).valid_state(s) ==> (keep[s] <==> old(self).connected(old(self).start_flags(), s, true)),
            forall|w: Seq<char>| #[trigger] final(self).accepts_word(w) == old(self).accepts_word(w),
    {
        let seeds = copy_vec(&self.start_states);
        assert(seeds@ =~= self.start_flags());
        self.remove_unreachable_states_with_custom_start_states_and_transition_table(&seeds, true);
    }

    /// Deletes the states from which no path leads to an accepting state,
    /// with their transitions; the language is unchanged.
    pub fn remove_trapped_states(&mut self)
        requires
            old(self).wf(),
        ensures
            final(self).wf(),
            exists|keep: Seq<bool>, g: Seq<int>| #[trigger] old(self).restricts(final(self), keep, g)
                && forall|s: int| old(self).valid_state(s) ==> (keep[s] <==> old(self).connected(old(self).final_flags(), s, false)),
            forall|w: Seq<char>| #[trigger] final(self).accepts_word(w) == old(self).accepts_word(w),
    {
        let seeds = copy_vec(&self.final_states);
        assert(seeds@ =~= self.final_flags());
        self.remove_unreachable_states_with_custom_start_states_and_transition_table(&seeds, false);
    }
}

} // verus!
