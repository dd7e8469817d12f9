use vstd::prelude::*;

use super::minimize::lemma_morphism_distinguish;
use super::{copy_vec, lemma_index_of_unique, lemma_mark, num_unmarked, DFA};
use crate::constants::DEFAULT_STATE_SYMBOL;
use crate::language::{is_isomorphism, is_morphism, isomorphic, lemma_morphism_accepts, lemma_morphism_live, lemma_morphism_run};
use crate::utils::State;

verus! {

/// A duplicate-free list of positions below `n` that holds each of them has
/// length `n`.
pub proof fn lemma_perm_len(p: Seq<usize>, n: nat)
    requires
        n <= usize::MAX,
        p.no_duplicates(),
        forall|i: int| 0 <= i < p.len() ==> (p[i] as int) < n,
        forall|x: usize| (x as int) < n ==> p.contains(x),
    ensures
        p.len() == n,
{
    let q = p.map_values(|x: usize| x as int);
    assert(q.no_duplicates()) by {
        assert forall|i: int, j: int| 0 <= i < q.len() && 0 <= j < q.len() && i != j implies q[i] != q[j] by {
            assert(p[i] != p[j]);
        }
    }
    assert forall|x: int| q.to_set().contains(x) <==> vstd::set_lib::set_int_range(0, n as int).contains(x) by {
        if 0 <= x < n {
            assert(p.contains(x as usize));
            let i = choose|i: int| 0 <= i < p.len() && p[i] == x as usize;
            assert(q[i] == x);
            assert(q.contains(x));
        }
        if q.contains(x) {
            let i = choose|i: int| 0 <= i < q.len() && q[i] == x;
            assert(p[i] as int == x);
        }
    }
    assert(q.to_set() =~= vstd::set_lib::set_int_range(0, n as int));
    q.unique_seq_to_set();
    vstd::set_lib::lemma_int_range(0, n as int);
}

impl DFA {
    /// `t` is reached from `s` by at most `k` transitions.
    pub open spec fn steps(&self, s: int, t: int, k: nat) -> bool
        decreases k,
    {
        if k == 0 {
            s == t
        } else {
            self.steps(s, t, (k - 1) as nat) || exists|u: int|
                self.valid_state(u) && self.steps(s, u, (k - 1) as nat) && #[trigger] self.has_edge(u, t)
        }
    }

    /// Some transition leads from `u` to `t`.
    pub open spec fn has_edge(&self, u: int, t: int) -> bool {
        exists|a: int| 0 <= a < self.alphabet().len() && #[trigger] self.next(u, a) == t
    }

    /// Some path of transitions leads from `s` to `t`.
    pub open spec fn leads_to(&self, s: int, t: int) -> bool {
        exists|k: nat| #[trigger] self.steps(s, t, k)
    }

    /// One more transition extends a path.
    pub proof fn lemma_steps_extend(&self, s: int, u: int, a: int, k: nat)
        requires
            self.valid_state(u),
            0 <= a < self.alphabet().len(),
            self.steps(s, u, k),
        ensures
            self.steps(s, self.next(u, a), k + 1),
            self.leads_to(s, self.next(u, a)),
    {
        let t = self.next(u, a);
        assert(self.has_edge(u, t));
        assert(self.steps(s, t, (k + 1) as nat) == (self.steps(s, t, k) || exists|v: int|
            self.valid_state(v) && self.steps(s, v, k) && #[trigger] self.has_edge(v, t)));
        assert(self.steps(s, t, (k + 1) as nat));
    }

    /// In a list of finished states, each transition out of a state leads to
    /// a state listed before it, or to a state with a path back to it.
    pub open spec fn finish_order_ok(&self, st: Seq<usize>) -> bool {
        forall|p: int, a: int|
            0 <= p < st.len() && 0 <= a < self.alphabet().len() ==> (exists|q: int|
                0 <= q < p && st[q] as int == #[trigger] self.next(st[p] as int, a)) || self.leads_to(
                self.next(st[p] as int, a),
                st[p] as int,
            )
    }
}

impl DFA {
    /// `order` lists every state once, and a transition leads to a later
    /// state unless a path leads back from its target to its source.
    pub open spec fn dfs_order(&self, order: Seq<usize>) -> bool {
        &&& order.len() == self.num_states()
        &&& order.no_duplicates()
        &&& forall|i: int| 0 <= i < order.len() ==> (#[trigger] order[i] as int) < self.num_states()
        &&& forall|x: usize| (x as int) < self.num_states() ==> order.contains(x)
        &&& forall|i: int, j: int, a: int|
            #![trigger self.next(order[i] as int, a), order[j]]
            0 <= i < order.len() && 0 <= j < order.len() && 0 <= a < self.alphabet().len() && self.next(order[i] as int, a)
                == order[j] as int ==> i < j || self.leads_to(order[j] as int, order[i] as int)
    }

    /// The destinations of the transitions out of `s`, one per symbol.
    fn get_adjacent_states(&self, s: usize) -> (r: Vec<usize>)
        requires
            self.wf(),
            self.valid_state(s as int),
        ensures
            r@.len() == self.alphabet().len(),
            forall|a: int| 0 <= a < r@.len() ==> #[trigger] r@[a] as int == self.next(s as int, a),
    {
        let mut r: Vec<usize> = Vec::new();
        let mut a: usize = 0;
        while a < self.alphabets.len()
            invariant
                self.wf(),
                self.valid_state(s as int),
                a <= self.alphabet().len(),
                r@.len() == a,
                forall|b: int| 0 <= b < a ==> #[trigger] r@[b] as int == self.next(s as int, b),
            decreases self.alphabet().len() - a,
        {
            r.push(self.transition_table[s][a]);
            a = a + 1;
        }
        r
    }

    /// Depth-first search from `s`: marks what it visits and appends each
    /// state to `stack` once all of its successors are done.
    fn dfs(&self, s: usize, visited: &mut Vec<bool>, stack: &mut Vec<usize>)
        requires
            self.wf(),
            self.valid_state(s as int),
            old(visited)@.len() == self.num_states(),
            !old(visited)@[s as int],
            old(stack)@.no_duplicates(),
            forall|j: int| 0 <= j < old(stack)@.len() ==> (#[trigger] old(stack)@[j] as int) < self.num_states()
                && old(visited)@[old(stack)@[j] as int],
            forall|u: int| 0 <= u < self.num_states() && #[trigger] old(visited)@[u] && !old(stack)@.contains(u as usize)
                ==> self.leads_to(u, s as int),
            self.finish_order_ok(old(stack)@),
        ensures
            self.finish_order_ok(final(stack)@),
            final(visited)@.len() == self.num_states(),
            final(visited)@[s as int],
            forall|x: int| 0 <= x < self.num_states() && old(visited)@[x] ==> #[trigger] final(visited)@[x],
            final(stack)@.len() >= old(stack)@.len(),
            final(stack)@.subrange(0, old(stack)@.len() as int) == old(stack)@,
            final(stack)@.no_duplicates(),
            forall|j: int| old(stack)@.len() <= j < final(stack)@.len() ==> (#[trigger] final(stack)@[j] as int) < self.num_states()
                && final(visited)@[final(stack)@[j] as int] && !old(visited)@[final(stack)@[j] as int],
            forall|x: int| 0 <= x < self.num_states() && #[trigger] final(visited)@[x] && !old(visited)@[x] ==> final(stack)@.contains(x as usize),
            num_unmarked(final(visited)@) < num_unmarked(old(visited)@),
        decreases num_unmarked(old(visited)@),
    {
        let ghost v0 = visited@;
        let ghost s0 = stack@;
        proof {
            lemma_mark(visited@, s as int);
        }
        visited.set(s, true);
        proof {
            assert(self.steps(s as int, s as int, 0));
            assert forall|u: int| 0 <= u < self.num_states() && #[trigger] visited@[u] && !stack@.contains(u as usize)
                implies self.leads_to(u, s as int) by {
                if u == s {
                    assert(self.steps(u, s as int, 0));
                } else {
                    assert(v0[u]);
                }
            }
        }
        let adjacent = self.get_adjacent_states(s);
        let mut i: usize = 0;
        while i < adjacent.len()
            invariant
                self.wf(),
                self.valid_state(s as int),
                adjacent@.len() == self.alphabet().len(),
                forall|a: int| 0 <= a < adjacent@.len() ==> #[trigger] adjacent@[a] as int == self.next(s as int, a),
                i <= adjacent@.len(),
                v0 == old(visited)@,
                v0.len() == self.num_states(),
                !v0[s as int],
                s0.no_duplicates(),
                forall|j: int| 0 <= j < s0.len() ==> (#[trigger] s0[j] as int) < self.num_states() && v0[s0[j] as int],
                visited@.len() == self.num_states(),
                visited@[s as int],
                forall|x: int| 0 <= x < self.num_states() && v0[x] ==> #[trigger] visited@[x],
                stack@.len() >= s0.len(),
                stack@.subrange(0, s0.len() as int) == s0,
                stack@.no_duplicates(),
                forall|j: int| s0.len() <= j < stack@.len() ==> (#[trigger] stack@[j] as int) < self.num_states()
                    && visited@[stack@[j] as int] && !v0[stack@[j] as int] && stack@[j] != s,
                forall|x: int| 0 <= x < self.num_states() && #[trigger] visited@[x] && !v0[x] && x != s ==> stack@.contains(x as usize),
                num_unmarked(visited@) < num_unmarked(v0),
                forall|u: int| 0 <= u < self.num_states() && #[trigger] visited@[u] && !stack@.contains(u as usize)
                    ==> self.leads_to(u, s as int),
                self.finish_order_ok(stack@),
                forall|b: int| 0 <= b < i ==> visited@[#[trigger] self.next(s as int, b)],
            decreases adjacent@.len() - i,
        {
            let t = adjacent[i];
            proof {
                assert(self.valid_state(self.next(s as int, i as int)));
            }
            if !visited[t] {
                let ghost v1 = visited@;
                let ghost s1 = stack@;
                proof {
                    assert forall|j: int| 0 <= j < s1.len() implies (#[trigger] s1[j] as int) < self.num_states()
                        && v1[s1[j] as int] by {
                        if j < s0.len() {
                            assert(s1[j] == s0[j]);
                        }
                    }
                    assert forall|u: int| 0 <= u < self.num_states() && #[trigger] v1[u] && !s1.contains(u as usize)
                        implies self.leads_to(u, t as int) by {
                        assert(self.leads_to(u, s as int));
                        let k = choose|k: nat| #[trigger] self.steps(u, s as int, k);
                        self.lemma_steps_extend(u, s as int, i as int, k);
                    }
                }
                self.dfs(t, visited, stack);
                proof {
                    assert forall|j: int| 0 <= j < s0.len() implies stack@[j] == s0[j] by {
                        assert(stack@.subrange(0, s1.len() as int)[j] == s1[j]);
                        assert(s1.subrange(0, s0.len() as int)[j] == s0[j]);
                    }
                    assert(stack@.subrange(0, s0.len() as int) =~= s0);
                    assert forall|j: int| s0.len() <= j < stack@.len() implies (#[trigger] stack@[j] as int) < self.num_states()
                        && visited@[stack@[j] as int] && !v0[stack@[j] as int] && stack@[j] != s by {
                        if j < s1.len() {
                            assert(stack@.subrange(0, s1.len() as int)[j] == s1[j]);
                        }
                    }
                    assert forall|x: int| 0 <= x < self.num_states() && #[trigger] visited@[x] && !v0[x] && x != s implies stack@.contains(x as usize) by {
                        if v1[x] {
                            let j = choose|j: int| 0 <= j < s1.len() && s1[j] == x as usize;
                            assert(stack@.subrange(0, s1.len() as int)[j] == s1[j]);
                            assert(stack@[j] == x as usize);
                        }
                    }
                    assert forall|u: int| 0 <= u < self.num_states() && #[trigger] visited@[u] && !stack@.contains(u as usize)
                        implies self.leads_to(u, s as int) by {
                        if v1[u] {
                            if s1.contains(u as usize) {
                                let j = choose|j: int| 0 <= j < s1.len() && s1[j] == u as usize;
                                assert(stack@.subrange(0, s1.len() as int)[j] == s1[j]);
                                assert(stack@[j] == u as usize);
                            }
                        }
                    }
                    assert forall|b: int| 0 <= b < i + 1 implies visited@[#[trigger] self.next(s as int, b)] by {
                        if b < i {
                            assert(v1[self.next(s as int, b)]);
                            assert(self.valid_state(self.next(s as int, b)));
                        }
                    }
                }
            }
            i = i + 1;
        }
        let ghost s2 = stack@;
        stack.push(s);
        proof {
            assert(stack@[stack@.len() - 1] == s);
            assert(!s2.contains(s)) by {
                if s2.contains(s) {
                    let j = choose|j: int| 0 <= j < s2.len() && s2[j] == s;
                    if j < s0.len() {
                        assert(s2.subrange(0, s0.len() as int)[j] == s0[j]);
                    }
                }
            }
            assert forall|a: int, b: int| 0 <= a < stack@.len() && 0 <= b < stack@.len() && a != b implies stack@[a] != stack@[b] by {
                if a < s2.len() && b < s2.len() {
                    assert(stack@[a] == s2[a] && stack@[b] == s2[b]);
                } else if a < s2.len() {
                    assert(s2.contains(s2[a]));
                    assert(stack@[a] == s2[a]);
                } else if b < s2.len() {
                    assert(stack@[b] == s2[b]);
                }
            }
            assert forall|j: int| 0 <= j < s0.len() implies stack@[j] == s0[j] by {
                assert(s2.subrange(0, s0.len() as int)[j] == s0[j]);
            }
            assert(stack@.subrange(0, s0.len() as int) =~= s0);
            assert forall|x: int| 0 <= x < self.num_states() && #[trigger] visited@[x] && !v0[x] implies stack@.contains(x as usize) by {
                if x != s {
                    let j = choose|j: int| 0 <= j < s2.len() && s2[j] == x as usize;
                    assert(stack@[j] == x as usize);
                }
            }
            assert forall|p: int, a: int|
                0 <= p < stack@.len() && 0 <= a < self.alphabet().len() implies (exists|q: int|
                    0 <= q < p && stack@[q] as int == #[trigger] self.next(stack@[p] as int, a)) || self.leads_to(
                    self.next(stack@[p] as int, a),
                    stack@[p] as int,
                ) by {
                if p < s2.len() {
                    assert(stack@[p] == s2[p]);
                    if exists|q: int| 0 <= q < p && s2[q] as int == #[trigger] self.next(s2[p] as int, a) {
                        let q = choose|q: int| 0 <= q < p && s2[q] as int == #[trigger] self.next(s2[p] as int, a);
                        assert(stack@[q] == s2[q]);
                    }
                } else {
                    let y = self.next(s as int, a);
                    assert(stack@[p] == s);
                    assert(visited@[y]);
                    if s2.contains(y as usize) {
                        let q = choose|q: int| 0 <= q < s2.len() && s2[q] == y as usize;
                        assert(stack@[q] == s2[q]);
                    } else if y == s {
                        assert(self.steps(y, s as int, 0));
                    } else {
                        assert(!stack@.contains(y as usize)) by {
                            if stack@.contains(y as usize) {
                                let q = choose|q: int| 0 <= q < stack@.len() && stack@[q] == y as usize;
                                if q < s2.len() {
                                    assert(s2[q] == y as usize);
                                }
                            }
                        }
                        assert(self.valid_state(y));
                    }
                }
            }
        }
    }

    /// The states as positions, in depth-first finishing order reversed: a
    /// permutation of all the states.
    fn topological_order(&self) -> (r: Vec<usize>)
        requires
            self.wf(),
        ensures
            self.dfs_order(r@),
    {
        let n = self.states.len();
        let mut visited: Vec<bool> = Vec::new();
        let mut p: usize = 0;
        while p < n
            invariant
                p <= n,
                visited@.len() == p,
                forall|i: int| 0 <= i < p ==> !visited@[i],
            decreases n - p,
        {
            visited.push(false);
            p = p + 1;
        }
        let mut stack: Vec<usize> = Vec::new();
        let mut s: usize = 0;
        while s < n
            invariant
                self.wf(),
                n == self.num_states(),
                s <= n,
                visited@.len() == n,
                stack@.no_duplicates(),
                forall|j: int| 0 <= j < stack@.len() ==> (#[trigger] stack@[j] as int) < n && visited@[stack@[j] as int],
                forall|x: int| 0 <= x < n && #[trigger] visited@[x] ==> stack@.contains(x as usize),
                forall|x: int| 0 <= x < s ==> #[trigger] visited@[x],
                self.finish_order_ok(stack@),
            decreases n - s,
        {
            if !visited[s] {
                let ghost v1 = visited@;
                let ghost s1 = stack@;
                self.dfs(s, &mut visited, &mut stack);
                proof {
                    assert forall|x: int| 0 <= x < n && #[trigger] visited@[x] implies stack@.contains(x as usize) by {
                        if v1[x] {
                            let j = choose|j: int| 0 <= j < s1.len() && s1[j] == x as usize;
                            assert(stack@.subrange(0, s1.len() as int)[j] == s1[j]);
                            assert(stack@[j] == x as usize);
                        }
                    }
                    assert forall|j: int| 0 <= j < stack@.len() implies (#[trigger] stack@[j] as int) < n && visited@[stack@[j] as int] by {
                        if j < s1.len() {
                            assert(stack@.subrange(0, s1.len() as int)[j] == s1[j]);
                        }
                    }
                }
            }
            s = s + 1;
        }
        let mut r: Vec<usize> = Vec::new();
        let mut j: usize = stack.len();
        while j > 0
            invariant
                j <= stack@.len(),
                r@.len() == stack@.len() - j,
                forall|i: int| 0 <= i < r@.len() ==> #[trigger] r@[i] == stack@[stack@.len() - 1 - i],
            decreases j,
        {
            j = j - 1;
            r.push(stack[j]);
        }
        proof {
            assert(r@ =~= stack@.reverse());
            assert forall|a: int, b: int| 0 <= a < r@.len() && 0 <= b < r@.len() && a != b implies r@[a] != r@[b] by {
                assert(r@[a] == stack@[stack@.len() - 1 - a]);
                assert(r@[b] == stack@[stack@.len() - 1 - b]);
            }
            assert forall|x: usize| (x as int) < n implies r@.contains(x) by {
                assert(visited@[x as int]);
                assert(stack@.contains(x));
                let i = choose|i: int| 0 <= i < stack@.len() && stack@[i] == x;
                assert(r@[stack@.len() - 1 - i] == x);
            }
            assert forall|i: int| 0 <= i < r@.len() implies (#[trigger] r@[i] as int) < n by {
                assert(r@[i] == stack@[stack@.len() - 1 - i]);
            }
            lemma_perm_len(r@, n as nat);
            assert forall|i: int, j: int, a: int|
                #![trigger self.next(r@[i] as int, a), r@[j]]
                0 <= i < r@.len() && 0 <= j < r@.len() && 0 <= a < self.alphabet().len() && self.next(r@[i] as int, a)
                    == r@[j] as int implies i < j || self.leads_to(r@[j] as int, r@[i] as int) by {
                let len = stack@.len() as int;
                let p = len - 1 - i;
                assert(r@[i] == stack@[p]);
                assert(r@[j] == stack@[len - 1 - j]);
                if exists|q: int| 0 <= q < p && stack@[q] as int == #[trigger] self.next(stack@[p] as int, a) {
                    let q = choose|q: int| 0 <= q < p && stack@[q] as int == #[trigger] self.next(stack@[p] as int, a);
                    assert(stack@[q] == stack@[len - 1 - j]);
                    if q != len - 1 - j {
                        assert(stack@.no_duplicates());
                    }
                }
            }
        }
        r
    }

    /// The states, in the order of a depth-first traversal's finishing times
    /// reversed; each state comes once. A transition leads to a later state
    /// unless a path leads back from its target: on an acyclic automaton the
    /// order is topological.
    pub fn get_topologically_sorted(&self) -> (r: Vec<State>)
        requires
            self.wf(),
        ensures
            r@.len() == self.num_states(),
            exists|order: Seq<usize>| #![trigger order.len()]
                order.len() == self.num_states() && order.no_duplicates() && (forall|i: int|
                    0 <= i < order.len() ==> (#[trigger] order[i] as int) < self.num_states() && r@[i]@ == self.name(
                        order[i] as int,
                    )) && (forall|i: int, j: int, a: int|
                    #![trigger self.next(order[i] as int, a), order[j]]
                    0 <= i < order.len() && 0 <= j < order.len() && 0 <= a < self.alphabet().len() && self.next(order[i] as int, a)
                        == order[j] as int ==> i < j || self.leads_to(order[j] as int, order[i] as int)),
    {
        let order = self.topological_order();
        let mut r: Vec<State> = Vec::new();
        let mut i: usize = 0;
        while i < order.len()
            invariant
                self.wf(),
                order@.len() == self.num_states(),
                forall|j: int| 0 <= j < order@.len() ==> (#[trigger] order@[j] as int) < self.num_states(),
                i <= order@.len(),
                r@.len() == i,
                forall|j: int| 0 <= j < i ==> (#[trigger] r@[j])@ == self.name(order@[j] as int),
            decreases order@.len() - i,
        {
            r.push(self.states[order[i]].duplicate());
            i = i + 1;
        }
        assert(order@.len() == self.num_states());
        r
    }
}

impl DFA {
    /// The canonical shape that renaming leaves: state `i` is named
    /// `DEFAULT_STATE_SYMBOL` `i`, the start state comes first, and among the
    /// others no trapped state comes before a state that is not trapped.
    pub open spec fn canonical(&self) -> bool {
        &&& self.start() == 0
        &&& forall|i: int| self.valid_state(i) ==> #[trigger] self.name(i) == seq![(DEFAULT_STATE_SYMBOL, i as usize)]
        &&& forall|i: int, j: int|
            1 <= i < j < self.num_states() && #[trigger] self.is_trapped(i) ==> #[trigger] self.is_trapped(j)
    }

    /// The entries of `order` other than `start` whose trapped status is
    /// `want`, in the order of `order`.
    fn filter_order(&self, order: &Vec<usize>, start: usize, want: bool) -> (r: Vec<usize>)
        requires
            self.wf(),
            order@.no_duplicates(),
            forall|i: int| 0 <= i < order@.len() ==> (#[trigger] order@[i] as int) < self.num_states(),
        ensures
            r@.no_duplicates(),
            forall|i: int| 0 <= i < r@.len() ==> (#[trigger] r@[i] as int) < self.num_states() && r@[i] != start
                && self.is_trapped(r@[i] as int) == want && order@.contains(r@[i]),
            forall|x: usize| order@.contains(x) && x != start && self.is_trapped(x as int) == want ==> r@.contains(x),
            forall|i: int, k: int| 0 <= i < k < r@.len() ==> order@.index_of(#[trigger] r@[i]) < order@.index_of(#[trigger] r@[k]),
    {
        let mut r: Vec<usize> = Vec::new();
        let mut j: usize = 0;
        while j < order.len()
            invariant
                self.wf(),
                order@.no_duplicates(),
                forall|i: int| 0 <= i < order@.len() ==> (#[trigger] order@[i] as int) < self.num_states(),
                j <= order@.len(),
                forall|i: int| 0 <= i < r@.len() ==> (#[trigger] r@[i] as int) < self.num_states() && r@[i] != start
                    && self.is_trapped(r@[i] as int) == want && order@.contains(r@[i]) && order@.index_of(r@[i]) < j,
                forall|i: int, k: int| 0 <= i < k < r@.len() ==> order@.index_of(#[trigger] r@[i]) < order@.index_of(#[trigger] r@[k]),
                forall|q: int| 0 <= q < j && order@[q] != start && self.is_trapped(order@[q] as int) == want ==> r@.contains(#[trigger] order@[q]),
            decreases order@.len() - j,
        {
            let o = order[j];
            if o != start && self.trapped_states[o] == want {
                let ghost rb = r@;
                proof {
                    lemma_index_of_unique(order@, j as int);
                }
                r.push(o);
                proof {
                    assert forall|q: int| 0 <= q < j + 1 && order@[q] != start && self.is_trapped(order@[q] as int) == want implies r@.contains(#[trigger] order@[q]) by {
                        if q < j {
                            let i = choose|i: int| 0 <= i < rb.len() && rb[i] == order@[q];
                            assert(r@[i] == order@[q]);
                        } else {
                            assert(r@[rb.len() as int] == order@[q]);
                        }
                    }
                    assert forall|i: int, k: int| 0 <= i < k < r@.len() implies order@.index_of(#[trigger] r@[i]) < order@.index_of(#[trigger] r@[k]) by {
                        assert(r@[i] == rb[i]);
                        if k < rb.len() {
                            assert(r@[k] == rb[k]);
                        }
                    }
                }
            }
            j = j + 1;
        }
        proof {
            assert forall|x: usize| order@.contains(x) && x != start && self.is_trapped(x as int) == want implies r@.contains(x) by {
                let q = choose|q: int| 0 <= q < order@.len() && order@[q] == x;
                assert(r@.contains(order@[q]));
            }
            assert(r@.no_duplicates()) by {
                assert forall|a: int, b: int| 0 <= a < r@.len() && 0 <= b < r@.len() && a != b implies r@[a] != r@[b] by {
                    if a < b {
                        assert(order@.index_of(r@[a]) < order@.index_of(r@[b]));
                    } else {
                        assert(order@.index_of(r@[b]) < order@.index_of(r@[a]));
                    }
                }
            }
        }
        r
    }

    /// The states in their canonical order, and the position of each state
    /// in it, with the depth-first order that breaks ties.
    fn canonical_order(&self) -> (r: (Vec<usize>, Vec<usize>, Ghost<Seq<usize>>))
        requires
            self.wf(),
        ensures
            r.0@.len() == self.num_states(),
            r.1@.len() == self.num_states(),
            forall|i: int| 0 <= i < self.num_states() ==> (#[trigger] r.0@[i] as int) < self.num_states(),
            forall|x: int| 0 <= x < self.num_states() ==> (#[trigger] r.1@[x] as int) < self.num_states()
                && r.0@[r.1@[x] as int] as int == x,
            forall|i: int| 0 <= i < self.num_states() ==> #[trigger] r.1@[r.0@[i] as int] == i,
            r.0@[0] as int == self.start(),
            forall|i: int, j: int| 1 <= i < j < self.num_states() && #[trigger] self.is_trapped(r.0@[i] as int)
                ==> #[trigger] self.is_trapped(r.0@[j] as int),
            self.dfs_order(r.2@),
            forall|x: int, y: int|
                #![trigger r.1@[x], r.1@[y]]
                self.valid_state(x) && self.valid_state(y) && x != self.start() && y != self.start()
                    && self.is_trapped(x) == self.is_trapped(y) ==> (r.1@[x] < r.1@[y] <==> r.2@.index_of(x as usize)
                    < r.2@.index_of(y as usize)),
    {
        let n = self.states.len();
        let order = self.topological_order();
        let start = self.start_state;
        let untrapped = self.filter_order(&order, start, false);
        let trapped_part = self.filter_order(&order, start, true);
        // The old states in their new order.
        let mut seq_order: Vec<usize> = Vec::new();
        seq_order.push(start);
        let mut j: usize = 0;
        while j < untrapped.len()
            invariant
                j <= untrapped@.len(),
                seq_order@ == seq![start].add(untrapped@.subrange(0, j as int)),
            decreases untrapped@.len() - j,
        {
            seq_order.push(untrapped[j]);
            j = j + 1;
            assert(seq_order@ =~= seq![start].add(untrapped@.subrange(0, j as int)));
        }
        let mut j: usize = 0;
        while j < trapped_part.len()
            invariant
                j <= trapped_part@.len(),
                seq_order@ == seq![start].add(untrapped@).add(trapped_part@.subrange(0, j as int)),
            decreases trapped_part@.len() - j,
        {
            seq_order.push(trapped_part[j]);
            j = j + 1;
            assert(seq_order@ =~= seq![start].add(untrapped@).add(trapped_part@.subrange(0, j as int)));
        }
        proof {
            assert(untrapped@.subrange(0, untrapped@.len() as int) =~= untrapped@);
            assert(trapped_part@.subrange(0, trapped_part@.len() as int) =~= trapped_part@);
            let so = seq_order@;
            let u = untrapped@;
            let t = trapped_part@;
            assert(so =~= seq![start] + u + t);
            assert forall|i: int| 0 <= i < so.len() implies (#[trigger] so[i] as int) < n
                && (i == 0 <==> so[i] == start)
                && (1 <= i < 1 + u.len() ==> !self.is_trapped(so[i] as int))
                && (1 + u.len() <= i ==> self.is_trapped(so[i] as int)) by {
                if 1 <= i < 1 + u.len() {
                    assert(so[i] == u[i - 1]);
                } else if 1 + u.len() <= i {
                    assert(so[i] == t[i - 1 - u.len()]);
                }
            }
            assert(so.no_duplicates()) by {
                assert forall|a: int, b: int| 0 <= a < so.len() && 0 <= b < so.len() && a != b implies so[a] != so[b] by {
                    if 1 <= a < 1 + u.len() && 1 <= b < 1 + u.len() {
                        assert(so[a] == u[a - 1] && so[b] == u[b - 1]);
                    } else if 1 + u.len() <= a && 1 + u.len() <= b {
                        assert(so[a] == t[a - 1 - u.len()] && so[b] == t[b - 1 - u.len()]);
                    }
                }
            }
            assert forall|x: usize| (x as int) < n implies so.contains(x) by {
                assert(order@.contains(x));
                if x == start {
                    assert(so[0] == x);
                } else if !self.is_trapped(x as int) {
                    let i = choose|i: int| 0 <= i < u.len() && u[i] == x;
                    assert(so[1 + i] == x);
                } else {
                    let i = choose|i: int| 0 <= i < t.len() && t[i] == x;
                    assert(so[1 + u.len() + i] == x);
                }
            }
            lemma_perm_len(so, n as nat);
        }
        // The new position of each old state.
        let mut inv: Vec<usize> = Vec::new();
        let mut p: usize = 0;
        while p < n
            invariant
                p <= n,
                inv@.len() == p,
            decreases n - p,
        {
            inv.push(0);
            p = p + 1;
        }
        let mut i: usize = 0;
        while i < n
            invariant
                n == seq_order@.len(),
                seq_order@.no_duplicates(),
                forall|q: int| 0 <= q < n ==> (#[trigger] seq_order@[q] as int) < n,
                i <= n,
                inv@.len() == n,
                forall|q: int| 0 <= q < i ==> #[trigger] inv@[seq_order@[q] as int] == q,
            decreases n - i,
        {
            let ghost ib = inv@;
            inv.set(seq_order[i], i);
            proof {
                assert forall|q: int| 0 <= q < i + 1 implies #[trigger] inv@[seq_order@[q] as int] == q by {
                    if q < i {
                        assert(seq_order@[q] != seq_order@[i as int]);
                        assert(inv@[seq_order@[q] as int] == ib[seq_order@[q] as int]);
                    }
                }
            }
            i = i + 1;
        }
        proof {
            assert forall|x: int| 0 <= x < n implies (#[trigger] inv@[x] as int) < n && seq_order@[inv@[x] as int] as int == x by {
                assert(seq_order@.contains(x as usize));
                let q = choose|q: int| 0 <= q < n && seq_order@[q] == x as usize;
                assert(inv@[seq_order@[q] as int] == q);
            }
        }
        proof {
            assert forall|x: int| 0 <= x < n implies (#[trigger] inv@[x] as int) < n && seq_order@[inv@[x] as int] as int == x by {
                assert(seq_order@.contains(x as usize));
                let q = choose|q: int| 0 <= q < n && seq_order@[q] == x as usize;
                assert(inv@[seq_order@[q] as int] == q);
            }
        }
        proof {
            let so = seq_order@;
            let u = untrapped@;
            let t = trapped_part@;
            assert forall|i: int, j: int| 1 <= i < j < self.num_states() && #[trigger] self.is_trapped(so[i] as int)
                implies #[trigger] self.is_trapped(so[j] as int) by {
                assert(i >= 1 + u.len());
            }
            let f = Seq::new(n as nat, |x: int| inv@[x] as int);
            assert forall|x: int| self.valid_state(x) implies 0 <= #[trigger] f[x] < so.len() && so[f[x]] as int == x by {}
            lemma_rename_groups(self, order@, u, t, so, f, start);
            assert forall|x: int, y: int|
                #![trigger inv@[x], inv@[y]]
                self.valid_state(x) && self.valid_state(y) && x != self.start() && y != self.start()
                    && self.is_trapped(x) == self.is_trapped(y) implies (inv@[x] < inv@[y] <==> order@.index_of(x as usize)
                    < order@.index_of(y as usize)) by {
                assert(f[x] == inv@[x] as int && f[y] == inv@[y] as int);
            }
        }
        (seq_order, inv, Ghost(order@))
    }

    /// Renames the states canonically: the start state first, then the
    /// states that are not trapped, then the trapped ones, each group in
    /// topological order; the state at position `i` gets the identity
    /// `DEFAULT_STATE_SYMBOL` `i`.
    pub fn rename_states(&mut self)
        requires
            old(self).wf(),
        ensures
            final(self).wf(),
            final(self).canonical(),
            final(self).names_distinct(),
            isomorphic(old(self), final(self)),
            exists|f: Seq<int>, order: Seq<usize>| #[trigger] is_isomorphism(old(self), final(self), f)
                && #[trigger] old(self).dfs_order(order)
                && f[old(self).cursor()] == final(self).cursor()
                && (forall|s: int| old(self).valid_state(s) ==> #[trigger] final(self).is_trapped(f[s]) == old(self).is_trapped(s))
                && (forall|x: int, y: int|
                    #![trigger f[x], f[y]]
                    old(self).valid_state(x) && old(self).valid_state(y) && x != old(self).start() && y != old(self).start()
                        && old(self).is_trapped(x) == old(self).is_trapped(y) ==> (f[x] < f[y] <==> order.index_of(x as usize)
                        < order.index_of(y as usize))),
            forall|w: Seq<char>| #[trigger] final(self).accepts_word(w) == old(self).accepts_word(w),
            old(self).trapped_ok() ==> final(self).trapped_ok(),
            old(self).all_reachable() ==> final(self).all_reachable(),
            old(self).is_minimal() ==> final(self).is_minimal(),
    {
        let ghost d0 = *self;
        let n = self.states.len();
        let k = self.alphabets.len();
        let (seq_order, inv, order) = self.canonical_order();
        let start = self.start_state;
        let mut states: Vec<State> = Vec::new();
        let mut table: Vec<Vec<usize>> = Vec::new();
        let mut finals: Vec<bool> = Vec::new();
        let mut trapped: Vec<bool> = Vec::new();
        let mut i: usize = 0;
        while i < n
            invariant
                self.wf(),
                *self == d0,
                n == self.num_states(),
                k == self.alphabet().len(),
                n == seq_order@.len(),
                forall|q: int| 0 <= q < n ==> (#[trigger] seq_order@[q] as int) < n,
                inv@.len() == n,
                forall|x: int| 0 <= x < n ==> (#[trigger] inv@[x] as int) < n && seq_order@[inv@[x] as int] as int == x,
                i <= n,
                states@.len() == i,
                table@.len() == i,
                finals@.len() == i,
                trapped@.len() == i,
                forall|j: int| 0 <= j < i ==> (#[trigger] states@[j])@ == seq![(DEFAULT_STATE_SYMBOL, j as usize)],
                forall|j: int| 0 <= j < i ==> #[trigger] finals@[j] == self.is_final(seq_order@[j] as int),
                forall|j: int| 0 <= j < i ==> #[trigger] trapped@[j] == self.is_trapped(seq_order@[j] as int),
                forall|j: int| 0 <= j < i ==> (#[trigger] table@[j])@.len() == k,
                forall|j: int, a: int| 0 <= j < i && 0 <= a < k ==> #[trigger] table@[j]@[a] as int == inv@[self.next(seq_order@[j] as int, a)] as int,
            decreases n - i,
        {
            let o = seq_order[i];
            let mut row: Vec<usize> = Vec::new();
            let mut a: usize = 0;
            while a < k
                invariant
                    self.wf(),
                    n == self.num_states(),
                    k == self.alphabet().len(),
                    o < n,
                    inv@.len() == n,
                    a <= k,
                    row@.len() == a,
                    forall|b: int| 0 <= b < a ==> #[trigger] row@[b] as int == inv@[self.next(o as int, b)] as int,
                decreases k - a,
            {
                let t = self.transition_table[o][a];
                proof {
                    assert(t == self.next(o as int, a as int));
                    assert(self.valid_state(self.next(o as int, a as int)));
                }
                row.push(inv[t]);
                a = a + 1;
            }
            states.push(State::new(DEFAULT_STATE_SYMBOL, i));
            table.push(row);
            finals.push(self.final_states[o]);
            trapped.push(self.trapped_states[o]);
            i = i + 1;
        }
        let new_start = inv[self.start_state];
        let new_cursor = inv[self.current_state];
        *self = DFA {
            states,
            alphabets: copy_vec(&self.alphabets),
            transition_table: table,
            start_state: new_start,
            current_state: new_cursor,
            final_states: finals,
            trapped_states: trapped,
        };
        proof {
            let so = seq_order@;
            assert(self.layout_ok());
            assert forall|j: int, a: int| self.valid_state(j) && 0 <= a < self.alphabet().len() implies self.valid_state(
                #[trigger] self.next(j, a),
            ) by {
                let o = so[j] as int;
                assert(d0.valid_state(d0.next(o, a)));
                assert(self.next(j, a) == inv@[d0.next(o, a)] as int);
            }
            assert(self.wf());
            assert(so[0] == start);
            assert(inv@[start as int] == 0) by {
                assert(inv@[so[0] as int] == 0);
            }
            assert forall|x: int, y: int| 1 <= x < y < self.num_states() && #[trigger] self.is_trapped(x) implies #[trigger] self.is_trapped(y) by {
                assert(self.is_trapped(x) == d0.is_trapped(so[x] as int));
                assert(self.is_trapped(y) == d0.is_trapped(so[y] as int));
            }
            assert forall|x: int| self.valid_state(x) implies #[trigger] self.name(x) == seq![(DEFAULT_STATE_SYMBOL, x as usize)] by {
                assert(self.states@[x]@ == seq![(DEFAULT_STATE_SYMBOL, x as usize)]);
            }
            assert(self.canonical());
            assert forall|x: int, y: int| self.valid_state(x) && self.valid_state(y) && x != y implies #[trigger] self.name(x)
                != #[trigger] self.name(y) by {
                assert(self.name(x)[0] != self.name(y)[0]);
            }
            let f = Seq::new(n as nat, |x: int| inv@[x] as int);
            assert forall|x: int, a: int|
                d0.valid_state(x) && 0 <= f[x] && 0 <= a < d0.alphabet().len() implies 0 <= f[#[trigger] d0.next(x, a)]
                    && f[d0.next(x, a)] == self.next(f[x], a) by {
                assert(d0.valid_state(d0.next(x, a)));
                let j = inv@[x] as int;
                assert(so[j] as int == x);
                assert(self.next(j, a) == inv@[d0.next(so[j] as int, a)] as int);
            }
            assert forall|x: int| d0.valid_state(x) && 0 <= #[trigger] f[x] implies self.valid_state(f[x])
                && d0.is_final(x) == self.is_final(f[x]) by {
                let j = inv@[x] as int;
                assert(so[j] as int == x);
            }
            assert(is_morphism(&d0, self, f));
            assert forall|x: int, y: int| d0.valid_state(x) && d0.valid_state(y) && x != y implies #[trigger] f[x] != #[trigger] f[y] by {
                assert(so[inv@[x] as int] as int == x);
                assert(so[inv@[y] as int] as int == y);
            }
            assert(is_isomorphism(&d0, self, f));
            assert forall|x: int, y: int|
                #![trigger f[x], f[y]]
                d0.valid_state(x) && d0.valid_state(y) && x != d0.start() && y != d0.start()
                    && d0.is_trapped(x) == d0.is_trapped(y) implies (f[x] < f[y] <==> order@.index_of(x as usize)
                    < order@.index_of(y as usize)) by {
                assert(f[x] == inv@[x] as int && f[y] == inv@[y] as int);
            }
            assert forall|x: int| d0.valid_state(x) implies #[trigger] self.is_trapped(f[x]) == d0.is_trapped(x) by {
                let j = inv@[x] as int;
                assert(so[j] as int == x);
            }
            assert(f[d0.cursor()] == self.cursor());
            lemma_morphism_accepts(&d0, self, f);
            if d0.trapped_ok() {
                assert forall|j: int| self.valid_state(j) implies (#[trigger] self.is_trapped(j) <==> !self.live(j)) by {
                    let o = so[j] as int;
                    assert(inv@[o] as int == j) by {
                        assert(inv@[so[j] as int] == j);
                        assert(so[inv@[o] as int] as int == o);
                    }
                    lemma_morphism_live(&d0, self, f, o);
                }
            }
            if d0.is_minimal() {
                assert forall|x: int, y: int| self.valid_state(x) && self.valid_state(y) && x != y implies #[trigger] self.distinguishable(x, y) by {
                    let ox = so[x] as int;
                    let oy = so[y] as int;
                    assert(inv@[ox] as int == x) by {
                        assert(so[inv@[ox] as int] as int == ox);
                    }
                    assert(inv@[oy] as int == y) by {
                        assert(so[inv@[oy] as int] as int == oy);
                    }
                    assert(d0.distinguishable(ox, oy));
                    lemma_morphism_distinguish(&d0, self, f, ox, oy);
                }
            }
            if d0.all_reachable() {
                assert forall|j: int| self.valid_state(j) implies #[trigger] self.reachable(j) by {
                    let o = so[j] as int;
                    assert(inv@[o] as int == j) by {
                        assert(inv@[so[j] as int] == j);
                        assert(so[inv@[o] as int] as int == o);
                    }
                    assert(d0.reachable(o));
                    let w = choose|w: Seq<char>| #[trigger] d0.in_alphabet(w) && d0.run(d0.start(), w) == o;
                    lemma_morphism_run(&d0, self, f, d0.start(), w);
                    assert(self.in_alphabet(w) && self.run(self.start(), w) == j);
                }
            }
        }
    }
}


/// Placing the start state first, then the states of `u`, then those of `t`,
/// orders two states of one group as `order` does.
proof fn lemma_rename_groups(d0: &DFA, order: Seq<usize>, u: Seq<usize>, t: Seq<usize>, so: Seq<usize>, f: Seq<int>, start: usize)
    requires
        so == seq![start] + u + t,
        start as int == d0.start(),
        forall|i: int| 0 <= i < u.len() ==> !d0.is_trapped(#[trigger] u[i] as int) && u[i] != start,
        forall|i: int| 0 <= i < t.len() ==> d0.is_trapped(#[trigger] t[i] as int) && t[i] != start,
        forall|i: int, k: int| 0 <= i < k < u.len() ==> order.index_of(#[trigger] u[i]) < order.index_of(#[trigger] u[k]),
        forall|i: int, k: int| 0 <= i < k < t.len() ==> order.index_of(#[trigger] t[i]) < order.index_of(#[trigger] t[k]),
        f.len() == d0.num_states(),
        forall|x: int| d0.valid_state(x) ==> 0 <= #[trigger] f[x] < so.len() && so[f[x]] as int == x,
    ensures
        forall|x: int, y: int|
            #![trigger f[x], f[y]]
            d0.valid_state(x) && d0.valid_state(y) && x != d0.start() && y != d0.start()
                && d0.is_trapped(x) == d0.is_trapped(y) ==> (f[x] < f[y] <==> order.index_of(x as usize)
                < order.index_of(y as usize)),
{
    assert forall|x: int, y: int|
        #![trigger f[x], f[y]]
        d0.valid_state(x) && d0.valid_state(y) && x != d0.start() && y != d0.start()
            && d0.is_trapped(x) == d0.is_trapped(y) implies (f[x] < f[y] <==> order.index_of(x as usize)
            < order.index_of(y as usize)) by {
        let fx = f[x];
        let fy = f[y];
        assert(so[fx] as int == x && so[fy] as int == y);
        assert(fx != 0 && fy != 0);
        if fx < 1 + u.len() {
            assert(so[fx] == u[fx - 1]);
        } else {
            assert(so[fx] == t[fx - 1 - u.len()]);
        }
        if fy < 1 + u.len() {
            assert(so[fy] == u[fy - 1]);
        } else {
            assert(so[fy] == t[fy - 1 - u.len()]);
        }
        if !d0.is_trapped(x) {
            assert(fx < 1 + u.len() && fy < 1 + u.len());
            if fx < fy {
                assert(order.index_of(u[fx - 1]) < order.index_of(u[fy - 1]));
            } else if fy < fx {
                assert(order.index_of(u[fy - 1]) < order.index_of(u[fx - 1]));
            }
        } else {
            assert(fx >= 1 + u.len() && fy >= 1 + u.len());
            if fx < fy {
                assert(order.index_of(t[fx - 1 - u.len()]) < order.index_of(t[fy - 1 - u.len()]));
            } else if fy < fx {
                assert(order.index_of(t[fy - 1 - u.len()]) < order.index_of(t[fx - 1 - u.len()]));
            }
        }
    }
}

} // verus!
