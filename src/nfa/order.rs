use vstd::prelude::*;

use super::EpsilonNFA;
use crate::dfa::{lemma_mark, lemma_perm_len, num_unmarked};
use crate::utils::State;

verus! {

impl EpsilonNFA {
    /// Some path of transitions of any kind leads from `s` to `t`.
    pub open spec fn reaches(&self, s: int, t: int) -> bool {
        exists|k: nat| #[trigger] self.linked(s, t, k)
    }

    /// One more transition extends a path.
    pub proof fn lemma_linked_extend(&self, u: int, s: int, t: int, k: nat)
        requires
            self.valid_state(s),
            self.linked(u, s, k),
            self.any_edge(s, t),
        ensures
            self.reaches(u, t),
    {
        assert(self.linked(u, t, (k + 1) as nat) == (self.linked(u, t, k) || exists|v: int|
            self.valid_state(v) && self.linked(u, v, k) && #[trigger] self.any_edge(v, t)));
        assert(self.linked(u, t, (k + 1) as nat));
    }

    /// In a list of finished states, each transition out of a state leads to
    /// a state listed before it, or to a state with a path back to it.
    pub open spec fn finish_order_ok(&self, st: Seq<usize>) -> bool {
        forall|p: int, t: int|
            0 <= p < st.len() && self.valid_state(t) && #[trigger] self.any_edge(st[p] as int, t) ==> (exists|q: int|
                0 <= q < p && st[q] as int == t) || self.reaches(t, st[p] as int)
    }

    /// The states that some transition, on a symbol or ε, leads to from `s`,
    /// each once, in state order.
    fn get_adjacent_states(&self, s: usize) -> (r: Vec<usize>)
        requires
            self.wf(),
            self.valid_state(s as int),
        ensures
            forall|i: int| 0 <= i < r@.len() ==> self.valid_state(#[trigger] r@[i] as int) && self.any_edge(s as int, r@[i] as int),
            forall|t: int| self.valid_state(t) && #[trigger] self.any_edge(s as int, t) ==> r@.contains(t as usize),
    {
        let mut r: Vec<usize> = Vec::new();
        let mut t: usize = 0;
        while t < self.states.len()
            invariant
                self.wf(),
                self.valid_state(s as int),
                t <= self.num_states(),
                forall|i: int| 0 <= i < r@.len() ==> self.valid_state(#[trigger] r@[i] as int) && self.any_edge(s as int, r@[i] as int),
                forall|u: int| 0 <= u < t && #[trigger] self.any_edge(s as int, u) ==> r@.contains(u as usize),
            decreases self.num_states() - t,
        {
            let ghost rb = r@;
            if self.has_any_edge(s, t) {
                r.push(t);
            }
            proof {
                assert forall|u: int| 0 <= u < t + 1 && #[trigger] self.any_edge(s as int, u) implies r@.contains(u as usize) by {
                    if u < t {
                        let i = choose|i: int| 0 <= i < rb.len() && rb[i] == u as usize;
                        assert(r@[i] == u as usize);
                    } else {
                        assert(r@[r@.len() - 1] == u as usize);
                    }
                }
            }
            t = t + 1;
        }
        r
    }

    /// Depth-first search from `s`: marks what it visits and appends each
    /// state to `stack` once all of its successors are done.
    fn dfs(&self, s: usize, visited: &mut Vec<bool>, stack: &mut Vec<usize>)
        requires
            self.wf(),
            self.num_states() <= usize::MAX,
            self.valid_state(s as int),
            old(visited)@.len() == self.num_states(),
            !old(visited)@[s as int],
            old(stack)@.no_duplicates(),
            forall|j: int| 0 <= j < old(stack)@.len() ==> (#[trigger] old(stack)@[j] as int) < self.num_states()
                && old(visited)@[old(stack)@[j] as int],
            forall|u: int| 0 <= u < self.num_states() && #[trigger] old(visited)@[u] && !old(stack)@.contains(u as usize)
                ==> self.reaches(u, s as int),
            self.finish_order_ok(old(stack)@),
        ensures
            self.finish_order_ok(final(stack)@),
            final(visited)@.len() == self.num_states(),
            final(visited)@[s as int],
            forall|x: int| 0 <= x < self.num_states() && old(visited)@[x] ==> #[trigger] final(visited)@[x],
            final(stack)@.len() >= old(stack)@.len(),
            final(stack)@.subrange(0, old(stack)@.len() as int) == old(stack)@,
            final(stack)@.no_duplicates(),
            forall|j: int| old(stack)@.len() <= j < final(stack)@.len() ==> (#[trigger] final(stack)@[j] as int) < self.num_states()
                && final(visited)@[final(stack)@[j] as int] && !old(visited)@[final(stack)@[j] as int],
            forall|x: int| 0 <= x < self.num_states() && #[trigger] final(visited)@[x] && !old(visited)@[x] ==> final(stack)@.contains(x as usize),
            num_unmarked(final(visited)@) < num_unmarked(old(visited)@),
        decreases num_unmarked(old(visited)@),
    {
        let ghost v0 = visited@;
        let ghost s0 = stack@;
        proof {
            lemma_mark(visited@, s as int);
        }
        visited.set(s, true);
        proof {
            assert forall|u: int| 0 <= u < self.num_states() && #[trigger] visited@[u] && !stack@.contains(u as usize)
                implies self.reaches(u, s as int) by {
                if u == s {
                    assert(self.linked(u, s as int, 0));
                } else {
                    assert(v0[u]);
                }
            }
        }
        let adjacent = self.get_adjacent_states(s);
        let mut i: usize = 0;
        while i < adjacent.len()
            invariant
                self.wf(),
                self.num_states() <= usize::MAX,
                self.valid_state(s as int),
                forall|a: int| 0 <= a < adjacent@.len() ==> self.valid_state(#[trigger] adjacent@[a] as int)
                    && self.any_edge(s as int, adjacent@[a] as int),
                i <= adjacent@.len(),
                v0 == old(visited)@,
                v0.len() == self.num_states(),
                !v0[s as int],
                s0.no_duplicates(),
                forall|j: int| 0 <= j < s0.len() ==> (#[trigger] s0[j] as int) < self.num_states() && v0[s0[j] as int],
                visited@.len() == self.num_states(),
                visited@[s as int],
                forall|x: int| 0 <= x < self.num_states() && v0[x] ==> #[trigger] visited@[x],
                stack@.len() >= s0.len(),
                stack@.subrange(0, s0.len() as int) == s0,
                stack@.no_duplicates(),
                forall|j: int| s0.len() <= j < stack@.len() ==> (#[trigger] stack@[j] as int) < self.num_states()
                    && visited@[stack@[j] as int] && !v0[stack@[j] as int] && stack@[j] != s,
                forall|x: int| 0 <= x < self.num_states() && #[trigger] visited@[x] && !v0[x] && x != s ==> stack@.contains(x as usize),
                num_unmarked(visited@) < num_unmarked(v0),
                forall|t: int| self.valid_state(t) && #[trigger] self.any_edge(s as int, t) ==> adjacent@.contains(t as usize),
                forall|u: int| 0 <= u < self.num_states() && #[trigger] visited@[u] && !stack@.contains(u as usize)
                    ==> self.reaches(u, s as int),
                self.finish_order_ok(stack@),
                forall|b: int| 0 <= b < i ==> visited@[#[trigger] adjacent@[b] as int],
            decreases adjacent@.len() - i,
        {
            let t = adjacent[i];
            if !visited[t] {
                let ghost v1 = visited@;
                let ghost s1 = stack@;
                proof {
                    assert forall|j: int| 0 <= j < s1.len() implies (#[trigger] s1[j] as int) < self.num_states()
                        && v1[s1[j] as int] by {
                        if j < s0.len() {
                            assert(s1[j] == s0[j]);
                        }
                    }
                    assert(self.any_edge(s as int, t as int));
                    assert forall|u: int| 0 <= u < self.num_states() && #[trigger] v1[u] && !s1.contains(u as usize)
                        implies self.reaches(u, t as int) by {
                        assert(self.reaches(u, s as int));
                        let k = choose|k: nat| #[trigger] self.linked(u, s as int, k);
                        self.lemma_linked_extend(u, s as int, t as int, k);
                    }
                }
                self.dfs(t, visited, stack);
                proof {
                    assert forall|j: int| 0 <= j < s0.len() implies stack@[j] == s0[j] by {
                        assert(stack@.subrange(0, s1.len() as int)[j] == s1[j]);
                        assert(s1.subrange(0, s0.len() as int)[j] == s0[j]);
                    }
                    assert(stack@.subrange(0, s0.len() as int) =~= s0);
                    assert forall|j: int| s0.len() <= j < stack@.len() implies (#[trigger] stack@[j] as int) < self.num_states()
                        && visited@[stack@[j] as int] && !v0[stack@[j] as int] && stack@[j] != s by {
                        if j < s1.len() {
                            assert(stack@.subrange(0, s1.len() as int)[j] == s1[j]);
                        }
                    }
                    assert forall|x: int| 0 <= x < self.num_states() && #[trigger] visited@[x] && !v0[x] && x != s implies stack@.contains(x as usize) by {
                        if v1[x] {
                            let j = choose|j: int| 0 <= j < s1.len() && s1[j] == x as usize;
                            assert(stack@.subrange(0, s1.len() as int)[j] == s1[j]);
                            assert(stack@[j] == x as usize);
                        }
                    }
                    assert forall|u: int| 0 <= u < self.num_states() && #[trigger] visited@[u] && !stack@.contains(u as usize)
                        implies self.reaches(u, s as int) by {
                        if v1[u] {
                            if s1.contains(u as usize) {
                                let j = choose|j: int| 0 <= j < s1.len() && s1[j] == u as usize;
                                assert(stack@.subrange(0, s1.len() as int)[j] == s1[j]);
                                assert(stack@[j] == u as usize);
                            }
                        }
                    }
                    assert forall|b: int| 0 <= b < i + 1 implies visited@[#[trigger] adjacent@[b] as int] by {
                        if b < i {
                            assert(v1[adjacent@[b] as int]);
                        }
                    }
                }
            }
            i = i + 1;
        }
        let ghost s2 = stack@;
        stack.push(s);
        proof {
            assert(stack@[stack@.len() - 1] == s);
            assert(!s2.contains(s)) by {
                if s2.contains(s) {
                    let j = choose|j: int| 0 <= j < s2.len() && s2[j] == s;
                    if j < s0.len() {
                        assert(s2.subrange(0, s0.len() as int)[j] == s0[j]);
                    }
                }
            }
            assert forall|a: int, b: int| 0 <= a < stack@.len() && 0 <= b < stack@.len() && a != b implies stack@[a] != stack@[b] by {
                if a < s2.len() && b < s2.len() {
                    assert(stack@[a] == s2[a] && stack@[b] == s2[b]);
                } else if a < s2.len() {
                    assert(s2.contains(s2[a]));
                    assert(stack@[a] == s2[a]);
                } else if b < s2.len() {
                    assert(stack@[b] == s2[b]);
                }
            }
            assert forall|j: int| 0 <= j < s0.len() implies stack@[j] == s0[j] by {
                assert(s2.subrange(0, s0.len() as int)[j] == s0[j]);
            }
            assert(stack@.subrange(0, s0.len() as int) =~= s0);
            assert forall|x: int| 0 <= x < self.num_states() && #[trigger] visited@[x] && !v0[x] implies stack@.contains(x as usize) by {
                if x != s {
                    let j = choose|j: int| 0 <= j < s2.len() && s2[j] == x as usize;
                    assert(stack@[j] == x as usize);
                }
            }
            assert forall|p: int, y: int|
                0 <= p < stack@.len() && self.valid_state(y) && #[trigger] self.any_edge(stack@[p] as int, y) implies (exists|q: int|
                    0 <= q < p && stack@[q] as int == y) || self.reaches(y, stack@[p] as int) by {
                if p < s2.len() {
                    assert(stack@[p] == s2[p]);
                    if exists|q: int| 0 <= q < p && s2[q] as int == y {
                        let q = choose|q: int| 0 <= q < p && s2[q] as int == y;
                        assert(stack@[q] == s2[q]);
                    }
                } else {
                    assert(stack@[p] == s);
                    assert(adjacent@.contains(y as usize));
                    let b = choose|b: int| 0 <= b < adjacent@.len() && adjacent@[b] == y as usize;
                    assert(visited@[adjacent@[b] as int]);
                    if s2.contains(y as usize) {
                        let q = choose|q: int| 0 <= q < s2.len() && s2[q] == y as usize;
                        assert(stack@[q] == s2[q]);
                    } else if y == s {
                        assert(self.linked(y, s as int, 0));
                    } else {
                        assert(!stack@.contains(y as usize)) by {
                            if stack@.contains(y as usize) {
                                let q = choose|q: int| 0 <= q < stack@.len() && stack@[q] == y as usize;
                                if q < s2.len() {
                                    assert(s2[q] == y as usize);
                                } else {
                                    assert(stack@[s2.len() as int] == s);
                                }
                            }
                        }
                        assert(visited@[y]);
                        assert(self.reaches(y, s as int));
                    }
                }
            }
        }
    }

    fn topological_order(&self) -> (r: Vec<usize>)
        requires
            self.wf(),
        ensures
            r@.len() == self.num_states(),
            r@.no_duplicates(),
            forall|i: int| 0 <= i < r@.len() ==> (#[trigger] r@[i] as int) < self.num_states(),
            forall|x: usize| (x as int) < self.num_states() ==> r@.contains(x),
            forall|i: int, j: int|
                #![trigger self.any_edge(r@[i] as int, r@[j] as int)]
                0 <= i < r@.len() && 0 <= j < r@.len() && self.any_edge(r@[i] as int, r@[j] as int)
                    ==> i < j || self.reaches(r@[j] as int, r@[i] as int),
    {
        let n = self.states.len();
        let mut visited: Vec<bool> = Vec::new();
        let mut p: usize = 0;
        while p < n
            invariant
                p <= n,
                visited@.len() == p,
                forall|i: int| 0 <= i < p ==> !visited@[i],
            decreases n - p,
        {
            visited.push(false);
            p = p + 1;
        }
        let mut stack: Vec<usize> = Vec::new();
        let mut s: usize = 0;
        while s < n
            invariant
                self.wf(),
                n == self.num_states(),
                s <= n,
                visited@.len() == n,
                stack@.no_duplicates(),
                forall|j: int| 0 <= j < stack@.len() ==> (#[trigger] stack@[j] as int) < n && visited@[stack@[j] as int],
                forall|x: int| 0 <= x < n && #[trigger] visited@[x] ==> stack@.contains(x as usize),
                forall|x: int| 0 <= x < s ==> #[trigger] visited@[x],
                self.finish_order_ok(stack@),
            decreases n - s,
        {
            if !visited[s] {
                let ghost v1 = visited@;
                let ghost s1 = stack@;
                self.dfs(s, &mut visited, &mut stack);
                proof {
                    assert forall|x: int| 0 <= x < n && #[trigger] visited@[x] implies stack@.contains(x as usize) by {
                        if v1[x] {
                            let j = choose|j: int| 0 <= j < s1.len() && s1[j] == x as usize;
                            assert(stack@.subrange(0, s1.len() as int)[j] == s1[j]);
                            assert(stack@[j] == x as usize);
                        }
                    }
                    assert forall|j: int| 0 <= j < stack@.len() implies (#[trigger] stack@[j] as int) < n && visited@[stack@[j] as int] by {
                        if j < s1.len() {
                            assert(stack@.subrange(0, s1.len() as int)[j] == s1[j]);
                        }
                    }
                }
            }
            s = s + 1;
        }
        let mut r: Vec<usize> = Vec::new();
        let mut j: usize = stack.len();
        while j > 0
            invariant
                j <= stack@.len(),
                r@.len() == stack@.len() - j,
                forall|i: int| 0 <= i < r@.len() ==> #[trigger] r@[i] == stack@[stack@.len() - 1 - i],
            decreases j,
        {
            j = j - 1;
            r.push(stack[j]);
        }
        proof {
            assert(r@ =~= stack@.reverse());
            assert forall|a: int, b: int| 0 <= a < r@.len() && 0 <= b < r@.len() && a != b implies r@[a] != r@[b] by {
                assert(r@[a] == stack@[stack@.len() - 1 - a]);
                assert(r@[b] == stack@[stack@.len() - 1 - b]);
            }
            assert forall|x: usize| (x as int) < n implies r@.contains(x) by {
                assert(visited@[x as int]);
                assert(stack@.contains(x));
                let i = choose|i: int| 0 <= i < stack@.len() && stack@[i] == x;
                assert(r@[stack@.len() - 1 - i] == x);
            }
            assert forall|i: int| 0 <= i < r@.len() implies (#[trigger] r@[i] as int) < n by {
                assert(r@[i] == stack@[stack@.len() - 1 - i]);
            }
            lemma_perm_len(r@, n as nat);
            assert forall|i: int, j: int|
                #![trigger self.any_edge(r@[i] as int, r@[j] as int)]
                0 <= i < r@.len() && 0 <= j < r@.len() && self.any_edge(r@[i] as int, r@[j] as int)
                    implies i < j || self.reaches(r@[j] as int, r@[i] as int) by {
                let len = stack@.len() as int;
                let p = len - 1 - i;
                assert(r@[i] == stack@[p]);
                assert(r@[j] == stack@[len - 1 - j]);
                assert(self.any_edge(stack@[p] as int, r@[j] as int));
                if exists|q: int| 0 <= q < p && stack@[q] as int == r@[j] as int {
                    let q = choose|q: int| 0 <= q < p && stack@[q] as int == r@[j] as int;
                    if q != len - 1 - j {
                        assert(stack@.no_duplicates());
                    }
                }
            }
        }
        r
    }

    /// The states, in the order of a depth-first traversal's finishing times
    /// reversed; each state comes once. A transition leads to a later state
    /// unless a path leads back from its target: on an acyclic automaton the
    /// order is topological.
    pub fn get_topologically_sorted(&self) -> (r: Vec<State>)
        requires
            self.wf(),
        ensures
            r@.len() == self.num_states(),
            exists|order: Seq<usize>| #![trigger order.len()]
                order.len() == self.num_states() && order.no_duplicates() && (forall|i: int|
                    0 <= i < order.len() ==> (#[trigger] order[i] as int) < self.num_states() && r@[i]@ == self.name(
                        order[i] as int,
                    )) && (forall|i: int, j: int|
                    #![trigger self.any_edge(order[i] as int, order[j] as int)]
                    0 <= i < order.len() && 0 <= j < order.len() && self.any_edge(order[i] as int, order[j] as int)
                        ==> i < j || self.reaches(order[j] as int, order[i] as int)),
    {
        let order = self.topological_order();
        let mut r: Vec<State> = Vec::new();
        let mut i: usize = 0;
        while i < order.len()
            invariant
                self.wf(),
                order@.len() == self.num_states(),
                forall|j: int| 0 <= j < order@.len() ==> (#[trigger] order@[j] as int) < self.num_states(),
                i <= order@.len(),
                r@.len() == i,
                forall|j: int| 0 <= j < i ==> (#[trigger] r@[j])@ == self.name(order@[j] as int),
            decreases order@.len() - i,
        {
            r.push(self.states[order[i]].duplicate());
            i = i + 1;
        }
        assert(order@.len() == self.num_states());
        r
    }
}

} // verus!
