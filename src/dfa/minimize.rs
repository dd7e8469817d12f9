use vstd::prelude::*;

use super::{lemma_index_of_unique, DFA};
use crate::utils::State;
use crate::language::{is_isomorphism, is_morphism, isomorphic, lemma_iso_compose, lemma_morphism_accepts, lemma_morphism_run};

verus! {

/// A strictly increasing list of positions below `n` has at most `n` entries.
pub proof fn lemma_increasing_len(p: Seq<usize>, n: int)
    requires
        0 <= n,
        forall|i: int, j: int| 0 <= i < j < p.len() ==> #[trigger] p[i] < #[trigger] p[j],
        forall|i: int| 0 <= i < p.len() ==> (#[trigger] p[i] as int) < n,
    ensures
        p.len() <= n,
    decreases p.len(),
{
    if p.len() > 0 {
        let q = p.drop_last();
        let top = p[p.len() - 1] as int;
        assert forall|i: int| 0 <= i < q.len() implies (#[trigger] q[i] as int) < top by {
            assert(q[i] == p[i]);
        }
        assert forall|i: int, j: int| 0 <= i < j < q.len() implies #[trigger] q[i] < #[trigger] q[j] by {
            assert(q[i] == p[i] && q[j] == p[j]);
        }
        lemma_increasing_len(q, top);
        assert(top < n);
    }
}

impl DFA {
    /// Some word tells `s` and `t` apart: it leads one of them to an
    /// accepting state and the other not.
    pub open spec fn distinguishable(&self, s: int, t: int) -> bool {
        exists|w: Seq<char>| #[trigger] self.in_alphabet(w) && self.is_final(self.run(s, w)) != self.is_final(self.run(t, w))
    }

    /// Every state is reachable and any two states are told apart by a word.
    pub open spec fn is_minimal(&self) -> bool {
        &&& self.all_reachable()
        &&& forall|s: int, t: int|
            self.valid_state(s) && self.valid_state(t) && s != t ==> #[trigger] self.distinguishable(s, t)
    }

    /// States whose successors on one symbol are told apart are told apart.
    pub proof fn lemma_distinguish_pred(&self, s: int, t: int, a: int)
        requires
            self.wf(),
            self.valid_state(s),
            self.valid_state(t),
            0 <= a < self.alphabet().len(),
            self.distinguishable(self.next(s, a), self.next(t, a)),
        ensures
            self.distinguishable(s, t),
    {
        let w = choose|w: Seq<char>| #[trigger] self.in_alphabet(w) && self.is_final(self.run(self.next(s, a), w))
            != self.is_final(self.run(self.next(t, a), w));
        let c = self.alphabet()[a];
        lemma_index_of_unique(self.alphabet(), a);
        self.lemma_run_cons(s, c, w);
        self.lemma_run_cons(t, c, w);
        let w2 = seq![c] + w;
        assert forall|i: int| 0 <= i < w2.len() implies self.alphabet().contains(#[trigger] w2[i]) by {
            if i > 0 {
                assert(w2[i] == w[i - 1]);
            }
        }
        assert(self.in_alphabet(w2));
    }

    /// A class assignment with its representatives: `rep` lists, in
    /// increasing order, the first state of each class, and class `j` is the
    /// class of `rep[j]`.
    pub open spec fn partition_ok(&self, class: Seq<usize>, rep: Seq<usize>) -> bool {
        &&& class.len() == self.num_states()
        &&& forall|i: int, j: int| 0 <= i < j < rep.len() ==> #[trigger] rep[i] < #[trigger] rep[j]
        &&& forall|j: int| 0 <= j < rep.len() ==> (#[trigger] rep[j] as int) < self.num_states() && class[rep[j] as int] == j
        &&& forall|s: int| self.valid_state(s) ==> (#[trigger] class[s] as int) < rep.len() && rep[class[s] as int] <= s
    }

    /// States of one class agree on acceptance, and states of different
    /// classes are told apart.
    pub open spec fn partition_sound(&self, class: Seq<usize>) -> bool {
        &&& forall|s: int, t: int|
            self.valid_state(s) && self.valid_state(t) && #[trigger] class[s] == #[trigger] class[t] ==> self.is_final(s) == self.is_final(t)
        &&& forall|s: int, t: int|
            self.valid_state(s) && self.valid_state(t) && #[trigger] class[s] != #[trigger] class[t] ==> self.distinguishable(s, t)
    }

    /// States of one class move into one class on every symbol.
    pub open spec fn partition_stable(&self, class: Seq<usize>) -> bool {
        forall|s: int, t: int, a: int|
            self.valid_state(s) && self.valid_state(t) && 0 <= a < self.alphabet().len() && #[trigger] class[s] == #[trigger] class[t]
                ==> class[#[trigger] self.next(s, a)] == class[self.next(t, a)]
    }

    /// `s` and `t` share a class and move into the same classes.
    pub open spec fn same_signature(&self, class: Seq<usize>, s: int, t: int) -> bool {
        &&& class[s] == class[t]
        &&& forall|a: int| 0 <= a < self.alphabet().len() ==> class[#[trigger] self.next(s, a)] == class[self.next(t, a)]
    }

    /// Whether `s` and `t` have the same signature under `class`.
    fn signature_eq(&self, class: &Vec<usize>, s: usize, t: usize) -> (r: bool)
        requires
            self.wf(),
            class@.len() == self.num_states(),
            self.valid_state(s as int),
            self.valid_state(t as int),
        ensures
            r == self.same_signature(class@, s as int, t as int),
    {
        if class[s] != class[t] {
            return false;
        }
        let mut a: usize = 0;
        while a < self.alphabets.len()
            invariant
                self.wf(),
                class@.len() == self.num_states(),
                self.valid_state(s as int),
                self.valid_state(t as int),
                a <= self.alphabet().len(),
                forall|b: int| 0 <= b < a ==> class@[#[trigger] self.next(s as int, b)] == class@[self.next(t as int, b)],
            decreases self.alphabet().len() - a,
        {
            let x = self.transition_table[s][a];
            let y = self.transition_table[t][a];
            proof {
                assert(x == self.next(s as int, a as int) && y == self.next(t as int, a as int));
                assert(self.valid_state(x as int) && self.valid_state(y as int));
            }
            if class[x] != class[y] {
                return false;
            }
            a = a + 1;
        }
        true
    }

    /// The partition into accepting and other states.
    fn initial_partition(&self) -> (r: (Vec<usize>, Vec<usize>))
        requires
            self.wf(),
        ensures
            self.partition_ok(r.0@, r.1@),
            self.partition_sound(r.0@),
    {
        let n = self.states.len();
        let f0 = self.final_states[0];
        let mut class: Vec<usize> = Vec::new();
        let mut rep: Vec<usize> = Vec::new();
        rep.push(0);
        class.push(0);
        let mut s: usize = 1;
        while s < n
            invariant
                self.wf(),
                n == self.num_states(),
                f0 == self.is_final(0),
                1 <= s <= n,
                class@.len() == s,
                1 <= rep@.len() <= 2,
                rep@[0] == 0,
                rep@.len() == 2 ==> (rep@[1] as int) < s && rep@[1] > 0 && class@[rep@[1] as int] == 1 && self.is_final(rep@[1] as int) != f0
                    && forall|x: int| 0 <= x < rep@[1] ==> self.is_final(x) == f0,
                rep@.len() == 1 ==> forall|x: int| 0 <= x < s ==> self.is_final(x) == f0,
                forall|x: int| 0 <= x < s ==> (#[trigger] class@[x] == 0 <==> self.is_final(x) == f0) && (class@[x] as int) < rep@.len(),
                forall|x: int| 0 <= x < s ==> #[trigger] class@[x] <= 1,
            decreases n - s,
        {
            if self.final_states[s] == f0 {
                class.push(0);
            } else {
                if rep.len() == 1 {
                    rep.push(s);
                }
                class.push(1);
            }
            s = s + 1;
        }
        proof {
            assert forall|x: int| self.valid_state(x) implies (#[trigger] class@[x] as int) < rep@.len() && rep@[class@[x] as int] <= x by {
                if class@[x] == 1 {
                    assert(rep@.len() == 2);
                    if x < rep@[1] {
                        assert(self.is_final(x) == f0);
                    }
                }
            }
            assert forall|x: int, y: int|
                self.valid_state(x) && self.valid_state(y) && #[trigger] class@[x] != #[trigger] class@[y] implies self.distinguishable(x, y) by {
                let e = Seq::<char>::empty();
                assert(self.in_alphabet(e));
                assert(self.is_final(self.run(x, e)) != self.is_final(self.run(y, e)));
            }
        }
        (class, rep)
    }
}

impl DFA {
    /// The position in `nrep` of a state with the signature of `s`.
    fn find_class(&self, class: &Vec<usize>, nrep: &Vec<usize>, s: usize) -> (r: Option<usize>)
        requires
            self.wf(),
            class@.len() == self.num_states(),
            self.valid_state(s as int),
            forall|j: int| 0 <= j < nrep@.len() ==> (#[trigger] nrep@[j] as int) < self.num_states(),
        ensures
            match r {
                Some(j) => j < nrep@.len() && self.same_signature(class@, nrep@[j as int] as int, s as int),
                None => forall|j: int| 0 <= j < nrep@.len() ==> !self.same_signature(class@, #[trigger] nrep@[j] as int, s as int),
            },
    {
        let mut j: usize = 0;
        while j < nrep.len()
            invariant
                self.wf(),
                class@.len() == self.num_states(),
                self.valid_state(s as int),
                forall|q: int| 0 <= q < nrep@.len() ==> (#[trigger] nrep@[q] as int) < self.num_states(),
                j <= nrep@.len(),
                forall|q: int| 0 <= q < j ==> !self.same_signature(class@, #[trigger] nrep@[q] as int, s as int),
            decreases nrep@.len() - j,
        {
            if self.signature_eq(class, nrep[j], s) {
                return Some(j);
            }
            j = j + 1;
        }
        None
    }

    /// One round of refinement: states stay together when they share a class
    /// and move into the same classes on every symbol. Tells whether some
    /// class split; when none did, `class` is stable.
    fn refine(&self, class: &Vec<usize>, rep: &Vec<usize>) -> (r: (Vec<usize>, Vec<usize>, bool))
        requires
            self.wf(),
            self.partition_ok(class@, rep@),
            self.partition_sound(class@),
        ensures
            self.partition_ok(r.0@, r.1@),
            self.partition_sound(r.0@),
            !r.2 ==> self.partition_stable(class@),
            r.2 ==> r.1@.len() > rep@.len(),
    {
        let n = self.states.len();
        let mut new_class: Vec<usize> = Vec::new();
        let mut nrep: Vec<usize> = Vec::new();
        let mut split = false;
        let mut s: usize = 0;
        while s < n
            invariant
                self.wf(),
                n == self.num_states(),
                self.partition_ok(class@, rep@),
                self.partition_sound(class@),
                s <= n,
                new_class@.len() == s,
                forall|i: int, j: int| 0 <= i < j < nrep@.len() ==> #[trigger] nrep@[i] < #[trigger] nrep@[j],
                forall|j: int| 0 <= j < nrep@.len() ==> (#[trigger] nrep@[j] as int) < s && new_class@[nrep@[j] as int] == j,
                forall|x: int| 0 <= x < s ==> (#[trigger] new_class@[x] as int) < nrep@.len() && nrep@[new_class@[x] as int] <= x,
                forall|x: int, y: int| 0 <= x < s && 0 <= y < s ==> (#[trigger] new_class@[x] == #[trigger] new_class@[y]
                    <==> self.same_signature(class@, x, y)),
                split <==> exists|j: int| 0 <= j < nrep@.len() && rep@[class@[#[trigger] nrep@[j] as int] as int] != nrep@[j],
                forall|j: int| 0 <= j < rep@.len() && (#[trigger] rep@[j] as int) < s ==> nrep@.contains(rep@[j]),
            decreases n - s,
        {
            match self.find_class(&class, &nrep, s) {
                Some(j) => {
                    let ghost nb = new_class@;
                    new_class.push(j);
                    proof {
                        assert forall|x: int, y: int| 0 <= x < s + 1 && 0 <= y < s + 1 implies (#[trigger] new_class@[x] == #[trigger] new_class@[y]
                            <==> self.same_signature(class@, x, y)) by {
                            let l = nrep@[j as int] as int;
                            assert(new_class@[l] == j);
                            if x < s && y < s {
                                assert(new_class@[x] == nb[x] && new_class@[y] == nb[y]);
                            } else if x < s {
                                assert(new_class@[x] == nb[x]);
                                assert(nb[x] == nb[l] <==> self.same_signature(class@, x, l));
                            } else if y < s {
                                assert(new_class@[y] == nb[y]);
                                assert(nb[y] == nb[l] <==> self.same_signature(class@, y, l));
                            }
                        }
                        assert forall|q: int| 0 <= q < rep@.len() && (#[trigger] rep@[q] as int) < s + 1 implies nrep@.contains(rep@[q]) by {
                            if rep@[q] == s {
                                let l = nrep@[j as int] as int;
                                assert(class@[l] == class@[s as int]);
                                assert(class@[rep@[q] as int] == q);
                                assert(rep@[class@[l] as int] <= l);
                            }
                        }
                    }
                },
                None => {
                    let ghost nb = new_class@;
                    let ghost rb = nrep@;
                    new_class.push(nrep.len());
                    nrep.push(s);
                    if rep[class[s]] != s {
                        split = true;
                    }
                    proof {
                        assert(nrep@[rb.len() as int] == s);
                        assert forall|x: int, y: int| 0 <= x < s + 1 && 0 <= y < s + 1 implies (#[trigger] new_class@[x] == #[trigger] new_class@[y]
                            <==> self.same_signature(class@, x, y)) by {
                            if x < s && y < s {
                                assert(new_class@[x] == nb[x] && new_class@[y] == nb[y]);
                            } else if x < s {
                                assert(new_class@[x] == nb[x]);
                                let l = rb[nb[x] as int] as int;
                                assert(nb[l] == nb[x]);
                                assert(self.same_signature(class@, l, x));
                                assert(!self.same_signature(class@, l, s as int));
                            } else if y < s {
                                assert(new_class@[y] == nb[y]);
                                let l = rb[nb[y] as int] as int;
                                assert(nb[l] == nb[y]);
                                assert(self.same_signature(class@, l, y));
                                assert(!self.same_signature(class@, l, s as int));
                            }
                        }
                        assert(split <==> exists|j: int| 0 <= j < nrep@.len() && rep@[class@[#[trigger] nrep@[j] as int] as int] != nrep@[j]) by {
                            if exists|j: int| 0 <= j < rb.len() && rep@[class@[#[trigger] rb[j] as int] as int] != rb[j] {
                                let j = choose|j: int| 0 <= j < rb.len() && rep@[class@[#[trigger] rb[j] as int] as int] != rb[j];
                                assert(nrep@[j] == rb[j]);
                            }
                            if exists|j: int| 0 <= j < nrep@.len() && rep@[class@[#[trigger] nrep@[j] as int] as int] != nrep@[j] {
                                let j = choose|j: int| 0 <= j < nrep@.len() && rep@[class@[#[trigger] nrep@[j] as int] as int] != nrep@[j];
                                if j < rb.len() {
                                    assert(nrep@[j] == rb[j]);
                                }
                            }
                        }
                        assert forall|q: int| 0 <= q < rep@.len() && (#[trigger] rep@[q] as int) < s + 1 implies nrep@.contains(rep@[q]) by {
                            if rep@[q] == s {
                                assert(nrep@[rb.len() as int] == rep@[q]);
                            } else {
                                let i = choose|i: int| 0 <= i < rb.len() && rb[i] == rep@[q];
                                assert(nrep@[i] == rep@[q]);
                            }
                        }
                    }
                },
            }
            s = s + 1;
        }
        proof {
            self.lemma_refine_post(class@, new_class@);
            if !split {
                self.lemma_refine_stable(class@, rep@, new_class@, nrep@, split);
            } else {
                self.lemma_refine_grows(class@, rep@, nrep@);
            }
        }
        (new_class, nrep, split)
    }
}


impl DFA {
    /// Sharing a signature is transitive.
    proof fn lemma_sig_trans(&self, class: Seq<usize>, x: int, y: int, z: int)
        requires
            self.same_signature(class, x, y),
            self.same_signature(class, y, z),
        ensures
            self.same_signature(class, x, z),
            self.same_signature(class, z, x),
    {
        assert forall|a: int| 0 <= a < self.alphabet().len() implies class[#[trigger] self.next(x, a)] == class[self.next(z, a)] by {
            assert(class[self.next(x, a)] == class[self.next(y, a)]);
            assert(class[self.next(y, a)] == class[self.next(z, a)]);
        }
        assert forall|a: int| 0 <= a < self.alphabet().len() implies class[#[trigger] self.next(z, a)] == class[self.next(x, a)] by {
            assert(class[self.next(x, a)] == class[self.next(y, a)]);
            assert(class[self.next(y, a)] == class[self.next(z, a)]);
        }
    }

    /// Sharing a signature is symmetric.
    proof fn lemma_sig_sym(&self, class: Seq<usize>, x: int, y: int)
        requires
            self.same_signature(class, x, y),
        ensures
            self.same_signature(class, y, x),
    {
        assert forall|a: int| 0 <= a < self.alphabet().len() implies class[#[trigger] self.next(y, a)] == class[self.next(x, a)] by {
            assert(class[self.next(x, a)] == class[self.next(y, a)]);
        }
    }

    /// After a round of refinement the new classes are sound.
    proof fn lemma_refine_post(&self, class: Seq<usize>, new_class: Seq<usize>)
        requires
            self.wf(),
            class.len() == self.num_states(),
            self.partition_sound(class),
            new_class.len() == self.num_states(),
            forall|x: int, y: int| 0 <= x < self.num_states() && 0 <= y < self.num_states() ==> (#[trigger] new_class[x] == #[trigger] new_class[y]
                <==> self.same_signature(class, x, y)),
        ensures
            self.partition_sound(new_class),
    {
        assert forall|x: int, y: int|
            self.valid_state(x) && self.valid_state(y) && #[trigger] new_class[x] != #[trigger] new_class[y] implies self.distinguishable(x, y) by {
            if class[x] == class[y] {
                let a = choose|a: int| 0 <= a < self.alphabet().len() && class[#[trigger] self.next(x, a)] != class[self.next(y, a)];
                assert(self.valid_state(self.next(x, a)) && self.valid_state(self.next(y, a)));
                self.lemma_distinguish_pred(x, y, a);
            }
        }
    }

    /// A round of refinement that splits no class leaves a stable partition.
    proof fn lemma_refine_stable(&self, class: Seq<usize>, rep: Seq<usize>, new_class: Seq<usize>, nrep: Seq<usize>, split: bool)
        requires
            self.wf(),
            self.partition_ok(class, rep),
            self.partition_sound(class),
            new_class.len() == self.num_states(),
            forall|i: int, j: int| 0 <= i < j < nrep.len() ==> #[trigger] nrep[i] < #[trigger] nrep[j],
            forall|j: int| 0 <= j < nrep.len() ==> (#[trigger] nrep[j] as int) < self.num_states() && new_class[nrep[j] as int] == j,
            forall|x: int| 0 <= x < self.num_states() ==> (#[trigger] new_class[x] as int) < nrep.len() && nrep[new_class[x] as int] <= x,
            forall|x: int, y: int| 0 <= x < self.num_states() && 0 <= y < self.num_states() ==> (#[trigger] new_class[x] == #[trigger] new_class[y]
                <==> self.same_signature(class, x, y)),
            split <==> exists|j: int| 0 <= j < nrep.len() && rep[class[#[trigger] nrep[j] as int] as int] != nrep[j],
            forall|j: int| 0 <= j < rep.len() && (#[trigger] rep[j] as int) < self.num_states() ==> nrep.contains(rep[j]),
            !split,
        ensures
            self.partition_stable(class),
    {
        assert forall|x: int, y: int, a: int|
            self.valid_state(x) && self.valid_state(y) && 0 <= a < self.alphabet().len() && #[trigger] class[x] == #[trigger] class[y]
                implies class[#[trigger] self.next(x, a)] == class[self.next(y, a)] by {
            let l = rep[class[x] as int] as int;
            assert(class[l] == class[x]);
            if !self.same_signature(class, x, y) {
                let z = if self.same_signature(class, l, x) { y } else { x };
                if self.same_signature(class, l, z) {
                    if z == y {
                        self.lemma_sig_sym(class, l, x);
                        self.lemma_sig_trans(class, x, l, y);
                    } else {
                        assert(false);
                    }
                }
                let u = nrep[new_class[z] as int] as int;
                assert(new_class[u] == new_class[z]);
                assert(self.same_signature(class, u, z));
                assert(u != l);
                assert(rep[class[u] as int] != u);
                assert(false);
            }
        }
    }

    /// A round of refinement that splits a class adds a class.
    proof fn lemma_refine_grows(&self, class: Seq<usize>, rep: Seq<usize>, nrep: Seq<usize>)
        requires
            forall|i: int, j: int| 0 <= i < j < nrep.len() ==> #[trigger] nrep[i] < #[trigger] nrep[j],
            forall|i: int, j: int| 0 <= i < j < rep.len() ==> #[trigger] rep[i] < #[trigger] rep[j],
            forall|j: int| 0 <= j < rep.len() ==> (#[trigger] rep[j] as int) < class.len() && class[rep[j] as int] == j,
            forall|j: int| 0 <= j < nrep.len() ==> (#[trigger] nrep[j] as int) < class.len(),
            exists|j: int| 0 <= j < nrep.len() && rep[class[#[trigger] nrep[j] as int] as int] != nrep[j],
            forall|j: int| 0 <= j < rep.len() ==> nrep.contains(#[trigger] rep[j]),
        ensures
            nrep.len() > rep.len(),
    {
        let j0 = choose|j: int| 0 <= j < nrep.len() && rep[class[#[trigger] nrep[j] as int] as int] != nrep[j];
        let u = nrep[j0];
        assert(!rep.contains(u)) by {
            if rep.contains(u) {
                let i = choose|i: int| 0 <= i < rep.len() && rep[i] == u;
                assert(class[rep[i] as int] == i);
            }
        }
        assert(rep.no_duplicates()) by {
            assert forall|a: int, b: int| 0 <= a < rep.len() && 0 <= b < rep.len() && a != b implies rep[a] != rep[b] by {
                if a < b { assert(rep[a] < rep[b]); } else { assert(rep[b] < rep[a]); }
            }
        }
        assert(nrep.no_duplicates()) by {
            assert forall|a: int, b: int| 0 <= a < nrep.len() && 0 <= b < nrep.len() && a != b implies nrep[a] != nrep[b] by {
                if a < b { assert(nrep[a] < nrep[b]); } else { assert(nrep[b] < nrep[a]); }
            }
        }
        assert(rep.to_set().insert(u).subset_of(nrep.to_set())) by {
            assert forall|x: usize| rep.to_set().insert(u).contains(x) implies nrep.to_set().contains(x) by {
                if x == u {
                    assert(nrep.contains(u));
                } else {
                    let i = choose|i: int| 0 <= i < rep.len() && rep[i] == x;
                    assert(nrep.contains(rep[i]));
                }
            }
        }
        rep.unique_seq_to_set();
        nrep.unique_seq_to_set();
        vstd::set_lib::lemma_len_subset(rep.to_set().insert(u), nrep.to_set());
    }
}

/// Along a morphism, states told apart have images told apart.
pub proof fn lemma_morphism_distinguish(a: &DFA, b: &DFA, f: Seq<int>, s: int, t: int)
    requires
        a.wf(),
        b.wf(),
        is_morphism(a, b, f),
        a.valid_state(s),
        a.valid_state(t),
        0 <= f[s],
        0 <= f[t],
        a.distinguishable(s, t),
    ensures
        b.distinguishable(f[s], f[t]),
{
    let w = choose|w: Seq<char>| #[trigger] a.in_alphabet(w) && a.is_final(a.run(s, w)) != a.is_final(a.run(t, w));
    lemma_morphism_run(a, b, f, s, w);
    lemma_morphism_run(a, b, f, t, w);
    assert(b.in_alphabet(w));
}

impl DFA {
    /// Two automata with the same transitions are minimal together.
    pub proof fn lemma_same_minimal(&self, o: &DFA)
        requires
            o.wf(),
            self.wf(),
            self.same_transitions(o),
            o.is_minimal(),
        ensures
            self.is_minimal(),
    {
        assert forall|s: int| self.valid_state(s) implies #[trigger] self.reachable(s) by {
            assert(o.reachable(s));
            let w = choose|w: Seq<char>| #[trigger] o.in_alphabet(w) && o.run(o.start(), w) == s;
            self.lemma_same_run(o, o.start(), w);
            assert(self.in_alphabet(w));
        }
        assert forall|s: int, t: int| self.valid_state(s) && self.valid_state(t) && s != t implies #[trigger] self.distinguishable(s, t) by {
            assert(o.distinguishable(s, t));
            let w = choose|w: Seq<char>| #[trigger] o.in_alphabet(w) && o.is_final(o.run(s, w)) != o.is_final(o.run(t, w));
            self.lemma_same_run(o, s, w);
            self.lemma_same_run(o, t, w);
            o.lemma_run_valid(s, w);
            o.lemma_run_valid(t, w);
            assert(self.in_alphabet(w));
        }
    }

    /// Collapses each class of a stable partition into its first state.
    fn quotient(&self, class: &Vec<usize>, rep: &Vec<usize>) -> (r: DFA)
        requires
            self.wf(),
            self.all_reachable(),
            self.partition_ok(class@, rep@),
            self.partition_sound(class@),
            self.partition_stable(class@),
        ensures
            r.wf(),
            r.is_minimal(),
            r.alphabet() == self.alphabet(),
            r.num_states() == rep@.len(),
            r.cursor() == r.start(),
            is_morphism(self, &r, class@.map_values(|c: usize| c as int)),
            forall|w: Seq<char>| #[trigger] r.accepts_word(w) == self.accepts_word(w),
    {
        let m = rep.len();
        let k = self.alphabets.len();
        let n = self.states.len();
        let mut states: Vec<State> = Vec::new();
        let mut table: Vec<Vec<usize>> = Vec::new();
        let mut finals: Vec<bool> = Vec::new();
        let mut trapped: Vec<bool> = Vec::new();
        let mut j: usize = 0;
        while j < m
            invariant
                self.wf(),
                n == self.num_states(),
                k == self.alphabet().len(),
                m == rep@.len(),
                self.partition_ok(class@, rep@),
                j <= m,
                states@.len() == j,
                table@.len() == j,
                finals@.len() == j,
                trapped@.len() == j,
                forall|i: int| 0 <= i < j ==> (#[trigger] states@[i])@ == self.name(rep@[i] as int),
                forall|i: int| 0 <= i < j ==> #[trigger] finals@[i] == self.is_final(rep@[i] as int),
                forall|i: int| 0 <= i < j ==> (#[trigger] table@[i])@.len() == k,
                forall|i: int, a: int| 0 <= i < j && 0 <= a < k ==> #[trigger] table@[i]@[a] == class@[self.next(rep@[i] as int, a)],
            decreases m - j,
        {
            let o = rep[j];
            let mut row: Vec<usize> = Vec::new();
            let mut a: usize = 0;
            while a < k
                invariant
                    self.wf(),
                    n == self.num_states(),
                    k == self.alphabet().len(),
                    class@.len() == n,
                    o < n,
                    a <= k,
                    row@.len() == a,
                    forall|b: int| 0 <= b < a ==> #[trigger] row@[b] == class@[self.next(o as int, b)],
                decreases k - a,
            {
                let t = self.transition_table[o][a];
                proof {
                    assert(t == self.next(o as int, a as int));
                    assert(self.valid_state(self.next(o as int, a as int)));
                }
                row.push(class[t]);
                a = a + 1;
            }
            states.push(self.states[o].duplicate());
            table.push(row);
            finals.push(self.final_states[o]);
            trapped.push(false);
            j = j + 1;
        }
        let start = class[self.start_state];
        let r = DFA {
            states,
            alphabets: super::copy_vec(&self.alphabets),
            transition_table: table,
            start_state: start,
            current_state: start,
            final_states: finals,
            trapped_states: trapped,
        };
        proof {
            assert(r.layout_ok());
            assert forall|i: int, a: int| r.valid_state(i) && 0 <= a < r.alphabet().len() implies r.valid_state(
                #[trigger] r.next(i, a),
            ) by {
                let o = rep@[i] as int;
                assert(self.valid_state(self.next(o, a)));
                assert(r.next(i, a) == class@[self.next(o, a)] as int);
            }
            assert(r.wf());
            let f = class@.map_values(|c: usize| c as int);
            assert forall|x: int, a: int|
                self.valid_state(x) && 0 <= f[x] && 0 <= a < self.alphabet().len() implies 0 <= f[#[trigger] self.next(x, a)]
                    && f[self.next(x, a)] == r.next(f[x], a) by {
                assert(self.valid_state(self.next(x, a)));
                let l = rep@[class@[x] as int] as int;
                assert(class@[l] == class@[x]);
                assert(class@[self.next(l, a)] == class@[self.next(x, a)]);
                assert(r.next(class@[x] as int, a) == class@[self.next(l, a)] as int);
            }
            assert forall|x: int| self.valid_state(x) && 0 <= #[trigger] f[x] implies r.valid_state(f[x])
                && self.is_final(x) == r.is_final(f[x]) by {
                let l = rep@[class@[x] as int] as int;
                assert(class@[l] == class@[x]);
            }
            assert(is_morphism(self, &r, f));
            lemma_morphism_accepts(self, &r, f);
            assert forall|i: int| r.valid_state(i) implies #[trigger] r.reachable(i) by {
                let o = rep@[i] as int;
                assert(self.reachable(o));
                let w = choose|w: Seq<char>| #[trigger] self.in_alphabet(w) && self.run(self.start(), w) == o;
                lemma_morphism_run(self, &r, f, self.start(), w);
                assert(r.in_alphabet(w) && r.run(r.start(), w) == i);
            }
            assert forall|i: int, i2: int| r.valid_state(i) && r.valid_state(i2) && i != i2 implies #[trigger] r.distinguishable(i, i2) by {
                let o = rep@[i] as int;
                let o2 = rep@[i2] as int;
                assert(class@[o] != class@[o2]);
                lemma_morphism_distinguish(self, &r, f, o, o2);
            }
        }
        r
    }

    /// What minimization guarantees of its result `b` for the input `a`.
    pub open spec fn minimized_from(b: &DFA, a: &DFA) -> bool {
        &&& b.wf()
        &&& b.is_minimal()
        &&& b.canonical()
        &&& b.names_distinct()
        &&& b.trapped_ok()
        &&& b.alphabet() == a.alphabet()
        &&& b.cursor() == b.start()
        &&& forall|w: Seq<char>| #[trigger] b.accepts_word(w) == a.accepts_word(w)
        &&& a.is_minimal() ==> isomorphic(a, b)
    }

    /// States in one class of a stable partition that respects acceptance
    /// accept the same words.
    pub proof fn lemma_class_equivalent(&self, class: Seq<usize>, s: int, t: int, w: Seq<char>)
        requires
            self.wf(),
            class.len() == self.num_states(),
            self.partition_sound(class),
            self.partition_stable(class),
            self.valid_state(s),
            self.valid_state(t),
            class[s] == class[t],
            self.in_alphabet(w),
        ensures
            self.is_final(self.run(s, w)) == self.is_final(self.run(t, w)),
        decreases w.len(),
    {
        if w.len() > 0 {
            let c = w[0];
            assert(self.alphabet().contains(c));
            crate::dfa::lemma_index_of_contained(self.alphabet(), c);
            let a = self.alphabet().index_of(c);
            self.lemma_delta_valid(s, c);
            self.lemma_delta_valid(t, c);
            assert(class[self.next(s, a)] == class[self.next(t, a)]);
            assert forall|i: int| 0 <= i < w.drop_first().len() implies self.alphabet().contains(#[trigger] w.drop_first()[i]) by {
                assert(w.drop_first()[i] == w[i + 1]);
            }
            self.lemma_class_equivalent(class, self.delta(s, c), self.delta(t, c), w.drop_first());
        }
    }

    /// Collapses the automaton to its minimal form: unreachable states go,
    /// states that no word tells apart merge (each class of the coarsest
    /// stable partition that separates accepting from other states becomes one
    /// state), trapped states are recomputed and the states renamed
    /// canonically. The language is unchanged.
    pub fn minimize(&mut self)
        requires
            old(self).wf(),
        ensures
            Self::minimized_from(final(self), old(self)),
    {
        let ghost d0 = *self;
        self.remove_unreachable_states();
        let ghost d1 = *self;
        proof {
            if d0.is_minimal() {
                assert(isomorphic(&d0, &d1));
            }
        }
        let (mut class, mut rep) = self.initial_partition();
        let mut done = false;
        proof {
            lemma_increasing_len(rep@, self.num_states());
        }
        while !done
            invariant
                self.wf(),
                self.all_reachable(),
                self.partition_ok(class@, rep@),
                self.partition_sound(class@),
                rep@.len() <= self.num_states(),
                done ==> self.partition_stable(class@),
            decreases self.num_states() - rep@.len() + if done { 0int } else { 1int },
        {
            let (c2, r2, split) = self.refine(&class, &rep);
            if split {
                class = c2;
                rep = r2;
                proof {
                    lemma_increasing_len(rep@, self.num_states());
                }
            } else {
                done = true;
            }
        }
        let mut q = self.quotient(&class, &rep);
        // The number of states fits in a usize, which the proof below uses.
        let state_count = self.states.len();
        assert(state_count == self.num_states());
        let ghost q0 = q;
        proof {
            if d0.is_minimal() {
                self.lemma_quotient_iso(class@, rep@, &q0);
            }
        }
        q.update_trapped_states();
        proof {
            q.lemma_same_minimal(&q0);
            q.lemma_same_accepts(&q0);
            q.lemma_same_iso(&q0);
        }
        let ghost q1 = q;
        q.rename_states();
        proof {
            if d0.is_minimal() {
                let f1 = choose|f: Seq<int>| is_isomorphism(&d0, &d1, f);
                let f2 = choose|f: Seq<int>| is_isomorphism(&d1, &q0, f);
                let f3 = choose|f: Seq<int>| is_isomorphism(&q0, &q1, f);
                let f4 = choose|f: Seq<int>| is_isomorphism(&q1, &q, f);
                lemma_iso_compose(&d0, &d1, &q0, f1, f2);
                let g1 = choose|f: Seq<int>| is_isomorphism(&d0, &q0, f);
                lemma_iso_compose(&d0, &q0, &q1, g1, f3);
                let g2 = choose|f: Seq<int>| is_isomorphism(&d0, &q1, f);
                lemma_iso_compose(&d0, &q1, &q, g2, f4);
            }
        }
        *self = q;
    }

    /// On a minimal automaton the quotient renames the states only.
    proof fn lemma_quotient_iso(&self, class: Seq<usize>, rep: Seq<usize>, q: &DFA)
        requires
            self.wf(),
            q.wf(),
            self.is_minimal(),
            self.partition_ok(class, rep),
            self.partition_sound(class),
            self.partition_stable(class),
            q.num_states() == rep.len(),
            self.num_states() <= usize::MAX,
            is_morphism(self, q, class.map_values(|c: usize| c as int)),
        ensures
            isomorphic(self, q),
    {
        let f = class.map_values(|c: usize| c as int);
        assert forall|s: int, t: int| self.valid_state(s) && self.valid_state(t) && s != t implies #[trigger] f[s] != #[trigger] f[t] by {
            if class[s] == class[t] {
                assert(self.distinguishable(s, t));
                let w = choose|w: Seq<char>| #[trigger] self.in_alphabet(w) && self.is_final(self.run(s, w)) != self.is_final(self.run(t, w));
                self.lemma_class_equivalent(class, s, t, w);
            }
        }
        assert(rep.no_duplicates()) by {
            assert forall|a: int, b: int| 0 <= a < rep.len() && 0 <= b < rep.len() && a != b implies rep[a] != rep[b] by {
                if a < b { assert(rep[a] < rep[b]); } else { assert(rep[b] < rep[a]); }
            }
        }
        assert forall|x: usize| (x as int) < self.num_states() implies rep.contains(x) by {
            let l = rep[class[x as int] as int];
            assert(class[l as int] == class[x as int]);
            if l != x {
                assert(f[l as int] == f[x as int]);
            }
        }
        crate::dfa::lemma_perm_len(rep, self.num_states() as nat);
        assert forall|s: int| self.valid_state(s) implies 0 <= #[trigger] f[s] by {}
        assert(is_isomorphism(self, q, f));
    }
}

/// Minimizing an automaton that is already minimal changes only the names of
/// its states: the result has as many states and the same transitions,
/// start and accepting states, up to a renaming.
pub proof fn lemma_minimize_idempotent(a: &DFA, b: &DFA)
    requires
        a.is_minimal(),
        DFA::minimized_from(b, a),
    ensures
        b.num_states() == a.num_states(),
        isomorphic(a, b),
{
    let f = choose|f: Seq<int>| is_isomorphism(a, b, f);
}

/// Minimizing twice gives the automaton of the first minimization, up to a
/// renaming of its states.
pub proof fn lemma_minimize_twice(a: &DFA, b: &DFA, c: &DFA)
    requires
        DFA::minimized_from(b, a),
        DFA::minimized_from(c, b),
    ensures
        c.num_states() == b.num_states(),
        isomorphic(b, c),
        forall|w: Seq<char>| #[trigger] c.accepts_word(w) == a.accepts_word(w),
{
    lemma_minimize_idempotent(b, c);
}

} // verus!
