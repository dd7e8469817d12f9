use vstd::prelude::*;

use crate::dfa::{lemma_index_of_contained, DFA};

verus! {

/// `f` maps the states of `a` into those of `b` (negative entries leave a
/// state unmapped) so that the start state, the transitions and acceptance
/// are kept, over one shared alphabet.
pub open spec fn is_morphism(a: &DFA, b: &DFA, f: Seq<int>) -> bool {
    &&& f.len() == a.num_states()
    &&& a.alphabet() == b.alphabet()
    &&& f[a.start()] == b.start()
    &&& forall|s: int|
        a.valid_state(s) && 0 <= #[trigger] f[s] ==> b.valid_state(f[s]) && a.is_final(s)
            == b.is_final(f[s])
    &&& forall|s: int, x: int|
        a.valid_state(s) && 0 <= f[s] && 0 <= x < a.alphabet().len() ==> 0 <= f[#[trigger] a.next(
            s,
            x,
        )] && f[a.next(s, x)] == b.next(f[s], x)
}

/// `f` is a bijection from the states of `a` onto those of `b` that keeps
/// start, transitions and acceptance.
pub open spec fn is_isomorphism(a: &DFA, b: &DFA, f: Seq<int>) -> bool {
    &&& is_morphism(a, b, f)
    &&& a.num_states() == b.num_states()
    &&& forall|s: int| a.valid_state(s) ==> 0 <= #[trigger] f[s]
    &&& forall|s: int, t: int|
        a.valid_state(s) && a.valid_state(t) && s != t ==> #[trigger] f[s] != #[trigger] f[t]
}

/// The two automata are the same up to a renaming of their states.
pub open spec fn isomorphic(a: &DFA, b: &DFA) -> bool {
    exists|f: Seq<int>| is_isomorphism(a, b, f)
}

/// Along a morphism, runs correspond step by step.
pub proof fn lemma_morphism_run(a: &DFA, b: &DFA, f: Seq<int>, s: int, w: Seq<char>)
    requires
        a.wf(),
        b.wf(),
        is_morphism(a, b, f),
        a.valid_state(s),
        0 <= f[s],
        a.in_alphabet(w),
    ensures
        a.valid_state(a.run(s, w)),
        0 <= f[a.run(s, w)],
        f[a.run(s, w)] == b.run(f[s], w),
    decreases w.len(),
{
    if w.len() > 0 {
        let c = w[0];
        assert(a.alphabet().contains(c));
        lemma_index_of_contained(a.alphabet(), c);
        a.lemma_delta_valid(s, c);
        let x = a.alphabet().index_of(c);
        assert(f[a.next(s, x)] == b.next(f[s], x));
        assert forall|i: int| 0 <= i < w.drop_first().len() implies a.alphabet().contains(
            #[trigger] w.drop_first()[i],
        ) by {
            assert(w.drop_first()[i] == w[i + 1]);
        }
        lemma_morphism_run(a, b, f, a.delta(s, c), w.drop_first());
    }
}

/// Along a morphism, a state and its image accept the same words.
pub proof fn lemma_morphism_final(a: &DFA, b: &DFA, f: Seq<int>, s: int, w: Seq<char>)
    requires
        a.wf(),
        b.wf(),
        is_morphism(a, b, f),
        a.valid_state(s),
        0 <= f[s],
        a.in_alphabet(w),
    ensures
        a.is_final(a.run(s, w)) == b.is_final(b.run(f[s], w)),
{
    lemma_morphism_run(a, b, f, s, w);
}

/// A morphism keeps the language.
pub proof fn lemma_morphism_accepts(a: &DFA, b: &DFA, f: Seq<int>)
    requires
        a.wf(),
        b.wf(),
        is_morphism(a, b, f),
    ensures
        forall|w: Seq<char>| #[trigger] a.accepts_word(w) == b.accepts_word(w),
{
    assert forall|w: Seq<char>| #[trigger] a.accepts_word(w) == b.accepts_word(w) by {
        if a.in_alphabet(w) {
            lemma_morphism_final(a, b, f, a.start(), w);
        }
    }
}

/// A state and its image are live together.
pub proof fn lemma_morphism_live(a: &DFA, b: &DFA, f: Seq<int>, s: int)
    requires
        a.wf(),
        b.wf(),
        is_morphism(a, b, f),
        a.valid_state(s),
        0 <= f[s],
    ensures
        a.live(s) == b.live(f[s]),
{
    if a.live(s) {
        let w = choose|w: Seq<char>| #[trigger] a.in_alphabet(w) && a.is_final(a.run(s, w));
        lemma_morphism_final(a, b, f, s, w);
        assert(b.in_alphabet(w));
    }
    if b.live(f[s]) {
        let w = choose|w: Seq<char>| #[trigger] b.in_alphabet(w) && b.is_final(b.run(f[s], w));
        assert(a.in_alphabet(w));
        lemma_morphism_final(a, b, f, s, w);
    }
}

/// Isomorphisms compose.
pub proof fn lemma_iso_compose(a: &DFA, b: &DFA, c: &DFA, f: Seq<int>, g: Seq<int>)
    requires
        a.wf(),
        b.wf(),
        is_isomorphism(a, b, f),
        is_isomorphism(b, c, g),
    ensures
        isomorphic(a, c),
{
    let h = Seq::new(f.len(), |s: int| g[f[s]]);
    assert forall|s: int| a.valid_state(s) && 0 <= #[trigger] h[s] implies c.valid_state(h[s]) && a.is_final(s) == c.is_final(h[s]) by {
        assert(0 <= f[s]);
        assert(b.valid_state(f[s]));
        assert(0 <= g[f[s]]);
    }
    assert forall|s: int, x: int| a.valid_state(s) && 0 <= h[s] && 0 <= x < a.alphabet().len()
        implies 0 <= h[#[trigger] a.next(s, x)] && h[a.next(s, x)] == c.next(h[s], x) by {
        assert(0 <= f[s]);
        assert(f[a.next(s, x)] == b.next(f[s], x));
        assert(b.valid_state(f[s]));
        assert(0 <= g[f[s]]);
        assert(g[b.next(f[s], x)] == c.next(g[f[s]], x));
        assert(a.valid_state(a.next(s, x)));
    }
    assert(b.valid_state(f[a.start()]));
    assert(is_morphism(a, c, h));
    assert forall|s: int| a.valid_state(s) implies 0 <= #[trigger] h[s] by {
        assert(0 <= f[s]);
        assert(b.valid_state(f[s]));
    }
    assert forall|s: int, t: int| a.valid_state(s) && a.valid_state(t) && s != t implies #[trigger] h[s] != #[trigger] h[t] by {
        assert(f[s] != f[t]);
        assert(b.valid_state(f[s]) && b.valid_state(f[t]));
    }
    assert(is_isomorphism(a, c, h));
}

} // verus!
