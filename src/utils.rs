use vstd::prelude::*;

verus! {

broadcast use vstd::string::axiom_spec_iter;

/// The characters of `text`, in order.
pub fn chars_of(text: &str) -> (r: Vec<char>)
    ensures
        r@ == text@,
{
    let mut r: Vec<char> = Vec::new();
    for c in it: text.chars()
        invariant
            r@ == it.seq().subrange(0, it.index() as int),
    {
        r.push(c);
    }
    r
}

/// The identity of a state: an ordered sequence of atomic tags, each a symbol
/// and an integer. An atomic identity holds one tag; merging two identities
/// concatenates their tags, so a composite identity keeps its provenance.
#[derive(Clone, Debug, PartialEq, Eq, PartialOrd, Ord, Hash)]
pub struct State {
    parts: Vec<(char, usize)>,
}

impl View for State {
    type V = Seq<(char, usize)>;

    closed spec fn view(&self) -> Seq<(char, usize)> {
        self.parts@
    }
}

impl State {
    /// The identity with no tags (names the empty set of states).
    pub fn new_empty() -> (r: State)
        ensures
            r@ == Seq::<(char, usize)>::empty(),
    {
        State { parts: Vec::new() }
    }

    /// The atomic identity `symbol` `index`.
    pub fn new(symbol: char, index: usize) -> (r: State)
        ensures
            r@ == seq![(symbol, index)],
    {
        let mut parts: Vec<(char, usize)> = Vec::new();
        parts.push((symbol, index));
        State { parts }
    }

    /// The tags of this identity, in order.
    pub fn get_index(&self) -> (r: Vec<(char, usize)>)
        ensures
            r@ == self@,
    {
        let mut r: Vec<(char, usize)> = Vec::new();
        let mut i: usize = 0;
        while i < self.parts.len()
            invariant
                i <= self.parts@.len(),
                r@ == self.parts@.subrange(0, i as int),
            decreases self.parts@.len() - i,
        {
            r.push(self.parts[i]);
            i = i + 1;
            assert(r@ =~= self.parts@.subrange(0, i as int));
        }
        assert(r@ =~= self.parts@);
        r
    }

    /// The merge of two identities: the tags of `self` followed by those of `other`.
    pub fn concat(&self, other: &State) -> (r: State)
        ensures
            r@ == self@ + other@,
    {
        let mut parts = self.get_index();
        let mut i: usize = 0;
        while i < other.parts.len()
            invariant
                i <= other.parts@.len(),
                parts@ == self@ + other.parts@.subrange(0, i as int),
            decreases other.parts@.len() - i,
        {
            parts.push(other.parts[i]);
            i = i + 1;
            assert(parts@ =~= self@ + other.parts@.subrange(0, i as int));
        }
        assert(other.parts@.subrange(0, other.parts@.len() as int) =~= other@);
        State { parts }
    }

    /// A copy of this identity.
    pub fn duplicate(&self) -> (r: State)
        ensures
            r@ == self@,
    {
        State { parts: self.get_index() }
    }

    /// Whether the two identities hold the same tags.
    pub fn equals(&self, other: &State) -> (r: bool)
        ensures
            r == (self@ == other@),
    {
        if self.parts.len() != other.parts.len() {
            return false;
        }
        let mut i: usize = 0;
        while i < self.parts.len()
            invariant
                i <= self.parts@.len(),
                self.parts@.len() == other.parts@.len(),
                forall|j: int| 0 <= j < i ==> self.parts@[j] == other.parts@[j],
            decreases self.parts@.len() - i,
        {
            let (c1, n1) = self.parts[i];
            let (c2, n2) = other.parts[i];
            if c1 != c2 || n1 != n2 {
                return false;
            }
            i = i + 1;
        }
        assert(self.parts@ =~= other.parts@);
        true
    }
}

/// The errors that construction and execution of automata report.
#[derive(Clone, Copy, PartialEq, Eq, Structural, PartialOrd, Ord, Debug, Hash)]
pub enum CustomError {
    /// The transition table's keys are not exactly states × alphabet.
    InvalidDFAKeys,
    /// An accepting state is not among the states.
    InvalidDFAFinalStates,
    /// The start state is not among the states.
    NoDFAStartState,
    /// A symbol outside the alphabet was met.
    InvalidAlphabet,
}

} // verus!
