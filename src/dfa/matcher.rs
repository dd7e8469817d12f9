use vstd::prelude::*;

use super::{lemma_index_of_contained, DFA};
use crate::table::char_position;
use crate::utils::{chars_of, CustomError};
use core::ops::Range;
use itertools::Itertools;

verus! {

/// The number of bytes that UTF-8 takes for `c`.
pub open spec fn utf8_width(c: char) -> nat {
    if (c as u32) < 0x80 {
        1
    } else if (c as u32) < 0x800 {
        2
    } else if (c as u32) < 0x10000 {
        3
    } else {
        4
    }
}

/// The byte offset of the character at position `j` of `text`.
pub open spec fn byte_offset(text: Seq<char>, j: int) -> nat
    decreases j,
{
    if j <= 0 || text.len() == 0 {
        0
    } else if j > text.len() {
        byte_offset(text, text.len() as int)
    } else {
        byte_offset(text, j - 1) + utf8_width(text[j - 1])
    }
}

/// The number of bytes that UTF-8 takes for `c`.
pub fn utf8_len(c: char) -> (r: usize)
    ensures
        r == utf8_width(c),
{
    let x = c as u32;
    if x < 0x80 {
        1
    } else if x < 0x800 {
        2
    } else if x < 0x10000 {
        3
    } else {
        4
    }
}

/// Offsets only grow along the text.
pub proof fn lemma_byte_offset_mono(text: Seq<char>, i: int, j: int)
    requires
        0 <= i <= j <= text.len(),
    ensures
        byte_offset(text, i) <= byte_offset(text, j),
    decreases j - i,
{
    if i < j {
        lemma_byte_offset_mono(text, i, j - 1);
    }
}

/// The byte offset of every position of `text`, its end included.
fn byte_offsets(text: &Vec<char>) -> (r: Vec<usize>)
    requires
        byte_offset(text@, text@.len() as int) <= usize::MAX,
    ensures
        r@.len() == text@.len() + 1,
        forall|j: int| 0 <= j <= text@.len() ==> #[trigger] r@[j] == byte_offset(text@, j),
{
    let mut r: Vec<usize> = Vec::new();
    r.push(0);
    let mut total: usize = 0;
    let mut j: usize = 0;
    while j < text.len()
        invariant
            j <= text@.len(),
            byte_offset(text@, text@.len() as int) <= usize::MAX,
            total == byte_offset(text@, j as int),
            r@.len() == j + 1,
            forall|q: int| 0 <= q <= j ==> #[trigger] r@[q] == byte_offset(text@, q),
        decreases text@.len() - j,
    {
        proof {
            lemma_byte_offset_mono(text@, j + 1, text@.len() as int);
        }
        total = total + utf8_len(text[j]);
        j = j + 1;
        r.push(total);
    }
    r
}

impl DFA {
    /// The scan that `find` performs, from position `j` of `text`, with the
    /// cursor at `cur`, the candidate window [`start`, `end`) in character
    /// positions, and `found` telling whether a match is open.
    pub open spec fn scan(&self, text: Seq<char>, j: int, cur: int, start: int, end: int, found: bool) -> Result<
        Option<(int, int)>,
        CustomError,
    >
        decreases text.len() - j,
    {
        if j >= text.len() {
            Ok(
                if found {
                    Some((start, end))
                } else {
                    None
                },
            )
        } else {
            let restart = self.is_trapped(cur);
            let c1 = if restart { self.start() } else { cur };
            let s1 = if restart { j } else { start };
            let e1 = if restart { j } else { end };
            let f1 = if restart { false } else { found };
            if !self.alphabet().contains(text[j]) {
                Err(CustomError::InvalidAlphabet)
            } else {
                let c2 = self.delta(c1, text[j]);
                let f2 = f1 || self.is_final(c2);
                if f2 && !self.is_final(c2) {
                    Ok(Some((s1, e1)))
                } else {
                    self.scan(
                        text,
                        j + 1,
                        c2,
                        s1,
                        if !self.is_trapped(c2) { e1 + 1 } else { e1 },
                        f2,
                    )
                }
            }
        }
    }

    /// The first match in `text`, as a window of character positions: the
    /// scan from the start state with no window open.
    pub open spec fn find_spec(&self, text: Seq<char>) -> Result<Option<(int, int)>, CustomError> {
        self.scan(text, 0, self.start(), 0, 0, self.is_final(self.start()))
    }

    /// Runs the scan over `text` from position `from` on, as on the text that
    /// begins there; the window is returned in positions of that suffix.
    fn find_from(&mut self, text: &Vec<char>, from: usize) -> (r: Result<Option<(usize, usize)>, CustomError>)
        requires
            old(self).wf(),
            from <= text@.len(),
        ensures
            final(self).wf(),
            final(self).same_automaton(old(self)),
            match old(self).find_spec(text@.subrange(from as int, text@.len() as int)) {
                Ok(Some((s, e))) => r == Ok::<Option<(usize, usize)>, CustomError>(Some((s as usize, e as usize))) && 0 <= s <= e
                    && e <= text@.len() - from,
                Ok(None) => r == Ok::<Option<(usize, usize)>, CustomError>(None),
                Err(e) => r == Err::<Option<(usize, usize)>, CustomError>(e),
            },
    {
        let ghost d0 = *self;
        let ghost t = text@.subrange(from as int, text@.len() as int);
        self.reset_cursor();
        let mut start: usize = 0;
        let mut end: usize = 0;
        let mut found = self.final_states[self.current_state];
        let mut p: usize = from;
        assert(self.is_final(self.cursor()) == d0.is_final(self.cursor()));
        assert(found == self.is_final(self.cursor()));
        assert(found == d0.is_final(d0.start()));
        while p < text.len()
            invariant
                self.wf(),
                d0.wf(),
                self.same_automaton(&d0),
                d0 == *old(self),
                t == text@.subrange(from as int, text@.len() as int),
                from <= p <= text@.len(),
                start <= end <= p - from,
                d0.find_spec(t) == d0.scan(t, p - from, self.cursor(), start as int, end as int, found),
            decreases text@.len() - p,
        {
            let c = text[p];
            let j = p - from;
            assert(c == t[j as int]);
            let ghost cur0 = self.cursor();
            let ghost start0 = start as int;
            let ghost end0 = end as int;
            let ghost found0 = found;
            assert(self.is_trapped(cur0) == d0.is_trapped(cur0));
            assert(self.trapped_states@[self.current_state as int] == d0.is_trapped(cur0));
            if self.trapped_states[self.current_state] {
                self.reset_cursor();
                start = j;
                end = j;
                found = false;
            }
            let ghost c1 = self.cursor();
            match self.update_to_next_state(c) {
                Ok(()) => {},
                Err(e) => {
                    return Err(e);
                },
            }
            proof {
                lemma_index_of_contained(d0.alphabet(), c);
                assert(self.delta(c1, c) == d0.delta(c1, c));
                assert(self.is_final(self.cursor()) == d0.is_final(self.cursor()));
                assert(self.is_trapped(self.cursor()) == d0.is_trapped(self.cursor()));
                assert(self.final_states@[self.current_state as int] == d0.is_final(self.cursor()));
                assert(self.trapped_states@[self.current_state as int] == d0.is_trapped(self.cursor()));
                assert(d0.alphabet().contains(t[j as int]));
            }
            if self.final_states[self.current_state] {
                found = true;
            }
            if found && !self.final_states[self.current_state] {
                assert(d0.scan(t, j as int, cur0, start0, end0, found0) == Ok::<Option<(int, int)>, CustomError>(Some((start as int, end as int))));
                return Ok(Some((start, end)));
            }
            if !self.trapped_states[self.current_state] {
                end = end + 1;
            }
            assert(d0.scan(t, j as int, cur0, start0, end0, found0) == d0.scan(t, j + 1, self.cursor(), start as int, end as int, found));
            p = p + 1;
        }
        if found {
            Ok(Some((start, end)))
        } else {
            Ok(None)
        }
    }
}

/// Relies on itertools' `Itertools::unique`: it yields each distinct symbol of
/// `v` once, at its first appearance.
#[verifier::external_body]
fn unique_symbols(v: &Vec<char>) -> (r: Vec<char>)
    ensures
        r@.no_duplicates(),
        r@.to_set() == v@.to_set(),
{
    v.iter().copied().unique().collect()
}

/// Whether every entry of `v` is an entry of `w`.
fn all_within(v: &Vec<char>, w: &Vec<char>) -> (r: bool)
    ensures
        r == forall|i: int| 0 <= i < v@.len() ==> w@.contains(#[trigger] v@[i]),
{
    let mut i: usize = 0;
    while i < v.len()
        invariant
            i <= v@.len(),
            forall|j: int| 0 <= j < i ==> w@.contains(#[trigger] v@[j]),
        decreases v@.len() - i,
    {
        if char_position(w, v[i]).is_none() {
            return false;
        }
        i = i + 1;
    }
    true
}

/// The byte range of the character window [`s`, `e`) of `text`.
pub open spec fn byte_range(text: Seq<char>, s: int, e: int) -> (int, int) {
    (byte_offset(text, s) as int, byte_offset(text, e) as int)
}

/// The matches of an automaton in a text, produced one at a time: each is
/// found by `find` on the text that remains from the current position, and
/// the position then moves to the end of the match, by at least one symbol.
pub struct MatchIterator {
    dfa: DFA,
    text: Vec<char>,
    offsets: Vec<usize>,
    start: usize,
}

impl MatchIterator {
    /// The automaton that the matches come from.
    pub closed spec fn automaton(&self) -> DFA {
        self.dfa
    }

    /// The text that is searched.
    pub closed spec fn text(&self) -> Seq<char> {
        self.text@
    }

    /// The character position from which the next search starts.
    pub closed spec fn position(&self) -> int {
        self.start as int
    }

    /// The automaton is well formed, the position lies in the text and the
    /// byte offsets are those of the text.
    pub closed spec fn wf(&self) -> bool {
        &&& self.dfa.wf()
        &&& self.start <= self.text@.len()
        &&& self.offsets@.len() == self.text@.len() + 1
        &&& forall|j: int| 0 <= j <= self.text@.len() ==> #[trigger] self.offsets@[j] == byte_offset(self.text@, j)
    }

    /// The next match, as a byte range of the text.
    pub fn next(&mut self) -> (r: Option<Range<usize>>)
        requires
            old(self).wf(),
        ensures
            final(self).wf(),
            final(self).automaton().same_automaton(&old(self).automaton()),
            final(self).text() == old(self).text(),
            ({
                let t = old(self).text();
                let p = old(self).position();
                if p >= t.len() {
                    r is None && final(self).position() == p
                } else {
                    match old(self).automaton().find_spec(t.subrange(p, t.len() as int)) {
                        Ok(Some((s, e))) => r matches Some(rg) && (rg.start as int, rg.end as int) == byte_range(t, p + s, p + e)
                            && final(self).position() == if p + e > p + 1 { p + e } else { p + 1 },
                        _ => r is None && final(self).position() == p,
                    }
                }
            }),
    {
        if self.start >= self.text.len() {
            return None;
        }
        match self.dfa.find_from(&self.text, self.start) {
            Ok(Some((s, e))) => {
                let rs = self.start + s;
                let re = self.start + e;
                let range = Range { start: self.offsets[rs], end: self.offsets[re] };
                self.start = if re > self.start + 1 { re } else { self.start + 1 };
                Some(range)
            },
            _ => None,
        }
    }
}

impl DFA {
    /// The first match in `text`: the cursor starts at the start state and
    /// the window restarts whenever the cursor sits in a trapped state; a
    /// match ends when the cursor leaves the accepting states after having
    /// been in one. The result is a byte range of `text`.
    pub fn find(&mut self, text: &str) -> (r: Result<Option<Range<usize>>, CustomError>)
        requires
            old(self).wf(),
            byte_offset(text@, text@.len() as int) <= usize::MAX,
        ensures
            final(self).wf(),
            final(self).same_automaton(old(self)),
            match old(self).find_spec(text@) {
                Ok(Some((s, e))) => r matches Ok(Some(rg)) && (rg.start as int, rg.end as int) == byte_range(text@, s, e),
                Ok(None) => r matches Ok(None),
                Err(e) => r == Err::<Option<Range<usize>>, CustomError>(e),
            },
    {
        let chars = chars_of(text);
        let offsets = byte_offsets(&chars);
        assert(chars@.subrange(0, chars@.len() as int) =~= chars@);
        match self.find_from(&chars, 0) {
            Ok(Some((s, e))) => Ok(Some(Range { start: offsets[s], end: offsets[e] })),
            Ok(None) => Ok(None),
            Err(e) => Err(e),
        }
    }

    /// All the matches in `text`, one after another, when the symbols that
    /// occur in `text` are exactly the alphabet; else `InvalidAlphabet`.
    pub fn find_all(&mut self, text: &str) -> (r: Result<MatchIterator, CustomError>)
        requires
            old(self).wf(),
            byte_offset(text@, text@.len() as int) <= usize::MAX,
        ensures
            final(self).wf(),
            final(self).same_automaton(old(self)),
            match r {
                Ok(it) => text@.to_set() == old(self).alphabet().to_set() && it.wf() && it.automaton().same_automaton(old(self))
                    && it.text() == text@ && it.position() == 0,
                Err(e) => e == CustomError::InvalidAlphabet && text@.to_set() != old(self).alphabet().to_set(),
            },
    {
        let chars = chars_of(text);
        let distinct = unique_symbols(&chars);
        if !(all_within(&distinct, &self.alphabets) && all_within(&self.alphabets, &distinct)) {
            proof {
                if text@.to_set() == self.alphabet().to_set() {
                    assert forall|i: int| 0 <= i < distinct@.len() implies self.alphabet().contains(#[trigger] distinct@[i]) by {
                        assert(distinct@.to_set().contains(distinct@[i]));
                    }
                    assert forall|i: int| 0 <= i < self.alphabet().len() implies distinct@.contains(#[trigger] self.alphabet()[i]) by {
                        assert(self.alphabet().to_set().contains(self.alphabet()[i]));
                    }
                }
            }
            return Err(CustomError::InvalidAlphabet);
        }
        proof {
            assert forall|c: char| text@.to_set().contains(c) <==> self.alphabet().to_set().contains(c) by {
                assert(distinct@.to_set().contains(c) == distinct@.contains(c));
                if distinct@.contains(c) {
                    let i = choose|i: int| 0 <= i < distinct@.len() && distinct@[i] == c;
                    assert(self.alphabet().contains(distinct@[i]));
                }
                if self.alphabet().contains(c) {
                    let i = choose|i: int| 0 <= i < self.alphabet().len() && self.alphabet()[i] == c;
                    assert(distinct@.contains(self.alphabet()[i]));
                }
            }
            assert(text@.to_set() =~= self.alphabet().to_set());
        }
        let offsets = byte_offsets(&chars);
        let it = MatchIterator { dfa: self.duplicate(), text: chars, offsets, start: 0 };
        Ok(it)
    }
}

/// Transitions out of a trapped state stay trapped.
pub proof fn lemma_trapped_step(d: &DFA, c: int, x: char)
    requires
        d.wf(),
        d.trapped_ok(),
        d.valid_state(c),
        d.alphabet().contains(x),
        d.is_trapped(c),
    ensures
        d.is_trapped(d.delta(c, x)),
{
    lemma_index_of_contained(d.alphabet(), x);
    d.lemma_delta_valid(c, x);
    if d.live(d.delta(c, x)) {
        d.lemma_live_pred(c, d.alphabet().index_of(x));
    }
}

/// What holds along the scan: the cursor is trapped, or it is where the
/// window's text leads from the start state and the window ends at the
/// current position; an open match sits on an accepting state.
pub open spec fn scan_inv(d: &DFA, text: Seq<char>, j: int, cur: int, start: int, end: int, found: bool) -> bool {
    &&& 0 <= start <= end <= j <= text.len()
    &&& d.valid_state(cur)
    &&& !d.is_trapped(cur) ==> end == j && cur == d.run(d.start(), text.subrange(start, j))
    &&& found ==> d.is_final(cur)
}

/// The scan only reports windows that the automaton accepts.
pub proof fn lemma_scan_window(d: &DFA, text: Seq<char>, j: int, cur: int, start: int, end: int, found: bool)
    requires
        d.wf(),
        d.trapped_ok(),
        d.in_alphabet(text),
        scan_inv(d, text, j, cur, start, end, found),
    ensures
        d.scan(text, j, cur, start, end, found) matches Ok(Some((s, e))) ==> 0 <= s <= e <= text.len()
            && d.accepts_word(text.subrange(s, e)),
    decreases text.len() - j,
{
    assert forall|i: int, a: int, b: int| 0 <= a <= b <= text.len() && 0 <= i < b - a implies d.alphabet().contains(#[trigger] text.subrange(a, b)[i]) by {
        assert(text.subrange(a, b)[i] == text[a + i]);
    }
    if found {
        assert(d.live(cur)) by {
            let e = Seq::<char>::empty();
            assert(d.in_alphabet(e) && d.is_final(d.run(cur, e)));
        }
    }
    if j < text.len() {
        let x = text[j];
        assert(d.alphabet().contains(x));
        let restart = d.is_trapped(cur);
        let c1 = if restart { d.start() } else { cur };
        let s1 = if restart { j } else { start };
        let e1 = if restart { j } else { end };
        let f1 = if restart { false } else { found };
        assert(text.subrange(j, j) =~= Seq::<char>::empty());
        let c2 = d.delta(c1, x);
        d.lemma_delta_valid(c1, x);
        let f2 = f1 || d.is_final(c2);
        if d.is_trapped(c1) {
            lemma_trapped_step(d, c1, x);
        }
        if !d.is_trapped(c1) {
            assert(text.subrange(s1, j + 1) =~= text.subrange(s1, j).push(x));
            d.lemma_run_snoc(d.start(), text.subrange(s1, j), x);
        }
        if f2 && !d.is_final(c2) {
            assert(f1);
            assert(d.live(c1)) by {
                let e = Seq::<char>::empty();
                assert(d.in_alphabet(e) && d.is_final(d.run(c1, e)));
            }
        } else {
            let e2 = if !d.is_trapped(c2) { e1 + 1 } else { e1 };
            assert(scan_inv(d, text, j + 1, c2, s1, e2, f2));
            lemma_scan_window(d, text, j + 1, c2, s1, e2, f2);
        }
    } else {
        if found {
            assert(d.live(cur)) by {
                let e = Seq::<char>::empty();
                assert(d.in_alphabet(e) && d.is_final(d.run(cur, e)));
            }
        }
    }
}

/// A match that `find` reports is a window of the text that the automaton
/// accepts; since trapped states restart the window, no trapped state lies
/// inside it.
pub proof fn lemma_find_window_accepted(d: &DFA, text: Seq<char>)
    requires
        d.wf(),
        d.trapped_ok(),
        d.in_alphabet(text),
    ensures
        d.find_spec(text) matches Ok(Some((s, e))) ==> 0 <= s <= e <= text.len() && d.accepts_word(text.subrange(s, e)),
{
    assert(text.subrange(0, 0) =~= Seq::<char>::empty());
    if d.is_final(d.start()) {
        assert(d.live(d.start())) by {
            let e = Seq::<char>::empty();
            assert(d.in_alphabet(e) && d.is_final(d.run(d.start(), e)));
        }
    }
    lemma_scan_window(d, text, 0, d.start(), 0, 0, d.is_final(d.start()));
}

} // verus!
