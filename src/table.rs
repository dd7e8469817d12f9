use vstd::prelude::*;

use crate::input::{entries_of, names_of, Name};
use crate::utils::State;

verus! {

/// The position in `names` of a state with the identity of `s`.
pub(crate) fn position_of(names: &Vec<State>, s: &State) -> (r: Option<usize>)
    ensures
        match r {
            Some(i) => i < names@.len() && names@[i as int]@ == s@ && names_of(names@)[i as int] == s@
                && names_of(names@).contains(s@) && forall|j: int| 0 <= j < i ==> names@[j]@ != s@,
            None => (forall|i: int| 0 <= i < names@.len() ==> names@[i]@ != s@) && !names_of(
                names@,
            ).contains(s@),
        },
{
    let mut i: usize = 0;
    while i < names.len()
        invariant
            i <= names@.len(),
            forall|j: int| 0 <= j < i ==> names@[j]@ != s@,
        decreases names@.len() - i,
    {
        if names[i].equals(s) {
            assert(names_of(names@)[i as int] == s@);
            return Some(i);
        }
        i = i + 1;
    }
    assert(!names_of(names@).contains(s@)) by {
        if names_of(names@).contains(s@) {
            let j = choose|j: int| 0 <= j < names_of(names@).len() && names_of(names@)[j] == s@;
            assert(names@[j]@ == s@);
        }
    }
    None
}

/// The position of `c` in `v`.
pub(crate) fn char_position(v: &Vec<char>, c: char) -> (r: Option<usize>)
    ensures
        match r {
            Some(i) => i < v@.len() && v@[i as int] == c && v@.contains(c),
            None => !v@.contains(c),
        },
{
    let mut i: usize = 0;
    while i < v.len()
        invariant
            i <= v@.len(),
            forall|j: int| 0 <= j < i ==> v@[j] != c,
        decreases v@.len() - i,
    {
        if v[i] == c {
            assert(v@.contains(c));
            return Some(i);
        }
        i = i + 1;
    }
    None
}

/// The states of `v`, each identity once, in order of first appearance.
pub(crate) fn distinct_states(v: &Vec<State>) -> (r: Vec<State>)
    ensures
        forall|i: int, j: int| 0 <= i < j < r@.len() ==> r@[i]@ != r@[j]@,
        names_of(r@).to_set() == names_of(v@).to_set(),
{
    let mut r: Vec<State> = Vec::new();
    let mut p: usize = 0;
    while p < v.len()
        invariant
            p <= v@.len(),
            forall|i: int, j: int| 0 <= i < j < r@.len() ==> r@[i]@ != r@[j]@,
            forall|i: int| 0 <= i < r@.len() ==> exists|j: int| 0 <= j < p && #[trigger] v@[j]@ == #[trigger] r@[i]@,
            forall|j: int| 0 <= j < p ==> exists|i: int| 0 <= i < r@.len() && r@[i]@ == #[trigger] v@[j]@,
        decreases v@.len() - p,
    {
        match position_of(&r, &v[p]) {
            Some(i) => {
                assert(r@[i as int]@ == v@[p as int]@);
            },
            None => {
                let ghost rb = r@;
                r.push(v[p].duplicate());
                proof {
                    assert forall|i: int| 0 <= i < r@.len() implies exists|j: int| 0 <= j < p + 1 && #[trigger] v@[j]@ == #[trigger] r@[i]@ by {
                        if i < rb.len() {
                            assert(r@[i] == rb[i]);
                        } else {
                            assert(v@[p as int]@ == r@[i]@);
                        }
                    }
                    assert forall|j: int| 0 <= j < p + 1 implies exists|i: int| 0 <= i < r@.len() && r@[i]@ == #[trigger] v@[j]@ by {
                        if j < p {
                            let i = choose|i: int| 0 <= i < rb.len() && rb[i]@ == v@[j]@;
                            assert(r@[i] == rb[i]);
                        } else {
                            assert(r@[rb.len() as int]@ == v@[j]@);
                        }
                    }
                }
            },
        }
        p = p + 1;
    }
    proof {
        assert forall|x: Name| names_of(r@).to_set().contains(x) <==> names_of(v@).to_set().contains(x) by {
            if names_of(r@).to_set().contains(x) {
                let i = choose|i: int| 0 <= i < names_of(r@).len() && names_of(r@)[i] == x;
                let j = choose|j: int| 0 <= j < p && #[trigger] v@[j]@ == r@[i]@;
                assert(names_of(v@)[j] == x);
            }
            if names_of(v@).to_set().contains(x) {
                let j = choose|j: int| 0 <= j < names_of(v@).len() && names_of(v@)[j] == x;
                let i = choose|i: int| 0 <= i < r@.len() && r@[i]@ == #[trigger] v@[j]@;
                assert(names_of(r@)[i] == x);
            }
        }
        assert(names_of(r@).to_set() =~= names_of(v@).to_set());
    }
    r
}

/// The symbols of `v`, each once, in order of first appearance.
pub(crate) fn distinct_chars(v: &Vec<char>) -> (r: Vec<char>)
    ensures
        r@.no_duplicates(),
        r@.to_set() == v@.to_set(),
{
    let mut r: Vec<char> = Vec::new();
    let mut p: usize = 0;
    while p < v.len()
        invariant
            p <= v@.len(),
            r@.no_duplicates(),
            forall|x: char| r@.contains(x) <==> exists|j: int| 0 <= j < p && v@[j] == x,
        decreases v@.len() - p,
    {
        let c = v[p];
        let mut present = false;
        let mut i: usize = 0;
        while i < r.len()
            invariant
                i <= r@.len(),
                present == exists|j: int| 0 <= j < i && r@[j] == c,
            decreases r@.len() - i,
        {
            if r[i] == c {
                present = true;
            }
            i = i + 1;
        }
        let ghost rb = r@;
        if !present {
            r.push(c);
        }
        proof {
            assert forall|x: char| r@.contains(x) <==> exists|j: int| 0 <= j < p + 1 && v@[j] == x by {
                if !present {
                    assert(r@ == rb.push(c));
                    if r@.contains(x) && x != c {
                        let j = choose|j: int| 0 <= j < r@.len() && r@[j] == x;
                        assert(rb[j] == x);
                    }
                    if rb.contains(x) {
                        let j = choose|j: int| 0 <= j < rb.len() && rb[j] == x;
                        assert(r@[j] == x);
                    }
                    assert(r@[rb.len() as int] == c);
                }
                if x == c {
                    assert(v@[p as int] == c);
                }
            }
        }
        p = p + 1;
    }
    proof {
        assert forall|x: char| r@.to_set().contains(x) <==> v@.to_set().contains(x) by {
            if v@.contains(x) {
                let j = choose|j: int| 0 <= j < v@.len() && v@[j] == x;
            }
        }
        assert(r@.to_set() =~= v@.to_set());
    }
    r
}

/// Whether every key and destination of `t` names a state of `names` and a
/// symbol of `alpha`.
pub(crate) fn entries_known(names: &Vec<State>, alpha: &Vec<char>, t: &Vec<((State, char), State)>) -> (r: bool)
    ensures
        r == forall|i: int|
            0 <= i < t@.len() ==> names_of(names@).contains((#[trigger] entries_of(t@)[i]).0.0)
                && alpha@.contains(entries_of(t@)[i].0.1) && names_of(names@).contains(
                entries_of(t@)[i].1,
            ),
{
    let mut j: usize = 0;
    while j < t.len()
        invariant
            j <= t@.len(),
            forall|i: int|
                0 <= i < j ==> names_of(names@).contains((#[trigger] entries_of(t@)[i]).0.0)
                    && alpha@.contains(entries_of(t@)[i].0.1) && names_of(names@).contains(
                    entries_of(t@)[i].1,
                ),
        decreases t@.len() - j,
    {
        let e = &t[j];
        assert(entries_of(t@)[j as int] == ((e.0.0@, e.0.1), e.1@));
        let from_ok = position_of(names, &e.0.0).is_some();
        let to_ok = position_of(names, &e.1).is_some();
        let sym_ok = char_position(alpha, e.0.1).is_some();
        if !(from_ok && to_ok && sym_ok) {
            proof {
                assert(!(names_of(names@).contains(entries_of(t@)[j as int].0.0)
                    && alpha@.contains(entries_of(t@)[j as int].0.1) && names_of(names@).contains(
                    entries_of(t@)[j as int].1)));
            }
            return false;
        }
        j = j + 1;
    }
    true
}

/// The table of destination positions: row `p`, column `a` holds the
/// position in `names` of the destination of the entry keyed by state `p`
/// and symbol `a`; a missing key is reported by its positions.
pub(crate) fn build_table(names: &Vec<State>, alpha: &Vec<char>, t: &Vec<((State, char), State)>) -> (r: Result<Vec<Vec<usize>>, (usize, usize)>)
    requires
        forall|i: int|
            0 <= i < t@.len() ==> names_of(names@).contains((#[trigger] entries_of(t@)[i]).0.0)
                && alpha@.contains(entries_of(t@)[i].0.1) && names_of(names@).contains(
                entries_of(t@)[i].1,
            ),
    ensures
        match r {
            Ok(table) => table@.len() == names@.len() && (forall|p: int|
                0 <= p < names@.len() ==> (#[trigger] table@[p])@.len() == alpha@.len()) && (forall|p: int, a: int|
                0 <= p < names@.len() && 0 <= a < alpha@.len() ==> (table@[p]@[a] as int) < names@.len()
                    && entries_of(t@).contains(
                    ((names@[p]@, alpha@[a]), names@[table@[p]@[a] as int]@),
                )),
            Err((p, a)) => p < names@.len() && a < alpha@.len() && forall|q: int|
                0 <= q < t@.len() ==> #[trigger] entries_of(t@)[q].0 != (names@[p as int]@, alpha@[a as int]),
        },
{
    let ghost et = entries_of(t@);
    let n = names.len();
    let k = alpha.len();
    let mut table: Vec<Vec<usize>> = Vec::new();
    let mut i: usize = 0;
    while i < n
        invariant
            i <= n,
            n == names@.len(),
            k == alpha@.len(),
            et == entries_of(t@),
            forall|q: int|
                0 <= q < t@.len() ==> names_of(names@).contains((#[trigger] entries_of(t@)[q]).0.0)
                    && alpha@.contains(entries_of(t@)[q].0.1) && names_of(names@).contains(entries_of(t@)[q].1),
            table@.len() == i,
            forall|p: int| 0 <= p < i ==> (#[trigger] table@[p])@.len() == k,
            forall|p: int, a: int|
                0 <= p < i && 0 <= a < k ==> (table@[p]@[a] as int) < n && et.contains(
                    ((names@[p]@, alpha@[a]), names@[table@[p]@[a] as int]@),
                ),
        decreases n - i,
    {
        let mut row: Vec<usize> = Vec::new();
        let mut a: usize = 0;
        while a < k
            invariant
                i < n,
                a <= k,
                n == names@.len(),
                k == alpha@.len(),
                et == entries_of(t@),
                forall|q: int|
                    0 <= q < t@.len() ==> names_of(names@).contains((#[trigger] entries_of(t@)[q]).0.0)
                        && alpha@.contains(entries_of(t@)[q].0.1) && names_of(names@).contains(entries_of(t@)[q].1),
                row@.len() == a,
                forall|b: int|
                    0 <= b < a ==> (row@[b] as int) < n && et.contains(
                        ((names@[i as int]@, alpha@[b]), names@[row@[b] as int]@),
                    ),
            decreases k - a,
        {
            match find_entry(t, &names[i], alpha[a]) {
                None => {
                    return Err((i, a));
                },
                Some(jj) => {
                    let e = &t[jj];
                    assert(entries_of(t@)[jj as int] == ((e.0.0@, e.0.1), e.1@));
                    assert(entries_of(t@)[jj as int].0.0 == e.0.0@);
                    match position_of(names, &e.1) {
                        None => {
                            assert(names_of(names@).contains(entries_of(t@)[jj as int].1));
                            return Err((i, a));
                        },
                        Some(q) => {
                            row.push(q);
                            proof {
                                assert(et[jj as int] == ((names@[i as int]@, alpha@[a as int]), names@[q as int]@));
                                assert(et.contains(((names@[i as int]@, alpha@[a as int]), names@[q as int]@)));
                            }
                        },
                    }
                },
            }
            a = a + 1;
        }
        table.push(row);
        i = i + 1;
    }
    Ok(table)
}

/// Whether every state of `v` has its identity among `names`.
pub(crate) fn all_listed(names: &Vec<State>, v: &Vec<State>) -> (r: bool)
    ensures
        r == names_of(v@).to_set().subset_of(names_of(names@).to_set()),
{
    let mut f: usize = 0;
    while f < v.len()
        invariant
            f <= v@.len(),
            forall|g: int| 0 <= g < f ==> names_of(names@).contains(#[trigger] v@[g]@),
        decreases v@.len() - f,
    {
        if position_of(names, &v[f]).is_none() {
            proof {
                lemma_names_of_contains(v@, f as int);
            }
            return false;
        }
        f = f + 1;
    }
    proof {
        assert forall|x: Name| names_of(v@).to_set().contains(x) implies names_of(names@).to_set().contains(x) by {
            lemma_names_of_member(v@, x);
        }
    }
    true
}

/// The position of the entry of `t` with key (`from`, `c`).
pub(crate) fn find_entry(t: &Vec<((State, char), State)>, from: &State, c: char) -> (r: Option<usize>)
    ensures
        match r {
            Some(j) => j < t@.len() && entries_of(t@)[j as int].0 == (from@, c),
            None => forall|j: int| 0 <= j < t@.len() ==> entries_of(t@)[j].0 != (from@, c),
        },
{
    let mut j: usize = 0;
    while j < t.len()
        invariant
            j <= t@.len(),
            forall|i: int| 0 <= i < j ==> entries_of(t@)[i].0 != (from@, c),
        decreases t@.len() - j,
    {
        let e = &t[j];
        if e.0.1 == c && e.0.0.equals(from) {
            return Some(j);
        }
        j = j + 1;
    }
    None
}

/// Whether no two entries of `t` share a key.
pub(crate) fn keys_unique(t: &Vec<((State, char), State)>) -> (r: bool)
    ensures
        r == forall|i: int, j: int|
            0 <= i < j < t@.len() ==> #[trigger] entries_of(t@)[i].0 != #[trigger] entries_of(t@)[j].0,
{
    let mut j: usize = 0;
    while j < t.len()
        invariant
            j <= t@.len(),
            forall|i: int, k: int|
                0 <= i < k < j ==> #[trigger] entries_of(t@)[i].0 != #[trigger] entries_of(t@)[k].0,
        decreases t@.len() - j,
    {
        let e = &t[j];
        let mut i: usize = 0;
        while i < j
            invariant
                i <= j < t@.len(),
                e == t@[j as int],
                forall|p: int| 0 <= p < i ==> entries_of(t@)[p].0 != entries_of(t@)[j as int].0,
            decreases j - i,
        {
            let f = &t[i];
            if f.0.1 == e.0.1 && f.0.0.equals(&e.0.0) {
                assert(entries_of(t@)[i as int].0 == entries_of(t@)[j as int].0);
                return false;
            }
            i = i + 1;
        }
        j = j + 1;
    }
    true
}

/// The identity of a listed state is in the set of identities.
pub proof fn lemma_names_of_contains(v: Seq<State>, i: int)
    requires
        0 <= i < v.len(),
    ensures
        names_of(v).to_set().contains(v[i]@),
        names_of(v)[i] == v[i]@,
{
    assert(names_of(v)[i] == v[i]@);
    assert(names_of(v).contains(v[i]@));
}

/// A member of the set of identities is the identity of a listed state.
pub proof fn lemma_names_of_member(v: Seq<State>, x: Name)
    requires
        names_of(v).to_set().contains(x),
    ensures
        exists|i: int| 0 <= i < v.len() && #[trigger] v[i]@ == x,
{
    assert(names_of(v).contains(x));
    let i = choose|i: int| 0 <= i < names_of(v).len() && names_of(v)[i] == x;
    assert(v[i]@ == x);
}

} // verus!
