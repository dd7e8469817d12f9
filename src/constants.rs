use vstd::prelude::*;

verus! {

/// Whether construction minimizes an automaton right away.
pub const AUTO_OPTIMIZE: bool = true;

/// The symbol of the identities that canonical renaming hands out.
pub const DEFAULT_STATE_SYMBOL: char = 'q';

} // verus!
