pub mod constants;
pub mod utils;
pub mod input;
pub mod dfa;
pub mod language;
pub mod nfa;
mod table;
