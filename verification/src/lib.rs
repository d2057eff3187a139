//! Enumerates every ordered sequence of dictionary words whose letters,
//! taken together, are exactly the letters of a given target string.
//!
//! The library has three parts: [`letters::Letters`], an immutable multiset
//! of characters with a subtraction operation; [`words::WordMap`], a
//! dictionary of words grouped by character length; and [`search`], the
//! depth-first backtracking enumerator together with the proved laws about
//! what it emits.

pub mod letters;
pub mod search;
pub mod words;
