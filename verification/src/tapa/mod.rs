use vstd::prelude::*;

pub mod generator;

verus! {

/// A Tapa clue, by its number among the clue kinds; `NO_CLUE` for none.
pub type Clue = i32;

/// No clue.
pub const NO_CLUE: Clue = -1;

} // verus!
