use vstd::prelude::*;

pub mod bounds;
pub mod dictionary;
pub mod digits;
pub mod laws;

verus! {

/// The largest value a Kakuro cell can hold.
pub const MAX_VAL: i32 = 9;

/// The largest sum a Kakuro run can have (1 + 2 + ... + 9).
pub const MAX_SUM: i32 = 45;

/// A set of candidate values: bit `b` stands for the value `b + 1`.
pub type Cand = u32;

/// The set of all values 1 to 9.
pub const CAND_ALL: Cand = 511;

} // verus!
