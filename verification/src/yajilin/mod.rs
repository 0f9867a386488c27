use vstd::prelude::*;

pub mod field;
pub mod laws;
pub mod spacing;

verus! {

/// A Yajilin clue: an arrow pointing in a direction with the number of blocked cells
/// that lie that way (up to the next clue of the same direction), or an empty clue
/// cell, or no clue at all.
#[derive(Clone, Copy, Debug, PartialEq, Eq, Structural)]
pub enum Clue {
    NoClue,
    Empty,
    Up(i32),
    Left(i32),
    Right(i32),
    Down(i32),
}

/// The state of a Yajilin cell.
#[derive(Clone, Copy, Debug, PartialEq, Eq, Structural)]
pub enum Cell {
    Undecided,
    Clue,
    Line,
    Blocked,
}

/// The state of an edge of the loop.
#[derive(Clone, Copy, Debug, PartialEq, Eq, Structural)]
pub enum Edge {
    Undecided,
    Line,
    Blank,
}

/// Both clues are arrows pointing the same way.
pub open spec fn same_shape_spec(a: Clue, b: Clue) -> bool {
    match (a, b) {
        (Clue::Up(_), Clue::Up(_)) => true,
        (Clue::Left(_), Clue::Left(_)) => true,
        (Clue::Right(_), Clue::Right(_)) => true,
        (Clue::Down(_), Clue::Down(_)) => true,
        _ => false,
    }
}

/// The number of an arrow clue; 0 for the others.
pub open spec fn clue_number_spec(c: Clue) -> i32 {
    match c {
        Clue::Up(n) | Clue::Left(n) | Clue::Right(n) | Clue::Down(n) => n,
        _ => 0,
    }
}

impl Clue {
    /// Whether both clues are arrows pointing the same way.
    pub fn same_shape(self, other: Clue) -> (r: bool)
        ensures
            r == same_shape_spec(self, other),
    {
        match (self, other) {
            (Clue::Up(_), Clue::Up(_)) => true,
            (Clue::Left(_), Clue::Left(_)) => true,
            (Clue::Right(_), Clue::Right(_)) => true,
            (Clue::Down(_), Clue::Down(_)) => true,
            _ => false,
        }
    }

    /// The number of an arrow clue; 0 for the others.
    pub fn clue_number(self) -> (r: i32)
        ensures
            r == clue_number_spec(self),
    {
        match self {
            Clue::Up(n) | Clue::Left(n) | Clue::Right(n) | Clue::Down(n) => n,
            _ => 0,
        }
    }
}

} // verus!
