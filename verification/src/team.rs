//! The two competing sides, plus a sentinel "no side" value.

use vstd::prelude::*;

verus! {

/// One of the two players, or `Neutral` for uninitialized/terminal state.
#[derive(Clone, Copy, PartialEq, Eq, Structural, Debug, Hash)]
pub enum Team {
    White,
    Black,
    Neutral,
}

impl Team {
    /// Swaps White and Black; a no-op on `Neutral`.
    pub fn other(&self) -> (r: Team)
        ensures
            r == self.spec_other(),
    {
        match *self {
            Team::White => Team::Black,
            Team::Black => Team::White,
            Team::Neutral => Team::Neutral,
        }
    }

    pub open spec fn spec_other(self) -> Team {
        match self {
            Team::White => Team::Black,
            Team::Black => Team::White,
            Team::Neutral => Team::Neutral,
        }
    }

    pub fn as_string(&self) -> (r: String)
        ensures
            *self == Team::White ==> r@ == "White"@,
            *self == Team::Black ==> r@ == "Black"@,
            *self == Team::Neutral ==> r@ == ""@,
    {
        match *self {
            Team::White => "White".to_owned(),
            Team::Black => "Black".to_owned(),
            Team::Neutral => "".to_owned(),
        }
    }

    /// True exactly for the two real sides.
    pub fn as_bool(&self) -> (r: bool)
        ensures
            r == (*self != Team::Neutral),
    {
        match *self {
            Team::White => true,
            Team::Black => true,
            Team::Neutral => false,
        }
    }

    pub fn as_int(&self) -> (r: i32)
        ensures
            r == self.spec_int(),
    {
        match *self {
            Team::White => 1,
            Team::Black => 0,
            Team::Neutral => 0,
        }
    }

    pub open spec fn spec_int(self) -> int {
        match self {
            Team::White => 1,
            Team::Black => 0,
            Team::Neutral => 0,
        }
    }
}

} // verus!
