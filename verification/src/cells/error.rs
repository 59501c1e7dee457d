//! Failures of footprint construction, comparison and sorting.

use crate::cells::cell::Direction;
use vstd::prelude::*;

verus! {

#[derive(Clone, Copy, Debug, PartialEq, Eq, Structural)]
pub enum Error {
    /// An item was asked to face a direction other than `BottomRight` or
    /// `BottomLeft`.
    InvalidFacing(Direction),
    /// Two items each hide part of the other.
    Contradiction,
    /// The items cannot be put in an order that respects who hides whom.
    Cycle,
}

impl Error {
    pub open spec fn spec_message(self) -> Seq<char> {
        match self {
            Error::InvalidFacing(_) => "Items can only face BottomRight or BottomLeft"@,
            Error::Contradiction => "Items cannot be both in front and behind each other"@,
            Error::Cycle => "Items hide each other in a circle"@,
        }
    }

    /// What went wrong, in words.
    pub fn message(&self) -> (text: String)
        ensures
            text@ == self.spec_message(),
    {
        match self {
            Error::InvalidFacing(_) => "Items can only face BottomRight or BottomLeft".to_owned(),
            Error::Contradiction => "Items cannot be both in front and behind each other".to_owned(),
            Error::Cycle => "Items hide each other in a circle".to_owned(),
        }
    }
}

} // verus!
