use vstd::prelude::*;

verus! {

/// What the engine reports when it declines an operation.
#[derive(Clone, Copy, Debug, PartialEq, Eq, Structural)]
pub enum Error {
    /// A character that is neither an uppercase Latin letter nor the blank.
    InvalidCharacter(char),
    /// A placement that would leave the 15x15 board.
    OutOfRange,
}

} // verus!
