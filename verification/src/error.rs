//! The ways in which a request to the engine can be wrong.

use vstd::prelude::*;

verus! {

/// What can be wrong with a request.
#[derive(Copy, Clone, Debug, PartialEq, Eq, Structural)]
pub enum CheckersError {
    /// A square alias that is not a column letter `A`-`H` followed by a
    /// row digit `1`-`8`.
    InvalidAlias,
    /// A coordinate outside `0..=7`.
    OutOfBounds,
    /// An action that starts on an empty square or lands on an occupied one.
    IllegalAction,
}

} // verus!
