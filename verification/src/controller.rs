//! The request payload of the board-generation endpoint.  The handlers
//! themselves live with the server glue; they call into the engine with
//! the plain values carried here.

use vstd::prelude::*;

verus! {

/// A request for a new board: the side length and the number of clues to
/// seed.
pub struct GenerateBoardPayload {
    pub size: usize,
    pub clues: usize,
}

} // verus!
