//! Why laying out a gadget can fail.

use vstd::prelude::*;

verus! {

/// The reasons for which no operation is recorded.
#[derive(Clone, Copy, Debug, PartialEq, Eq, Structural)]
pub enum Error {
    /// No auxiliary point was assigned for the window size and batch size asked for.
    Synthesis,
    /// A handle names no cell of the region, or a cell of another kind.
    UnknownCell,
}

} // verus!
