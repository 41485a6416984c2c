//! The ways in which a request to the library can be rejected.

use vstd::prelude::*;

verus! {

/// Why the library rejected an input.
#[derive(Clone, Copy, Debug, PartialEq, Eq, Structural)]
pub enum CombatError {
    /// The supplied tables or piece list do not describe a usable grid.
    ConfigurationError,
    /// An action names a cell outside the grid, or a move from a cell to itself.
    InvalidIndex,
}

} // verus!
