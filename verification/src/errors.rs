//! The two kinds of failure the library reports.

use vstd::prelude::*;

verus! {

/// A malformed description was handed to a constructor. Nothing usable is
/// built: the constructor returns this instead of an object.
#[derive(Clone, Copy, Debug, PartialEq, Eq, Structural)]
pub enum BuildError {
    /// A term of a polynomial names a variable index at or above the
    /// declared variable count.
    VariableIndexOutOfBounds,
    /// A gate description references an index outside the previous layer.
    GateIndexOutOfBounds,
}

/// A call that is incompatible with the prover's current round.
#[derive(Clone, Copy, Debug, PartialEq, Eq, Structural)]
pub enum ProtocolError {
    /// Every variable is already bound to a challenge; no further round
    /// polynomial or challenge is accepted.
    RoundsExhausted,
    /// Not every variable is bound yet; the final evaluation is not owed.
    RoundsIncomplete,
}

} // verus!
