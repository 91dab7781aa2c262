use vstd::prelude::*;

verus! {

/// What the simulator reports in place of a result.
#[derive(Debug, Clone, Copy, PartialEq, Eq, Structural)]
pub enum SimError {
    /// Kets of different widths were put into one state.
    WidthMismatch,
    /// A gate or a bit access names a qubit that the register does not have.
    IndexOutOfRange,
    /// A gate name that the engine does not know.
    UnsupportedGate,
    /// An exact amplitude left the range of its machine representation.
    AmplitudeOverflow,
}

} // verus!
