use crate::error::SimError;
use crate::gates::gate::{apply_gate_to_ket, Gate, GateKetResult};
use crate::quantum::ket::Ket;
use vstd::prelude::*;

verus! {

/// The Hadamard gate on one qubit.
pub struct H {
    pub target: usize,
}

impl H {
    /// This operation as a member of `Gate`.
    pub open spec fn gate(self) -> Gate {
        Gate::H { target: self.target }
    }

    /// Applies Hadamard to one ket: two kets come back, the one with the
    /// target bit as it was (negated if it was set) and the one with the
    /// target bit flipped, both scaled by `1/√2`.
    pub fn apply(&self, ket: Ket) -> (r: Result<GateKetResult, SimError>)
        requires
            ket.wf(),
        ensures
            match r {
                Ok(res) => {
                    &&& self.target < ket.bits().len()
                    &&& self.gate().images(ket@) == Some(res.kets())
                    &&& res.wf(ket.bits().len())
                    &&& res is Kets
                },
                Err(e) => if self.target < ket.bits().len() {
                    e == SimError::AmplitudeOverflow && !ket.amplitude@.halve().fits()
                } else {
                    e == SimError::IndexOutOfRange
                },
            },
    {
        apply_gate_to_ket(&Gate::H { target: self.target }, ket)
    }
}

} // verus!
