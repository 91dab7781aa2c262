//! A simulator of small quantum circuits on sparse states.
//!
//! A state holds only the basis kets with non-zero amplitude. Amplitudes are
//! exact: numbers of the form `(a + b·ω + c·ω² + d·ω³) / √2^k` with
//! `ω = e^{iπ/4}`, which is what Hadamard, X, T, T†, CX and Toffoli make of
//! integer amplitudes. Equal bit patterns accumulate, and cancel, exactly.

pub mod circuit;
pub mod error;
pub mod gates;
pub mod laws;
pub mod norm;
pub mod quantum;
pub mod sums;
