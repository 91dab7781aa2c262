pub mod algebra;
pub mod amplitude;
pub mod bits;
pub mod ket;
pub mod order;
pub mod register;
pub mod state;
