pub mod gate;
pub mod h;
