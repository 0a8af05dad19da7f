//! Concrete games the engine ships with.
pub mod nim;
