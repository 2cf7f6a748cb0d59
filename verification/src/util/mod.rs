//! The containers that the rest of the crate is built on.

pub mod assoc;
pub mod laws;
pub mod mbe;
pub mod tree;
