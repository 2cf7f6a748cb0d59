//! Environments whose names may repeat: a tree of leaves and repetition
//! groups that is built piece by piece, combined, and walked one level of
//! repetition at a time.

pub mod name;
pub mod util;
