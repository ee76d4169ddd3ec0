use vstd::prelude::*;

pub mod text;
pub mod vpath;
pub mod thumb;
pub mod tree;
pub mod assemble;
pub mod render;
pub mod config;

verus! {

/// Largest number of characters accepted in a user-supplied year segment.
pub const MAX_YEAR_CHARS: usize = 20;

/// Largest number of characters accepted in a user-supplied title segment.
pub const MAX_TITLE_CHARS: usize = 300;

} // verus!
