pub mod bits;
pub mod codec;
pub mod fields;
pub mod laws;

pub use codec::{diff, patch, PatchError, LENGTH_LIMIT};
