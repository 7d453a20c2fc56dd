//! Reading JSON that has not arrived all at once.
pub mod grammar;
pub mod split;

pub use split::Mode;
pub mod window;
pub mod read;

pub use read::{Documents, Locate};
