//! LEB128 variable-length integers, signed and unsigned, with owned and
//! borrowed backing storage.
//!
//! Malformed input and values that do not fit the requested width are
//! reported as a [`DecodeError`] rather than by panicking.
pub mod codec;
pub mod error;
pub mod model;
pub mod repack;
pub mod signed;
pub mod unsigned;

pub use error::DecodeError;
pub use signed::{ILeb128, ILeb128Owned, ToILeb128Owned};
pub use unsigned::{ToULeb128Owned, ULeb128, ULeb128Owned};
