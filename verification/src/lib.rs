//! Versioned data structures: the decisions behind the `versioned`,
//! `versioned_enum` and `impl_version` attribute macros, stated and proved
//! over a plain model of the annotated items.

use vstd::prelude::*;

pub mod decimal;
pub mod version;
pub mod attr;
pub mod generation;
pub mod args;

verus! {

/// Implemented by every per-version type that the macros generate: the
/// version number it stands for, and the number of bytes that number takes
/// as an unsigned LEB128 varint.
pub trait Versioned {
    const VERSION: u64;
    const VERSION_VARINT_SIZE_BYTES: usize;
}

} // verus!
