//! Synchronizes the visible state of a character-grid terminal screen with a
//! consumer that cannot read the emulator's memory directly: a compact binary
//! snapshot of the full screen, an incremental diff of rows changed since the
//! last poll, and a registry of opaque session handles.  Escape-sequence
//! parsing itself is delegated to the `avt` terminal engine behind a narrow
//! trusted interface.
use vstd::prelude::*;

pub mod diff;
pub mod engine;
pub mod run;
pub mod session;
pub mod snapshot;
pub mod style;
pub mod text;
pub mod varint;

verus! {

/// Errors surfaced by the decoding half of the codecs.  The encoding half is
/// total and never fails.
#[derive(Debug, Clone, Copy, PartialEq, Eq, Structural)]
pub enum DecodeError {
    /// The input ends before the value it should hold is complete, or holds a
    /// value that no encoder produces (a varint above the addressable range, a
    /// non-canonical attribute byte, out-of-order runs, trailing bytes).
    MalformedInput,
    /// A color tag byte that this wire format does not define.
    UnsupportedColorTag,
}

} // verus!
