//! Error kinds surfaced by decoding and by the file abstraction.

use vstd::prelude::*;

verus! {

/// Faults surfaced by the storage core.
///
/// Programmer errors (empty key on `add`, building an empty block, advancing
/// an invalid iterator) are excluded by the `requires` clauses of the
/// functions concerned and have no variant here.
#[derive(Clone, Copy, Debug, PartialEq, Eq, Structural)]
pub enum LsmError {
    /// Block checksum mismatch, a declared entry count inconsistent with the
    /// byte length, or entry lengths that run past the data section.
    CorruptBlock,
    /// SST meta checksum mismatch or a meta offset outside the file.
    CorruptMeta,
    /// A file read asked for bytes past the end of the file.
    ShortRead,
    /// A caller broke a usage rule that cannot be expressed in the types,
    /// such as flushing more data than the 32-bit meta offset can address.
    InvariantViolated,
}

impl LsmError {
    /// A short human-readable name for the error kind.
    pub fn describe(&self) -> (s: &'static str)
    {
        match self {
            LsmError::CorruptBlock => "corrupt block",
            LsmError::CorruptMeta => "corrupt meta section",
            LsmError::ShortRead => "short read",
            LsmError::InvariantViolated => "invariant violated",
        }
    }
}

} // verus!
