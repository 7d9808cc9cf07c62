//! The ways in which a byte string can fail to be a file of either format.
use vstd::prelude::*;

verus! {

/// Why a byte string was rejected. Every rejection is final: nothing is
/// decoded from a file that fails one of these tests.
#[derive(Clone, Copy, Debug, PartialEq, Eq)]
pub enum FormatError {
    /// Fewer bytes than the fixed header takes.
    ShortHeader { needed: usize, found: usize },
    /// The header's own size field does not hold the format's header size.
    HeaderSize { expected: u32, declared: u32 },
    /// The bytes that identify the format are not the expected ones.
    BadMagic,
    /// The bytes after the header do not divide into 4-byte elements.
    Unaligned { trailing: usize },
    /// The data ends before the last element that the header or a record
    /// announces.
    Truncated { at: usize },
}

} // verus!
