use vstd::prelude::*;

verus! {

/// The error kinds an operation can surface.
///
/// `Connection` covers short reads and I/O failures on the wire,
/// `Encoding` an invalid UTF-8 string frame, `EmptyInput` a root request
/// over zero leaves, `NotFound` a proof request for a digest absent from
/// the leaf set or a lookup of an unknown batch, and `SizeMismatch` a
/// digest constructed from a byte sequence of the wrong length.
#[derive(Clone, Copy, Debug, PartialEq, Eq, Structural)]
pub enum FumError {
    Connection,
    Encoding,
    EmptyInput,
    NotFound,
    SizeMismatch,
}

} // verus!
