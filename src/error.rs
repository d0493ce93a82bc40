use vstd::prelude::*;

verus! {

/// The ways an operation of this library can fail.
#[derive(Debug, Clone, Copy, PartialEq, Eq, Structural)]
pub enum BvError {
    /// An index outside the positions of the bitvector or sparse array.
    OutOfRange,
    /// A sparse-array append at a position not past the last one.
    NonMonotonic,
    /// A bitvector extract whose left end lies past its right end.
    OutOfOrderExtract,
    /// A snapshot that is not where it was looked for.
    NotFound,
    /// A snapshot that fails its structural or consistency checks.
    CorruptSnapshot,
    /// A failure of the byte stream under a save or a load.
    IoFailure,
}

} // verus!
