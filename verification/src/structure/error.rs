use vstd::prelude::*;

verus! {

/// Why a list operation was refused. A refused operation leaves the list as it was.
#[derive(Debug, Clone, Copy, PartialEq, Eq, Structural)]
pub enum ListError {
    /// The position given to an insertion lies beyond the end of the list.
    OutOfRange,
    /// A deletion was asked of a list that holds nothing.
    EmptyList,
}

} // verus!
