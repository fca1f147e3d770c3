use vstd::prelude::*;

verus! {

/// Why an element could not be inserted.
#[derive(Debug, Copy, Clone, PartialEq, Eq, Structural)]
pub enum InsertError {
    /// The element that was about to be inserted was outside of the bounds of the QuadTree.
    OutOfBounds,
}

impl InsertError {
    /// Describes the error in words.
    pub fn to_string(&self) -> (s: String)
        ensures
            s@ == "the element was outside of the tree bounds"@,
    {
        match self {
            InsertError::OutOfBounds => "the element was outside of the tree bounds".to_string(),
        }
    }
}

} // verus!
