use vstd::prelude::*;

verus! {

/// The two ways an operation on the tree can fail.
#[derive(Debug, Clone, Copy, PartialEq, Eq, Structural)]
pub enum BSTError {
    /// `insert` met a node that already holds the value.
    DuplicateValue,
    /// `delete` ran off the tree before reaching the value.
    ValueNotFound,
}

impl BSTError {
    /// A sentence that describes the error to a person.
    pub fn message(&self) -> (r: &'static str)
        ensures
            *self == BSTError::DuplicateValue ==> r@
                == "Duplicate value: cannot insert the same value twice"@,
            *self == BSTError::ValueNotFound ==> r@
                == "Value not found: cannot delete a non-existent value"@,
    {
        match self {
            BSTError::DuplicateValue => "Duplicate value: cannot insert the same value twice",
            BSTError::ValueNotFound => "Value not found: cannot delete a non-existent value",
        }
    }
}

} // verus!
