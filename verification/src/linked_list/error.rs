//! Pointers that lead nowhere.

use vstd::prelude::*;

verus! {

/// A node pointer that was expected to lead to a node was empty.
#[derive(Debug)]
pub struct ParseNodeError;

impl ParseNodeError {
    /// The error's name, as it is shown to a user.
    pub fn to_string(&self) -> (s: String)
        ensures
            s@ == "ParseNodeError"@,
    {
        "ParseNodeError".to_owned()
    }
}

/// Read access to what a pointer leads to, where it leads anywhere.
pub trait TryAsRef<T> {
    type Error;

    fn try_as_ref(&self) -> Result<&T, Self::Error>;
}

/// Write access to what a pointer leads to, where it leads anywhere.
pub trait TryAsMut<T> {
    type Error;

    fn try_as_mut(&mut self) -> Result<&mut T, Self::Error>;
}

} // verus!
