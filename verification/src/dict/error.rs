//! Links that lead nowhere.

use vstd::prelude::*;

verus! {

/// A link that was expected to name a node named none.
#[derive(Debug)]
pub struct ParseWeakError;

impl ParseWeakError {
    /// The error's name, as it is shown to a user.
    pub fn to_string(&self) -> (s: String)
        ensures
            s@ == "ParseWeakError"@,
    {
        "ParseWeakError".to_owned()
    }
}

/// Access to what a link leads to, by way of the owner of the nodes, where the
/// link leads anywhere.
pub trait TryUpgrade<T> {
    type Error;

    type Owner;

    fn try_upgrade<'a>(&self, owner: &'a Self::Owner) -> Result<&'a T, Self::Error>;
}

} // verus!
