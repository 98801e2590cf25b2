//! The error for a feature that is not there yet.
use vstd::prelude::*;

verus! {

/// A feature asked for that is not implemented yet.
#[derive(Debug)]
pub struct NotImplementedError {
    pub feature: &'static str,
}

impl NotImplementedError {
    /// The message: `feature <name> not yet implemented`.
    pub fn to_string(&self) -> (r: String)
        ensures
            r@ == "feature "@ + self.feature@ + " not yet implemented"@,
    {
        let mut s = String::from_str("feature ");
        s.append(self.feature);
        s.append(" not yet implemented");
        s
    }
}

} // verus!
