//! Which newer version of mimic was found, if any.

use vstd::prelude::*;

verus! {

/// The newer version last found, if any.
#[derive(Debug, Clone, Default, PartialEq, Eq)]
pub struct Available {
    pub found: Option<String>,
}

impl Available {
    pub fn version(&self) -> (r: Option<String>)
        ensures
            r == self.found,
    {
        match &self.found {
            Some(v) => Some(v.clone()),
            None => None,
        }
    }

    /// Remembers the answer of the last look for updates.
    pub fn remember(&mut self, version: Option<String>)
        ensures
            final(self).found == version,
    {
        self.found = version;
    }
}

} // verus!
