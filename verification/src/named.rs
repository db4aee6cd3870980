//! Names of data structures, for reports.

use vstd::prelude::*;

verus! {

/// Something that has a name.
pub trait Named {
    /// The characters of the name.
    spec fn title(&self) -> Seq<char>;

    /// The name.
    fn name(&self) -> (name: &str)
        ensures
            name@ == self.title(),
    ;
}

} // verus!
