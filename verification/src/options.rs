use vstd::prelude::*;

use crate::version::Version;

verus! {

/// Options for importing or creating a stored vector.
#[derive(Debug)]
pub struct ImportOptions {
    /// Name of the vector.
    pub name: String,
    /// Version for tracking data schema compatibility.
    pub version: Version,
    /// Number of stamped change files to keep for rollback support (0 to disable).
    pub saved_stamped_changes: u16,
}

impl ImportOptions {
    pub fn new(name: &str, version: Version) -> (r: ImportOptions)
        ensures
            r.name@ == name@,
            r.version == version,
            r.saved_stamped_changes == 0,
    {
        ImportOptions { name: name.to_owned(), version, saved_stamped_changes: 0 }
    }

    pub fn with_saved_stamped_changes(self, num: u16) -> (r: ImportOptions)
        ensures
            r.name@ == self.name@,
            r.version == self.version,
            r.saved_stamped_changes == num,
    {
        let mut this = self;
        this.saved_stamped_changes = num;
        this
    }
}

} // verus!
