//! The version manifest: the declarative, ordered list of known releases.

use vstd::prelude::*;

use crate::semver::SemVer;

verus! {

/// One manifest entry: the release version, and the opaque reference that
/// the fetch collaborator uses to retrieve the release's content.
pub struct Version {
    pub version: SemVer,
    pub manifest: String,
}

/// The ordered manifest of known releases.  The order is the declared
/// release order; it is not assumed to agree with version precedence, since
/// an older release may be appended later.
pub struct VersionsFile {
    pub versions: Vec<Version>,
}

impl VersionsFile {
    /// The declared versions, in manifest order.
    pub open spec fn order(&self) -> Seq<SemVer> {
        self.versions@.map_values(|e: Version| e.version)
    }

    pub fn len(&self) -> (n: usize)
        ensures
            n == self.versions@.len(),
    {
        self.versions.len()
    }
}

} // verus!
