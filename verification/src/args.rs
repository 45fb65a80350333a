//! The selections the tool runs with, as plain values. The command-line
//! front end fills this in and hands it over.

use vstd::prelude::*;

verus! {

/// Which manifests to scan, which images to touch, and how.
#[derive(Debug)]
pub struct Args {
    /// Paths of the manifests to scan.
    pub dockerfiles: Vec<String>,
    /// Base-image names to bump; empty means every image found.
    pub parents: Vec<String>,
    /// Allow bumping the leading (major) version component.
    pub bump_major: bool,
    /// Print the rewritten manifests instead of updating them in place.
    pub print: bool,
}

impl Args {
    pub exec fn new(
        dockerfiles: Vec<String>,
        parents: Vec<String>,
        bump_major: bool,
        print: bool,
    ) -> (r: Args)
        ensures
            r.dockerfiles@ == dockerfiles@,
            r.parents@ == parents@,
            r.bump_major == bump_major,
            r.print == print,
    {
        Args { dockerfiles, parents, bump_major, print }
    }
}

} // verus!
