//! The lockfile's data: the packages pinned by the local repository.
//! Reading and writing the serialized form lives with the binary.

use vstd::prelude::*;

verus! {

#[derive(Debug)]
pub struct LPMLockfile {
    pub version: i32,
    pub packages: Vec<LPMLockfilePackage>,
}

#[derive(Debug)]
pub struct LPMLockfilePackage {
    pub name: String,
    pub version: String,
    pub source: String,
    pub last_commit_hash: Option<String>,
}

impl LPMLockfile {
    pub fn new() -> (r: Self)
        ensures
            r.version == 1i32,
            r.packages@.len() == 0,
    {
        LPMLockfile { version: 1, packages: Vec::new() }
    }

    pub fn add_package(&mut self, package: LPMLockfilePackage)
        ensures
            final(self).version == old(self).version,
            final(self).packages@ == old(self).packages@.push(package),
    {
        self.packages.push(package);
    }
}

} // verus!
