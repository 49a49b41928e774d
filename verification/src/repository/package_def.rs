//! The package manifest's shape: what `package.toml` declares.  The
//! serialized twin of these types lives with the binary.

use vstd::prelude::*;

verus! {

#[derive(Debug)]
pub struct PackageDef {
    pub(crate) info: RepoInfo,
}

#[derive(Debug)]
pub struct RepoInfo {
    pub(crate) name: String,
    pub(crate) version: String,
}

} // verus!
