//! Rockspec metadata: what a package manifest declares about one
//! version of a package.  The parser that fills these from manifest
//! text lives with the binary.

use vstd::prelude::*;

verus! {

#[derive(Debug)]
pub struct RockSpec {
    // metadata
    pub rockspec_format: Option<String>,
    pub package: String,
    pub version: String,
    pub description: Option<RockSpecDescription>,
    pub source: RockSpecSource,
}

#[derive(Debug)]
pub struct RockSpecSource {
    pub url: String,
}

#[derive(Debug)]
pub struct RockSpecDescription {
    pub summary: Option<String>,
    pub detailed: Option<String>,
    pub license: Option<String>,
    pub homepage: Option<String>,
    pub issues_url: Option<String>,
    pub maintainer: Option<String>,
    pub labels: Option<Vec<String>>,
}

} // verus!
