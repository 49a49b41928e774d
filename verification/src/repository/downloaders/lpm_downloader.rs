//! The downloader interface: fetch a package from `url` into the
//! folder at `path` and return the identifier of the fetched revision.
//! Implementations drive external tooling, so they live with the
//! binary; nothing here is proved about them.

use vstd::prelude::*;

verus! {

pub trait LPMDownloader {
    fn download(url: &str, path: &str) -> Result<String, String>;
}

} // verus!
