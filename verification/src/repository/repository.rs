//! Repository checks over a folder's file listing.

use vstd::prelude::*;
use crate::bundler::bundler::name_in;
use crate::text::str_eq;

verus! {

/// True when the folder whose file names are listed holds a package
/// manifest.
pub fn check_if_folder_is_a_repo(entries: &Vec<String>) -> (r: bool)
    ensures
        r == name_in(entries@, "package.toml"@),
{
    let n = entries.len();
    let mut i: usize = 0;
    loop
        invariant
            0 <= i <= n == entries@.len(),
            forall|j: int| 0 <= j < i ==> entries@[j]@ != "package.toml"@,
        decreases n - i,
    {
        if i >= n {
            proof {
                assert forall|j: int| 0 <= j < entries@.len() implies entries@[j]@
                    != "package.toml"@ by {}
            }
            return false;
        }
        if str_eq(entries[i].as_str(), "package.toml") {
            assert(name_in(entries@, "package.toml"@)) by {
                assert(entries@[i as int]@ == "package.toml"@);
            }
            return true;
        }
        i = i + 1;
    }
}

} // verus!
