//! The local repository: manifest info, the installed-dependency map
//! (keys unique), and the lockfile.  Downloading and file writes live
//! with the binary; this module holds the record-keeping and the
//! decisions around it.

use vstd::prelude::*;
use vstd::string::StrSliceExecFns;
use vstd::string::StringExecFns;
use crate::luarocks::formats::rockspec::RockSpec;
use crate::repository::lpm_lockfile::LPMLockfile;
use crate::repository::lpm_lockfile::LPMLockfilePackage;
use crate::bundler::bundler::name_in;
use crate::text::push_char;
use crate::text::str_eq;

verus! {

/// True when some dependency entry is keyed by `nm`.
pub open spec fn dep_has_key(deps: Seq<(String, String)>, nm: Seq<char>) -> bool {
    exists|i: int| 0 <= i < deps.len() && deps[i].0@ == nm
}

/// `s` starts with `p`.
pub open spec fn starts_with(s: Seq<char>, p: Seq<char>) -> bool {
    p.len() <= s.len() && s.subrange(0, p.len() as int) == p
}

/// The `git+` scheme marker starts at position `i` of `s`.
pub open spec fn git_marker_at(s: Seq<char>, i: int) -> bool {
    0 <= i && i + 4 <= s.len() && s.subrange(i, i + 4) == "git+"@
}

/// `s` from position `i` on, with every occurrence of the `git+`
/// marker removed.
pub open spec fn spec_strip_git(s: Seq<char>, i: int) -> Seq<char>
    decreases s.len() - i when 0 <= i <= s.len()
{
    if i >= s.len() {
        Seq::empty()
    } else if git_marker_at(s, i) {
        spec_strip_git(s, i + 4)
    } else {
        seq![s[i]] + spec_strip_git(s, i + 1)
    }
}

#[derive(Debug)]
pub struct LPMRepository {
    pub info: LPMRepositoryInfo,
    pub dependencies: Vec<(String, String)>,
    pub path: String,
    pub lockfile: LPMLockfile,
}

#[derive(Debug)]
pub struct LPMRepositoryInfo {
    pub name: String,
    pub version: String,
}

impl LPMRepository {
    /// The dependency map's keys are pairwise distinct: it stands for
    /// a map from package name to installed version.
    pub open spec fn wf(&self) -> bool {
        forall|a: int, b: int|
            0 <= a < b < self.dependencies@.len() ==> self.dependencies@[a].0@
                != self.dependencies@[b].0@
    }

    pub fn new(info: LPMRepositoryInfo, path: String) -> (r: Self)
        ensures
            r.info == info,
            r.dependencies@.len() == 0,
            r.path == path,
            r.lockfile.version == 1i32,
            r.lockfile.packages@.len() == 0,
            r.wf(),
    {
        LPMRepository { info, dependencies: Vec::new(), path, lockfile: LPMLockfile::new() }
    }

    /// The installed version of the named package, if any: the first
    /// match, which under the key-uniqueness invariant is the only
    /// one.
    pub fn get_repository_package_version(&self, name: &String) -> (r: Option<String>)
        ensures
            match r {
                Some(v) => (exists|i: int|
                    0 <= i < self.dependencies@.len() && self.dependencies@[i].0@ == name@
                        && self.dependencies@[i].1 == v && (forall|j: int|
                        0 <= j < i ==> self.dependencies@[j].0@ != name@)) && (self.wf()
                    ==> forall|i: int|
                    0 <= i < self.dependencies@.len() && (#[trigger] self.dependencies@[i].0@)
                        == name@ ==> self.dependencies@[i].1 == v),
                None => !dep_has_key(self.dependencies@, name@),
            },
    {
        let n = self.dependencies.len();
        let mut i: usize = 0;
        loop
            invariant
                0 <= i <= n == self.dependencies@.len(),
                forall|j: int| 0 <= j < i ==> self.dependencies@[j].0@ != name@,
            decreases n - i,
        {
            if i >= n {
                return None;
            }
            if str_eq(self.dependencies[i].0.as_str(), name.as_str()) {
                proof {
                    if self.wf() {
                        assert forall|ii: int|
                            0 <= ii < self.dependencies@.len() && (
                            #[trigger] self.dependencies@[ii].0@) == name@ implies
                        self.dependencies@[ii].1 == self.dependencies@[i as int].1 by {
                            if ii < i as int {
                            } else if ii > i as int {
                                assert(self.dependencies@[i as int].0@
                                    != self.dependencies@[ii].0@);
                            }
                        }
                    }
                }
                return Some(self.dependencies[i].1.clone());
            }
            i = i + 1;
        }
    }

    /// The URL to fetch a rockspec's source from: its source URL with
    /// the `git+` marker stripped.  Only git sources are supported;
    /// anything else is rejected.
    pub fn git_clone_url(rockspec: &RockSpec) -> (r: Result<String, String>)
        ensures
            match r {
                Ok(u) => starts_with(rockspec.source.url@, "git+"@) && u@ == spec_strip_git(
                    rockspec.source.url@,
                    0,
                ),
                Err(m) => !starts_with(rockspec.source.url@, "git+"@) && m@
                    == "Only git packages are supported for now"@,
            },
    {
        proof {
            reveal_strlit("git+");
        }
        let url = rockspec.source.url.as_str();
        let ghost s = url@;
        let len = url.unicode_len();
        let is_git = if len >= 4 {
            str_eq(url.substring_char(0, 4), "git+")
        } else {
            false
        };
        if !is_git {
            return Err(String::from_str("Only git packages are supported for now"));
        }
        let mut out = String::new();
        let mut i: usize = 0;
        while i < len
            invariant
                s == url@,
                0 <= i <= len == s.len(),
                spec_strip_git(s, 0) == out@ + spec_strip_git(s, i as int),
            decreases len - i,
        {
            let ghost out_prev = out@;
            let marker = if len - i >= 4 {
                str_eq(url.substring_char(i, i + 4), "git+")
            } else {
                false
            };
            if marker {
                proof {
                    assert(git_marker_at(s, i as int));
                }
                i = i + 4;
            } else {
                proof {
                    assert(!git_marker_at(s, i as int));
                }
                push_char(&mut out, url.get_char(i));
                proof {
                    assert(out@ + spec_strip_git(s, i + 1) =~= out_prev + spec_strip_git(
                        s,
                        i as int,
                    ));
                }
                i = i + 1;
            }
        }
        proof {
            assert(spec_strip_git(s, len as int) =~= Seq::<char>::empty());
            assert(out@ + Seq::<char>::empty() =~= out@);
        }
        Ok(out)
    }

    /// Records a downloaded package: already-installed packages are
    /// left untouched, a non-git source is rejected, and otherwise the
    /// dependency map gains the package's name and version and the
    /// lockfile gains an entry pinning the fetched revision.  The
    /// download itself and the file writes happen around this call.
    pub fn add_package(&mut self, rockspec: &RockSpec, last_commit_hash: String) -> (r: Result<
        (),
        String,
    >)
        ensures
            final(self).info == old(self).info,
            final(self).path == old(self).path,
            old(self).wf() ==> final(self).wf(),
            ({
                if dep_has_key(old(self).dependencies@, rockspec.package@) {
                    r is Ok && *final(self) == *old(self)
                } else if !starts_with(rockspec.source.url@, "git+"@) {
                    &&& r matches Err(m) && m@ == "Only git packages are supported for now"@
                    &&& *final(self) == *old(self)
                } else {
                    &&& r is Ok
                    &&& final(self).dependencies@ == old(self).dependencies@.push(
                        (rockspec.package, rockspec.version),
                    )
                    &&& final(self).lockfile.version == old(self).lockfile.version
                    &&& final(self).lockfile.packages@ == old(self).lockfile.packages@.push(
                        (LPMLockfilePackage {
                            name: rockspec.package,
                            version: rockspec.version,
                            source: rockspec.source.url,
                            last_commit_hash: Some(last_commit_hash),
                        }),
                    )
                }
            }),
    {
        proof {
            reveal_strlit("git+");
        }
        let installed = self.get_repository_package_version(&rockspec.package);
        if installed.is_some() {
            return Ok(());
        }
        let url = rockspec.source.url.as_str();
        let len = url.unicode_len();
        let is_git = if len >= 4 {
            str_eq(url.substring_char(0, 4), "git+")
        } else {
            false
        };
        if !is_git {
            return Err(String::from_str("Only git packages are supported for now"));
        }
        let lock_data = LPMLockfilePackage {
            name: rockspec.package.clone(),
            source: rockspec.source.url.clone(),
            version: rockspec.version.clone(),
            last_commit_hash: Some(last_commit_hash),
        };
        self.lockfile.add_package(lock_data);
        self.dependencies.push((rockspec.package.clone(), rockspec.version.clone()));
        proof {
            if old(self).wf() {
                assert forall|a: int, b: int|
                    0 <= a < b < self.dependencies@.len() implies self.dependencies@[a].0@
                    != self.dependencies@[b].0@ by {
                    if b == self.dependencies@.len() - 1 {
                        assert(!dep_has_key(old(self).dependencies@, rockspec.package@));
                    }
                }
            }
        }
        Ok(())
    }

    /// Path of the repository's package manifest.
    pub fn get_package_file_path(&self) -> (r: String)
        ensures
            r@ == self.path@ + "/package.toml"@,
    {
        self.path.clone().concat("/package.toml")
    }

    /// Path of the repository's lockfile.
    pub fn get_lockfile_file_path(&self) -> (r: String)
        ensures
            r@ == self.path@ + "/package.lock.toml"@,
    {
        self.path.clone().concat("/package.lock.toml")
    }

    /// True when the folder whose file names are listed is a
    /// repository (it holds a package manifest).
    pub fn is_folder_repository(entries: &Vec<String>) -> (r: bool)
        ensures
            r == name_in(entries@, "package.toml"@),
    {
        crate::repository::repository::check_if_folder_is_a_repo(entries)
    }
}

} // verus!
