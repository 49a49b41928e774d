//! One namespace of the remote package registry: its packages and
//! their versions, with the lookups the add-package flow makes.

use vstd::prelude::*;
use crate::text::str_eq;

verus! {

#[derive(Debug)]
pub struct LuaRocksNamespaceRepo {
    pub namespace: String,
    pub packages: Vec<LuaRocksRepoPackage>,
}

impl LuaRocksNamespaceRepo {
    pub fn new(namespace: String) -> (r: Self)
        ensures
            r.namespace == namespace,
            r.packages@.len() == 0,
    {
        let packages: Vec<LuaRocksRepoPackage> = Vec::new();
        Self { namespace, packages }
    }

    /// The first package of the namespace with the given name.
    pub fn get_package_by_name(&self, package_name: &str) -> (r: Option<&LuaRocksRepoPackage>)
        ensures
            match r {
                Some(p) => exists|i: int|
                    0 <= i < self.packages@.len() && self.packages@[i] == *p && self.packages@[i].name@
                        == package_name@ && (forall|j: int|
                        0 <= j < i ==> self.packages@[j].name@ != package_name@),
                None => forall|i: int|
                    0 <= i < self.packages@.len() ==> self.packages@[i].name@ != package_name@,
            },
    {
        let n = self.packages.len();
        let mut i: usize = 0;
        loop
            invariant
                0 <= i <= n == self.packages@.len(),
                forall|j: int| 0 <= j < i ==> self.packages@[j].name@ != package_name@,
            decreases n - i,
        {
            if i >= n {
                return None;
            }
            if str_eq(self.packages[i].name.as_str(), package_name) {
                return Some(&self.packages[i]);
            }
            i = i + 1;
        }
    }
}

#[derive(Debug)]
pub struct LuaRocksRepoPackage {
    pub name: String,
    pub versions: Vec<LuaRocksRepoPackageVersion>,
}

impl LuaRocksRepoPackage {
    pub fn new(name: String) -> (r: Self)
        ensures
            r.name == name,
            r.versions@.len() == 0,
    {
        let versions: Vec<LuaRocksRepoPackageVersion> = Vec::new();
        Self { name, versions }
    }

    /// The last listed version, which the registry orders oldest
    /// first.
    pub fn get_latest_package_version(&self) -> (r: Option<&LuaRocksRepoPackageVersion>)
        ensures
            match r {
                Some(v) => self.versions@.len() > 0 && *v == self.versions@[self.versions@.len()
                    - 1],
                None => self.versions@.len() == 0,
            },
    {
        let n = self.versions.len();
        if n == 0 {
            None
        } else {
            Some(&self.versions[n - 1])
        }
    }

    /// The first listed version with the given version string.
    pub fn get_specific_package_version(&self, version: &str) -> (r: Option<
        &LuaRocksRepoPackageVersion,
    >)
        ensures
            match r {
                Some(v) => exists|i: int|
                    0 <= i < self.versions@.len() && self.versions@[i] == *v && self.versions@[i].version@
                        == version@ && (forall|j: int|
                        0 <= j < i ==> self.versions@[j].version@ != version@),
                None => forall|i: int|
                    0 <= i < self.versions@.len() ==> self.versions@[i].version@ != version@,
            },
    {
        let n = self.versions.len();
        let mut i: usize = 0;
        loop
            invariant
                0 <= i <= n == self.versions@.len(),
                forall|j: int| 0 <= j < i ==> self.versions@[j].version@ != version@,
            decreases n - i,
        {
            if i >= n {
                return None;
            }
            if str_eq(self.versions[i].version.as_str(), version) {
                return Some(&self.versions[i]);
            }
            i = i + 1;
        }
    }
}

#[derive(Debug)]
pub struct LuaRocksRepoPackageVersion {
    pub version: String,
    pub arch: String,
}

impl LuaRocksRepoPackageVersion {
    pub fn new(version: String, arch: String) -> (r: Self)
        ensures
            r.version == version,
            r.arch == arch,
    {
        Self { version, arch }
    }
}

} // verus!
