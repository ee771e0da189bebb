//! The lockfile, `ghost.lock`, which records the exact resolution of a
//! project's dependencies.
use vstd::prelude::*;

use crate::fspath::FsPath;
use crate::strmap::StrMap;

verus! {

/// The text `ghost.lock`.
pub open spec fn lockfile_name() -> Seq<char> {
    seq!['g', 'h', 'o', 's', 't', '.', 'l', 'o', 'c', 'k']
}

/// The format version written into new lockfiles, and read when a lockfile
/// names none.
pub fn default_lockfile_version() -> (r: u32)
    ensures
        r == 1,
{
    1
}

/// A single locked (resolved) package entry.
pub struct LockedPackage {
    pub version: String,
    pub hash: String,
    pub tarball: String,
    pub integrity: Option<String>,
    pub dependencies: StrMap<String>,
}

/// Lockfile (`ghost.lock`) for reproducible dependency resolution.
pub struct Lockfile {
    pub lockfile_version: u32,
    pub packages: StrMap<LockedPackage>,
}

impl Lockfile {
    /// An empty lockfile of the current format version.
    pub fn new() -> (r: Self)
        ensures
            r.lockfile_version == 1,
            r.packages@ == Map::<Seq<char>, LockedPackage>::empty(),
    {
        Lockfile { lockfile_version: default_lockfile_version(), packages: StrMap::new() }
    }

    /// The lockfile path of a project directory.
    pub fn lockfile_path(project_dir: &FsPath) -> (r: FsPath)
        ensures
            r@ == project_dir@.push(lockfile_name()),
    {
        let lit = "ghost.lock";
        proof {
            reveal_strlit("ghost.lock");
            assert(lit@ =~= lockfile_name());
        }
        project_dir.join(lit)
    }

    /// Records (or replaces) the entry of a package.
    pub fn add_package(&mut self, name: &str, pkg: LockedPackage)
        ensures
            final(self).packages@ == old(self).packages@.insert(name@, pkg),
            final(self).lockfile_version == old(self).lockfile_version,
    {
        self.packages.insert(name.to_owned(), pkg);
    }

    /// The entry of a package.
    pub fn get_package(&self, name: &str) -> (r: Option<&LockedPackage>)
        ensures
            r is Some <==> self.packages@.contains_key(name@),
            r matches Some(p) ==> *p == self.packages@[name@],
    {
        self.packages.get(name)
    }
}

impl Default for Lockfile {
    fn default() -> (r: Self)
        ensures
            r.lockfile_version == 1,
            r.packages@ == Map::<Seq<char>, LockedPackage>::empty(),
    {
        Self::new()
    }
}

} // verus!
