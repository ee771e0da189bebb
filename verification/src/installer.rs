//! The bookkeeping of an install: which packages came from the store,
//! which were downloaded, and the lockfile that records them.
use vstd::prelude::*;

use crate::fspath::FsPath;
use crate::lockfile::{LockedPackage, Lockfile};
use crate::manifest::Manifest;
use crate::strmap::StrMap;
use crate::resolver::{opt_text, ResolvedPackage};

verus! {

/// Result of an install operation.
pub struct InstallResult {
    pub total: usize,
    pub installed: u32,
    pub cached: u32,
}

/// Whether `e` is the lock entry of `pkg` stored under hash `hash`.
pub open spec fn locks(e: LockedPackage, pkg: ResolvedPackage, hash: Seq<char>) -> bool {
    &&& e.version@ == pkg.version@
    &&& e.hash@ == hash
    &&& e.tarball@ == pkg.tarball@
    &&& opt_text(e.integrity) == opt_text(pkg.integrity)
    &&& e.dependencies@ == pkg.dependencies@
    &&& e.dependencies.entry_seq() == pkg.dependencies.entry_seq()
}

/// The lock entry of a resolved package stored under `hash`.
pub fn locked_entry(pkg: &ResolvedPackage, hash: String) -> (r: LockedPackage)
    ensures
        locks(r, *pkg, hash@),
{
    LockedPackage {
        version: pkg.version.clone(),
        hash,
        tarball: pkg.tarball.clone(),
        integrity: match &pkg.integrity {
            Some(s) => Some(s.clone()),
            None => None,
        },
        dependencies: pkg.dependencies.duplicate(),
    }
}

/// The running account of an install.
pub struct InstallTally {
    pub lockfile: Lockfile,
    pub installed: u32,
    pub cached: u32,
}

impl InstallTally {
    /// Nothing installed yet, and an empty lockfile.
    pub fn new() -> (r: Self)
        ensures
            r.installed == 0,
            r.cached == 0,
            r.lockfile.lockfile_version == 1,
            r.lockfile.packages@ == Map::<Seq<char>, LockedPackage>::empty(),
    {
        InstallTally { lockfile: Lockfile::new(), installed: 0, cached: 0 }
    }

    /// A package that the store already held. It is counted as cached, and
    /// recorded in the lockfile when the store's record of it was found.
    pub fn note_cached(&mut self, pkg: &ResolvedPackage, stored_hash: Option<String>)
        requires
            old(self).cached < u32::MAX,
        ensures
            final(self).cached == old(self).cached + 1,
            final(self).installed == old(self).installed,
            final(self).lockfile.lockfile_version == old(self).lockfile.lockfile_version,
            stored_hash is None ==> final(self).lockfile.packages@ == old(self).lockfile.packages@,
            stored_hash matches Some(h) ==> exists|e: LockedPackage|
                locks(e, *pkg, h@) && final(self).lockfile.packages@ == old(
                    self,
                ).lockfile.packages@.insert(pkg.name@, e),
    {
        match stored_hash {
            Some(h) => {
                let e = locked_entry(pkg, h);
                let ghost ge = e;
                self.lockfile.add_package(pkg.name.as_str(), e);
                assert(locks(ge, *pkg, h@));
            },
            None => {},
        }
        self.cached = self.cached + 1;
    }

    /// A package that was downloaded and stored under `hash`. It is counted
    /// as installed and recorded in the lockfile.
    pub fn note_installed(&mut self, pkg: &ResolvedPackage, hash: String)
        requires
            old(self).installed < u32::MAX,
        ensures
            final(self).installed == old(self).installed + 1,
            final(self).cached == old(self).cached,
            final(self).lockfile.lockfile_version == old(self).lockfile.lockfile_version,
            exists|e: LockedPackage|
                locks(e, *pkg, hash@) && final(self).lockfile.packages@ == old(
                    self,
                ).lockfile.packages@.insert(pkg.name@, e),
    {
        let ghost h = hash@;
        let e = locked_entry(pkg, hash);
        let ghost ge = e;
        self.lockfile.add_package(pkg.name.as_str(), e);
        assert(locks(ge, *pkg, h));
        self.installed = self.installed + 1;
    }

    /// The counts of the install, out of `total` resolved packages.
    pub fn result(&self, total: usize) -> (r: InstallResult)
        ensures
            r.total == total,
            r.installed == self.installed,
            r.cached == self.cached,
    {
        InstallResult { total, installed: self.installed, cached: self.cached }
    }
}

/// The ranges an install resolves: every dependency and devDependency of
/// the manifest; a name in both takes its `dependencies` range.
pub fn install_roots(manifest: &Manifest) -> (r: StrMap<String>)
    ensures
        forall|k: Seq<char>|
            #[trigger] r@.contains_key(k) <==> (manifest.dependencies@.contains_key(k)
                || manifest.dev_dependencies@.contains_key(k)),
        forall|k: Seq<char>| #[trigger]
            r@.contains_key(k) ==> r@[k]@ == (if manifest.dependencies@.contains_key(k) {
                manifest.dependencies@[k]@
            } else {
                manifest.dev_dependencies@[k]@
            }),
{
    let mut r = manifest.dev_dependencies.duplicate();
    let entries = manifest.dependencies.entries();
    assert forall|j: int| 0 <= j < entries@.len() implies #[trigger] manifest.dependencies@.contains_key(
        entries@[j].0@,
    ) && manifest.dependencies@[entries@[j].0@] == entries@[j].1 by {
        assert(manifest.dependencies@.contains_key(entries@[j].0@));
    }
    let mut i: usize = 0;
    while i < entries.len()
        invariant
            i <= entries@.len(),
            entries@ == manifest.dependencies.entry_seq(),
            manifest.dependencies@ == crate::strmap::map_of(entries@),
            forall|j: int|
                0 <= j < entries@.len() ==> #[trigger] manifest.dependencies@.contains_key(entries@[j].0@)
                    && manifest.dependencies@[entries@[j].0@] == entries@[j].1,
            forall|k: Seq<char>| #[trigger]
                manifest.dependencies@.contains_key(k) ==> exists|j: int|
                    0 <= j < entries@.len() && entries@[j].0@ == k,
            forall|k: Seq<char>|
                #[trigger] r@.contains_key(k) <==> ((exists|j: int| 0 <= j < i && entries@[j].0@ == k)
                    || manifest.dev_dependencies@.contains_key(k)),
            forall|k: Seq<char>| #[trigger]
                r@.contains_key(k) ==> r@[k]@ == (if exists|j: int| 0 <= j < i && entries@[j].0@ == k {
                    manifest.dependencies@[k]@
                } else {
                    manifest.dev_dependencies@[k]@
                }),
        decreases entries.len() - i,
    {
        let ghost before = r@;
        let k = entries[i].0.clone();
        let v = entries[i].1.clone();
        let ghost kk = entries@[i as int].0@;
        r.insert(k, v);
        proof {
            assert(manifest.dependencies@.contains_key(entries@[i as int].0@));
            assert(manifest.dependencies@[kk] == entries@[i as int].1);
            assert forall|k2: Seq<char>| #[trigger] r@.contains_key(k2) <==> ((exists|j: int|
                0 <= j < i + 1 && entries@[j].0@ == k2) || manifest.dev_dependencies@.contains_key(k2)) by {
                if k2 == kk {
                    assert(0 <= i < i + 1 && entries@[i as int].0@ == k2);
                } else if exists|j: int| 0 <= j < i + 1 && entries@[j].0@ == k2 {
                    let j = choose|j: int| 0 <= j < i + 1 && entries@[j].0@ == k2;
                    assert(j < i);
                }
            }
            assert forall|k2: Seq<char>| #[trigger] r@.contains_key(k2) implies r@[k2]@ == (if exists|j: int|
                0 <= j < i + 1 && entries@[j].0@ == k2 {
                manifest.dependencies@[k2]@
            } else {
                manifest.dev_dependencies@[k2]@
            }) by {
                if k2 == kk {
                    assert(0 <= i < i + 1 && entries@[i as int].0@ == k2);
                } else {
                    if exists|j: int| 0 <= j < i + 1 && entries@[j].0@ == k2 {
                        let j = choose|j: int| 0 <= j < i + 1 && entries@[j].0@ == k2;
                        assert(j < i);
                    }
                    if exists|j: int| 0 <= j < i && entries@[j].0@ == k2 {
                        let j = choose|j: int| 0 <= j < i && entries@[j].0@ == k2;
                        assert(0 <= j < i + 1);
                    }
                }
            }
        }
        i += 1;
    }
    r
}

/// Where an install found a resolved package.
pub enum PackageSource {
    /// The store already held it; its stored hash when the store's record
    /// of it was found.
    Cached(Option<String>),
    /// It was downloaded and stored under this hash.
    Downloaded(String),
}

/// The hash under which a package's lock entry is recorded, if any.
pub open spec fn source_hash(o: PackageSource) -> Option<Seq<char>> {
    match o {
        PackageSource::Cached(Some(h)) => Some(h@),
        PackageSource::Cached(None) => None,
        PackageSource::Downloaded(h) => Some(h@),
    }
}

/// How many of the packages were downloaded.
pub open spec fn count_downloaded(s: Seq<PackageSource>) -> nat
    decreases s.len(),
{
    if s.len() == 0 {
        0
    } else {
        count_downloaded(s.drop_last()) + if s.last() is Downloaded {
            1nat
        } else {
            0nat
        }
    }
}

/// Law: a downloaded package adds one to the download count and a cached
/// one adds nothing.
pub proof fn law_count_downloaded(s: Seq<PackageSource>, x: PackageSource)
    ensures
        x is Downloaded ==> count_downloaded(s.push(x)) == count_downloaded(s) + 1,
        x is Cached ==> count_downloaded(s.push(x)) == count_downloaded(s),
        count_downloaded(s) <= s.len(),
    decreases s.len(),
{
    assert(s.push(x).drop_last() =~= s);
    if s.len() > 0 {
        law_count_downloaded(s.drop_last(), s.last());
    }
}

/// Whether package `j` is recorded under the name `k`.
pub open spec fn records(res: Seq<ResolvedPackage>, src: Seq<PackageSource>, j: int, k: Seq<char>) -> bool {
    res[j].name@ == k && source_hash(src[j]) is Some
}

/// Whether package `j` is recorded and no later package before `upto` is
/// recorded under the same name.
pub open spec fn last_record(res: Seq<ResolvedPackage>, src: Seq<PackageSource>, j: int, upto: int) -> bool {
    &&& source_hash(src[j]) is Some
    &&& forall|m: int| j < m < upto ==> !#[trigger] records(res, src, m, res[j].name@)
}

/// The outcome of an install from where each resolved package was found:
/// every package counts as downloaded or cached, and the lockfile holds,
/// under each recorded name, the entry of the last package recorded under
/// it.
pub fn install_plan(resolved: &Vec<ResolvedPackage>, sources: &Vec<PackageSource>) -> (r: (
    InstallResult,
    Lockfile,
))
    requires
        sources@.len() == resolved@.len(),
        resolved@.len() <= u32::MAX,
    ensures
        r.0.total == resolved@.len(),
        r.0.installed == count_downloaded(sources@),
        r.0.installed + r.0.cached == r.0.total,
        r.1.lockfile_version == 1,
        forall|k: Seq<char>|
            r.1.packages@.contains_key(k) <==> exists|j: int|
                0 <= j < resolved@.len() && #[trigger] records(resolved@, sources@, j, k),
        forall|j: int|
            0 <= j < resolved@.len() && #[trigger] last_record(resolved@, sources@, j, resolved@.len() as int)
                ==> locks(r.1.packages@[resolved@[j].name@], resolved@[j], source_hash(sources@[j]).unwrap()),
{
    let n = resolved.len();
    let mut t = InstallTally::new();
    let mut i: usize = 0;
    while i < n
        invariant
            i <= n,
            n == resolved@.len(),
            n == sources@.len(),
            n <= u32::MAX,
            t.installed == count_downloaded(sources@.subrange(0, i as int)),
            t.installed + t.cached == i,
            t.lockfile.lockfile_version == 1,
            forall|k: Seq<char>|
                t.lockfile.packages@.contains_key(k) <==> exists|j: int|
                    0 <= j < i && #[trigger] records(resolved@, sources@, j, k),
            forall|j: int|
                0 <= j < i && #[trigger] last_record(resolved@, sources@, j, i as int) ==> locks(
                    t.lockfile.packages@[resolved@[j].name@],
                    resolved@[j],
                    source_hash(sources@[j]).unwrap(),
                ),
        decreases n - i,
    {
        let ghost before = t.lockfile.packages@;
        let ghost name = resolved@[i as int].name@;
        proof {
            let sub = sources@.subrange(0, i + 1);
            assert(sub.drop_last() =~= sources@.subrange(0, i as int));
            assert(sub.last() == sources@[i as int]);
        }
        match &sources[i] {
            PackageSource::Cached(h) => {
                let hc = match h {
                    Some(x) => Some(x.clone()),
                    None => None,
                };
                t.note_cached(&resolved[i], hc);
            },
            PackageSource::Downloaded(h) => {
                t.note_installed(&resolved[i], h.clone());
            },
        }
        proof {
            let now = t.lockfile.packages@;
            let rec = source_hash(sources@[i as int]) is Some;
            if rec {
                let e = choose|e: LockedPackage|
                    locks(e, resolved@[i as int], source_hash(sources@[i as int]).unwrap()) && now
                        == before.insert(name, e);
                assert(now == before.insert(name, e));
            } else {
                assert(now == before);
            }
            assert forall|k: Seq<char>| now.contains_key(k) <==> exists|j: int|
                0 <= j < i + 1 && #[trigger] records(resolved@, sources@, j, k) by {
                if now.contains_key(k) && !before.contains_key(k) {
                    assert(records(resolved@, sources@, i as int, k));
                }
                if exists|j: int| 0 <= j < i + 1 && #[trigger] records(resolved@, sources@, j, k) {
                    let j = choose|j: int| 0 <= j < i + 1 && #[trigger] records(resolved@, sources@, j, k);
                    if j < i {
                        assert(before.contains_key(k));
                    }
                }
            }
            assert forall|j: int|
                0 <= j < i + 1 && #[trigger] last_record(resolved@, sources@, j, i + 1) implies locks(
                now[resolved@[j].name@],
                resolved@[j],
                source_hash(sources@[j]).unwrap(),
            ) by {
                if j < i {
                    assert(!records(resolved@, sources@, i as int, resolved@[j].name@));
                    assert(last_record(resolved@, sources@, j, i as int));
                    if rec {
                        assert(resolved@[j].name@ != name);
                    }
                }
            }
        }
        i += 1;
    }
    assert(sources@.subrange(0, n as int) =~= sources@);
    (t.result(n), t.lockfile)
}

/// Law: when the resolved packages have distinct names (as a finished
/// walk gives them, in strictly increasing name order), every package
/// recorded with a hash is the last one recorded under its name, so the
/// lockfile of `install_plan` holds its entry.
pub proof fn law_install_locks_each(res: Seq<ResolvedPackage>, src: Seq<PackageSource>, j: int)
    requires
        forall|a: int, b: int| 0 <= a < b < res.len() ==> #[trigger] res[a].name@ != #[trigger] res[b].name@,
        0 <= j < res.len(),
        src.len() == res.len(),
        source_hash(src[j]) is Some,
    ensures
        last_record(res, src, j, res.len() as int),
{
    assert forall|m: int| j < m < res.len() implies !#[trigger] records(res, src, m, res[j].name@) by {
        assert(res[j].name@ != res[m].name@);
    }
}

/// Where an extracted tarball's files are taken from.
pub enum SourceDir {
    /// The `package/` directory that npm tarballs hold.
    PackageDir,
    /// The first entry of the extraction directory, a directory itself.
    FirstEntry,
    /// The extraction directory itself.
    ExtractRoot,
}

/// The text `package`.
pub open spec fn package_dir_name() -> Seq<char> {
    seq!['p', 'a', 'c', 'k', 'a', 'g', 'e']
}

/// The `package/` directory inside an extraction directory.
pub fn extracted_package_dir(extract_root: &FsPath) -> (r: FsPath)
    ensures
        r@ == extract_root@.push(package_dir_name()),
{
    let lit = "package";
    proof {
        reveal_strlit("package");
        assert(lit@ =~= package_dir_name());
    }
    extract_root.join(lit)
}

/// Chooses the source directory of an extracted tarball: `package/` when
/// it exists; else the first entry when there is one and it is a
/// directory; else the extraction directory.
pub fn choose_source_dir(package_dir_exists: bool, first_entry_is_dir: Option<bool>) -> (r: SourceDir)
    ensures
        package_dir_exists ==> r is PackageDir,
        !package_dir_exists && first_entry_is_dir == Some(true) ==> r is FirstEntry,
        !package_dir_exists && first_entry_is_dir != Some(true) ==> r is ExtractRoot,
{
    if package_dir_exists {
        SourceDir::PackageDir
    } else {
        match first_entry_is_dir {
            Some(true) => SourceDir::FirstEntry,
            _ => SourceDir::ExtractRoot,
        }
    }
}

} // verus!
