//! Linking store packages into a project's `node_modules/`: where each
//! link goes, what is reported for packages missing from the store, and
//! the `.package-lock.json` that Node.js tooling reads.
use vstd::prelude::*;
use vstd::string::{StringExecFns, StringSliceAdditionalSpecFns};
use vstd::utf8::{encode_utf8, is_char_boundary};

use crate::fspath::FsPath;
use crate::lockfile::{LockedPackage, Lockfile};
use crate::resolver::opt_text;
use crate::store::byte_prefix;
use crate::text::{chars_of, find, find_from_exec, lemma_find_from, string_from};

verus! {

/// The contents of the marker file that flags a managed `node_modules/`.
pub const MARKER_CONTENTS: &'static str =
    "This node_modules is managed by GhostFS.\nDo not modify manually.\n";

/// The `name` field of the generated `.package-lock.json`.
pub const PACKAGE_LOCK_NAME: &'static str = "ghostfs-managed";

/// The `lockfileVersion` field of the generated `.package-lock.json`.
pub const PACKAGE_LOCK_VERSION: u32 = 3;

/// Result of a link operation.
pub struct LinkResult {
    pub linked: u32,
    pub errors: Vec<String>,
}

/// The `node_modules/` directory of a project.
pub fn node_modules_dir(project_dir: &FsPath) -> (r: FsPath)
    ensures
        r@ == project_dir@.push("node_modules"@),
{
    project_dir.join("node_modules")
}

/// The marker file inside a `node_modules/` directory.
pub fn marker_path(node_modules: &FsPath) -> (r: FsPath)
    ensures
        r@ == node_modules@.push(".ghostfs"@),
{
    node_modules.join(".ghostfs")
}

/// The `.package-lock.json` file inside a `node_modules/` directory.
pub fn package_lock_path(node_modules: &FsPath) -> (r: FsPath)
    ensures
        r@ == node_modules@.push(".package-lock.json"@),
{
    node_modules.join(".package-lock.json")
}

/// Where the link of package `name` goes: a scoped name `@scope/pkg` goes
/// to `node_modules/@scope/pkg` (the scope directory is returned first, to
/// be created), any other name to `node_modules/<name>`.
pub fn link_target(node_modules: &FsPath, name: &str) -> (r: (Option<FsPath>, FsPath))
    ensures
        ({
            let n = name@;
            if n.len() > 0 && n[0] == '@' && find(n, seq!['/']) is Some {
                let i = find(n, seq!['/']).unwrap();
                &&& r.0 matches Some(s) && s@ == node_modules@.push(n.subrange(0, i))
                &&& r.1@ == node_modules@.push(n.subrange(0, i)).push(n.subrange(i + 1, n.len() as int))
            } else {
                &&& r.0 is None
                &&& r.1@ == node_modules@.push(n)
            }
        }),
{
    let n = chars_of(name);
    if n.len() > 0 && n[0] == '@' {
        let slash = vec!['/'];
        assert(slash@ =~= seq!['/']);
        match find_from_exec(n.as_slice(), slash.as_slice(), 0) {
            Some(i) => {
                proof {
                    lemma_find_from(n@, slash@, 0);
                }
                let scope = string_from(vstd::slice::slice_subrange(n.as_slice(), 0, i));
                let rest = string_from(vstd::slice::slice_subrange(n.as_slice(), i + 1, n.len()));
                let scope_dir = node_modules.join(scope.as_str());
                let target = scope_dir.join(rest.as_str());
                return (Some(scope_dir), target);
            },
            None => {},
        }
    }
    (None, node_modules.join(name))
}

/// The report for a locked package whose stored copy is missing:
/// `<name> @ <version> not found in store (hash: <first 12 bytes of hash>)`.
pub fn missing_package_message(name: &str, version: &str, hash: &str) -> (r: String)
    requires
        12 <= hash.spec_bytes().len() <= usize::MAX,
        is_char_boundary(hash.spec_bytes(), 12),
    ensures
        exists|h: Seq<char>|
            encode_utf8(h) == hash.spec_bytes().subrange(0, 12) && r@ == name@ + " @ "@ + version@
                + " not found in store (hash: "@ + h + ")"@,
{
    let prefix = byte_prefix(hash, 12);
    let mut r = String::from_str(name);
    r.append(" @ ");
    r.append(version);
    r.append(" not found in store (hash: ");
    r.append(prefix);
    r.append(")");
    assert(encode_utf8(prefix@) == hash.spec_bytes().subrange(0, 12));
    r
}

/// The running account of a link.
pub struct LinkTally {
    pub linked: u32,
    pub errors: Vec<String>,
}

impl LinkTally {
    /// Nothing linked, nothing reported.
    pub fn new() -> (r: Self)
        ensures
            r.linked == 0,
            r.errors@.len() == 0,
    {
        LinkTally { linked: 0, errors: Vec::new() }
    }

    /// A package was linked.
    pub fn note_linked(&mut self)
        requires
            old(self).linked < u32::MAX,
        ensures
            final(self).linked == old(self).linked + 1,
            final(self).errors == old(self).errors,
    {
        self.linked = self.linked + 1;
    }

    /// A package's stored copy is missing; its report is added.
    pub fn note_missing(&mut self, name: &str, pkg: &LockedPackage)
        requires
            12 <= encode_utf8(pkg.hash@).len() <= usize::MAX,
            is_char_boundary(encode_utf8(pkg.hash@), 12),
        ensures
            final(self).linked == old(self).linked,
            final(self).errors@.len() == old(self).errors@.len() + 1,
            final(self).errors@.subrange(0, old(self).errors@.len() as int) == old(self).errors@,
            exists|h: Seq<char>|
                encode_utf8(h) == encode_utf8(pkg.hash@).subrange(0, 12) && final(self).errors@.last()@
                    == name@ + " @ "@ + pkg.version@ + " not found in store (hash: "@ + h + ")"@,
    {
        let m = missing_package_message(name, pkg.version.as_str(), pkg.hash.as_str());
        self.errors.push(m);
        assert(self.errors@.subrange(0, old(self).errors@.len() as int) =~= old(self).errors@);
    }

    /// The result of the link.
    pub fn result(self) -> (r: LinkResult)
        ensures
            r.linked == self.linked,
            r.errors == self.errors,
    {
        LinkResult { linked: self.linked, errors: self.errors }
    }
}

/// Whether `msg` reports the locked package `name` as missing from the
/// store.
pub open spec fn reports_missing(msg: Seq<char>, name: Seq<char>, pkg: LockedPackage) -> bool {
    exists|h: Seq<char>|
        encode_utf8(h) == encode_utf8(pkg.hash@).subrange(0, 12) && msg == name + " @ "@ + pkg.version@
            + " not found in store (hash: "@ + h + ")"@
}

/// The positions, in order, whose flag is false.
pub open spec fn missing_positions(p: Seq<bool>) -> Seq<int>
    decreases p.len(),
{
    if p.len() == 0 {
        seq![]
    } else if p.last() {
        missing_positions(p.drop_last())
    } else {
        missing_positions(p.drop_last()).push(p.len() - 1)
    }
}

/// Law: a package found in the store adds no missing position; a missing
/// one adds its own position at the end.
pub proof fn law_missing_positions(p: Seq<bool>, present: bool)
    ensures
        present ==> missing_positions(p.push(present)) == missing_positions(p),
        !present ==> missing_positions(p.push(present)) == missing_positions(p).push(p.len() as int),
{
    assert(p.push(present).drop_last() =~= p);
}

/// The missing positions lie in range.
proof fn lemma_missing_positions(p: Seq<bool>)
    ensures
        missing_positions(p).len() <= p.len(),
        forall|m: int|
            0 <= m < missing_positions(p).len() ==> 0 <= #[trigger] missing_positions(p)[m] < p.len()
                && !p[missing_positions(p)[m]],
    decreases p.len(),
{
    if p.len() > 0 {
        lemma_missing_positions(p.drop_last());
    }
}

/// The result of linking a lockfile's packages, in name order, where
/// `present[i]` says whether the `i`-th package's stored copy exists (and
/// so was linked): the present ones are counted as linked, and each
/// missing one is reported, in order.
pub fn link_result(lockfile: &Lockfile, present: &Vec<bool>) -> (r: LinkResult)
    requires
        present@.len() == lockfile.packages.entry_seq().len(),
        present@.len() <= u32::MAX,
        forall|i: int|
            0 <= i < present@.len() && !#[trigger] present@[i] ==> {
                let h = lockfile.packages.entry_seq()[i].1.hash;
                &&& 12 <= encode_utf8(h@).len() <= usize::MAX
                &&& is_char_boundary(encode_utf8(h@), 12)
            },
    ensures
        r.errors@.len() == missing_positions(present@).len(),
        r.linked + r.errors@.len() == present@.len(),
        forall|m: int|
            0 <= m < r.errors@.len() ==> {
                let i = missing_positions(present@)[m];
                reports_missing(
                    #[trigger] r.errors@[m]@,
                    lockfile.packages.entry_seq()[i].0@,
                    lockfile.packages.entry_seq()[i].1,
                )
            },
{
    let entries = lockfile.packages.entries();
    let mut t = LinkTally::new();
    let mut i: usize = 0;
    while i < present.len()
        invariant
            i <= present@.len(),
            entries@ == lockfile.packages.entry_seq(),
            present@.len() == entries@.len(),
            present@.len() <= u32::MAX,
            forall|j: int|
                0 <= j < present@.len() && !#[trigger] present@[j] ==> {
                    let h = entries@[j].1.hash;
                    &&& 12 <= encode_utf8(h@).len() <= usize::MAX
                    &&& is_char_boundary(encode_utf8(h@), 12)
                },
            t.errors@.len() == missing_positions(present@.subrange(0, i as int)).len(),
            t.linked + t.errors@.len() == i,
            forall|m: int|
                0 <= m < t.errors@.len() ==> {
                    let j = missing_positions(present@.subrange(0, i as int))[m];
                    reports_missing(#[trigger] t.errors@[m]@, entries@[j].0@, entries@[j].1)
                },
        decreases present.len() - i,
    {
        let ghost prefix = present@.subrange(0, i as int);
        let ghost next = present@.subrange(0, i + 1);
        assert(next.drop_last() =~= prefix);
        assert(next.last() == present@[i as int]);
        proof {
            lemma_missing_positions(prefix);
        }
        let ghost old_errors = t.errors@;
        if present[i] {
            t.note_linked();
        } else {
            t.note_missing(entries[i].0.as_str(), &entries[i].1);
            proof {
                assert forall|m: int| 0 <= m < t.errors@.len() implies {
                    let j = missing_positions(next)[m];
                    reports_missing(#[trigger] t.errors@[m]@, entries@[j].0@, entries@[j].1)
                } by {
                    if m < old_errors.len() {
                        assert(t.errors@[m] == t.errors@.subrange(0, old_errors.len() as int)[m]);
                    }
                }
            }
        }
        i += 1;
    }
    assert(present@.subrange(0, i as int) =~= present@);
    t.result()
}

/// One entry of the generated `.package-lock.json`.
pub struct PackageLockEntry {
    pub key: String,
    pub version: String,
    pub resolved: String,
    pub integrity: Option<String>,
}

/// Whether `e` is the `.package-lock.json` entry of the locked package
/// `name`.
pub open spec fn lock_entry_of(e: PackageLockEntry, name: Seq<char>, p: LockedPackage) -> bool {
    &&& e.key@ == "node_modules/"@ + name
    &&& e.version@ == p.version@
    &&& e.resolved@ == p.tarball@
    &&& opt_text(e.integrity) == opt_text(p.integrity)
}

/// The `.package-lock.json` entries of a lockfile, in name order.
pub fn package_lock_entries(lockfile: &Lockfile) -> (r: Vec<PackageLockEntry>)
    ensures
        r@.len() == lockfile.packages.entry_seq().len(),
        forall|i: int|
            0 <= i < r@.len() ==> lock_entry_of(
                #[trigger] r@[i],
                lockfile.packages.entry_seq()[i].0@,
                lockfile.packages.entry_seq()[i].1,
            ),
{
    let entries = lockfile.packages.entries();
    let mut r: Vec<PackageLockEntry> = Vec::new();
    let mut i: usize = 0;
    while i < entries.len()
        invariant
            i <= entries@.len(),
            entries@ == lockfile.packages.entry_seq(),
            r@.len() == i,
            forall|j: int| 0 <= j < i ==> lock_entry_of(#[trigger] r@[j], entries@[j].0@, entries@[j].1),
        decreases entries.len() - i,
    {
        let mut key = String::from_str("node_modules/");
        key.append(entries[i].0.as_str());
        let p = &entries[i].1;
        let e = PackageLockEntry {
            key,
            version: p.version.clone(),
            resolved: p.tarball.clone(),
            integrity: match &p.integrity {
                Some(s) => Some(s.clone()),
                None => None,
            },
        };
        r.push(e);
        i += 1;
    }
    r
}

/// What unlinking a project does.
pub enum UnlinkAction {
    /// There is no `node_modules/`.
    Nothing,
    /// `node_modules/` carries the marker and is removed.
    Remove,
    /// `node_modules/` lacks the marker and is left alone, with an error.
    RefuseUnmanaged,
}

/// Whether unlinking removes `node_modules/`: only when it exists and
/// carries the marker.
pub open spec fn unlink_removes(node_modules_exists: bool, marker_exists: bool) -> bool {
    node_modules_exists && marker_exists
}

/// Whether unlinking refuses: `node_modules/` exists without the marker.
pub open spec fn unlink_refuses(node_modules_exists: bool, marker_exists: bool) -> bool {
    node_modules_exists && !marker_exists
}

/// The unlink decision: remove `node_modules/` only when it exists and
/// carries the marker.
pub fn unlink_action(node_modules_exists: bool, marker_exists: bool) -> (r: UnlinkAction)
    ensures
        (r is Remove) == unlink_removes(node_modules_exists, marker_exists),
        (r is RefuseUnmanaged) == unlink_refuses(node_modules_exists, marker_exists),
        !node_modules_exists ==> r is Nothing,
        node_modules_exists && marker_exists ==> r is Remove,
        node_modules_exists && !marker_exists ==> r is RefuseUnmanaged,
{
    if !node_modules_exists {
        UnlinkAction::Nothing
    } else if marker_exists {
        UnlinkAction::Remove
    } else {
        UnlinkAction::RefuseUnmanaged
    }
}

/// Law: unlinking after a link (which leaves `node_modules/` with the
/// marker in it), or where there is no `node_modules/`, never refuses, and
/// it removes `node_modules/` exactly when there is one; a `node_modules/`
/// without the marker is never removed.
pub proof fn law_unlink_after_link(node_modules_exists: bool, marker_exists: bool)
    ensures
        (node_modules_exists && marker_exists) || !node_modules_exists ==> !unlink_refuses(
            node_modules_exists,
            marker_exists,
        ) && unlink_removes(node_modules_exists, marker_exists) == node_modules_exists,
        !marker_exists ==> !unlink_removes(node_modules_exists, marker_exists),
{
}

} // verus!
