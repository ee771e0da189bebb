//! The layout of the global content-addressed store at `~/.ghostfs/store/`
//! and the records it keeps of stored packages.
use vstd::prelude::*;
use vstd::string::StringSliceAdditionalSpecFns;
use vstd::utf8::{encode_utf8, is_char_boundary};

use crate::fspath::FsPath;

verus! {

/// A package held in the global store.
pub struct StoredPackage {
    pub name: String,
    pub version: String,
    pub hash: String,
    pub size: u64,
    pub installed_at: String,
}

/// The text `.ghostfs`.
pub open spec fn ghostfs_dir_name() -> Seq<char> {
    seq!['.', 'g', 'h', 'o', 's', 't', 'f', 's']
}

/// The text `store`.
pub open spec fn store_dir_name() -> Seq<char> {
    seq!['s', 't', 'o', 'r', 'e']
}

/// The text `ghostfs.db`.
pub open spec fn db_file_name() -> Seq<char> {
    seq!['g', 'h', 'o', 's', 't', 'f', 's', '.', 'd', 'b']
}

/// The smaller of two integers.
pub open spec fn min_int(a: int, b: int) -> int {
    if a <= b {
        a
    } else {
        b
    }
}

/// The leading `n` bytes of `s`, or all of `s` when it is shorter, as a
/// string; `n` bytes in must fall on a character boundary.
pub fn byte_prefix(s: &str, n: usize) -> (r: &str)
    requires
        s.spec_bytes().len() <= usize::MAX,
        is_char_boundary(s.spec_bytes(), min_int(n as int, s.spec_bytes().len() as int)),
    ensures
        encode_utf8(r@) == s.spec_bytes().subrange(0, min_int(n as int, s.spec_bytes().len() as int)),
{
    let len = s.len();
    let m = if n < len {
        n
    } else {
        len
    };
    let (a, _b) = s.split_at(m);
    a
}

/// Whether `p` is the directory of the package stored under `hash` in a
/// store rooted at `root`: `<root>/<shard>/<hash>`, where the shard is the
/// first two bytes of the hash (all of it when shorter).
pub open spec fn is_package_path(p: Seq<Seq<char>>, root: Seq<Seq<char>>, hash: Seq<char>) -> bool {
    &&& p.len() == root.len() + 2
    &&& p.subrange(0, root.len() as int) == root
    &&& encode_utf8(p[root.len() as int]) == encode_utf8(hash).subrange(
        0,
        min_int(2, encode_utf8(hash).len() as int),
    )
    &&& p.last() == hash
}

/// The store's layout: everything lives under its root directory.
pub struct ContentStore {
    root: FsPath,
}

impl ContentStore {
    /// The root directory.
    pub closed spec fn root_view(&self) -> Seq<Seq<char>> {
        self.root@
    }

    /// A store rooted at `root`.
    pub fn with_path(root: FsPath) -> (r: Self)
        ensures
            r.root_view() == root@,
    {
        ContentStore { root }
    }

    /// The default store root under a home directory: `~/.ghostfs/store`.
    pub fn default_store_path(home: &FsPath) -> (r: FsPath)
        ensures
            r@ == home@.push(ghostfs_dir_name()).push(store_dir_name()),
    {
        let a = ".ghostfs";
        let b = "store";
        proof {
            reveal_strlit(".ghostfs");
            reveal_strlit("store");
            assert(a@ =~= ghostfs_dir_name());
            assert(b@ =~= store_dir_name());
        }
        home.join(a).join(b)
    }

    /// The root directory of the store.
    pub fn root(&self) -> (r: &FsPath)
        ensures
            r@ == self.root_view(),
    {
        &self.root
    }

    /// The metadata database file, `ghostfs.db` under the root.
    pub fn db_path(&self) -> (r: FsPath)
        ensures
            r@ == self.root_view().push(db_file_name()),
    {
        let a = "ghostfs.db";
        proof {
            reveal_strlit("ghostfs.db");
            assert(a@ =~= db_file_name());
        }
        self.root.join(a)
    }

    /// The directory of a stored package: `<root>/<shard>/<hash>`, where the
    /// shard is the first two bytes of the hash (all of it when shorter).
    pub fn package_path(&self, hash: &str) -> (r: FsPath)
        requires
            hash.spec_bytes().len() <= usize::MAX,
            is_char_boundary(hash.spec_bytes(), min_int(2, hash.spec_bytes().len() as int)),
        ensures
            r@.len() == self.root_view().len() + 2,
            r@.subrange(0, self.root_view().len() as int) == self.root_view(),
            encode_utf8(r@[self.root_view().len() as int]) == hash.spec_bytes().subrange(
                0,
                min_int(2, hash.spec_bytes().len() as int),
            ),
            r@.last() == hash@,
            is_package_path(r@, self.root_view(), hash@),
    {
        let shard = byte_prefix(hash, 2);
        let r = self.root.join(shard).join(hash);
        assert(r@.subrange(0, self.root_view().len() as int) =~= self.root_view());
        r
    }
}

/// The sum of the sizes of a list of stored packages.
pub open spec fn size_sum(p: Seq<StoredPackage>) -> int
    decreases p.len(),
{
    if p.len() == 0 {
        0
    } else {
        size_sum(p.drop_last()) + p.last().size
    }
}

/// Prefix sums of sizes do not exceed the whole sum.
pub proof fn lemma_size_sum_prefix(p: Seq<StoredPackage>, i: int)
    requires
        0 <= i <= p.len(),
    ensures
        size_sum(p.subrange(0, i)) <= size_sum(p),
        size_sum(p.subrange(0, i)) >= 0,
    decreases p.len() - i,
{
    if i < p.len() {
        lemma_size_sum_prefix(p, i + 1);
        assert(p.subrange(0, i + 1).drop_last() =~= p.subrange(0, i));
    } else {
        assert(p.subrange(0, i) =~= p);
    }
    lemma_size_sum_nonneg(p.subrange(0, i));
}

/// Sizes sum to a non-negative total.
pub proof fn lemma_size_sum_nonneg(p: Seq<StoredPackage>)
    ensures
        size_sum(p) >= 0,
    decreases p.len(),
{
    if p.len() > 0 {
        lemma_size_sum_nonneg(p.drop_last());
    }
}

/// The total size of a list of stored packages.
pub fn total_size(packages: &Vec<StoredPackage>) -> (r: u64)
    requires
        size_sum(packages@) <= u64::MAX,
    ensures
        r == size_sum(packages@),
{
    let mut total: u64 = 0;
    let mut i: usize = 0;
    while i < packages.len()
        invariant
            i <= packages@.len(),
            size_sum(packages@) <= u64::MAX,
            total == size_sum(packages@.subrange(0, i as int)),
        decreases packages.len() - i,
    {
        proof {
            lemma_size_sum_prefix(packages@, i + 1);
            assert(packages@.subrange(0, i + 1).drop_last() =~= packages@.subrange(0, i as int));
        }
        total = total + packages[i].size;
        i += 1;
    }
    assert(packages@.subrange(0, i as int) =~= packages@);
    total
}

/// The leading twelve bytes of a hash (all of it when shorter), as the
/// listings show it.
pub fn short_hash(hash: &str) -> (r: &str)
    requires
        hash.spec_bytes().len() <= usize::MAX,
        is_char_boundary(hash.spec_bytes(), min_int(12, hash.spec_bytes().len() as int)),
    ensures
        encode_utf8(r@) == hash.spec_bytes().subrange(0, min_int(12, hash.spec_bytes().len() as int)),
{
    byte_prefix(hash, 12)
}

/// Whether a directory name under the store root is a shard, two bytes
/// long.
pub fn is_shard_dir_name(name: &str) -> (r: bool)
    requires
        name.spec_bytes().len() <= usize::MAX,
    ensures
        r == (name.spec_bytes().len() == 2),
{
    name.len() == 2
}

} // verus!
