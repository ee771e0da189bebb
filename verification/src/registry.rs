//! Package metadata as the npm registry describes it, and the addresses
//! under which the registry serves it.
use vstd::prelude::*;

use crate::strmap::StrMap;
use crate::text::{
    append_chars, chars_of, find, find_from, lemma_find_from, matches_at, replace_all, replace_exec,
    string_from,
};

verus! {

/// The address of the public npm registry.
pub const DEFAULT_REGISTRY_URL: &'static str = "https://registry.npmjs.org";

/// Distribution info for a package version: tarball address and digests.
pub struct DistInfo {
    pub tarball: String,
    pub shasum: String,
    pub integrity: Option<String>,
}

/// Metadata for one version of a package.
pub struct VersionMetadata {
    pub name: String,
    pub version: String,
    pub description: Option<String>,
    pub dependencies: Option<StrMap<String>>,
    pub dev_dependencies: Option<StrMap<String>>,
    pub peer_dependencies: Option<StrMap<String>>,
    pub dist: DistInfo,
}

/// Metadata for a package: its tags and every published version.
pub struct PackageMetadata {
    pub name: String,
    pub description: Option<String>,
    pub dist_tags: StrMap<String>,
    pub versions: StrMap<VersionMetadata>,
}

/// The form of a package name inside a registry address: a scoped name
/// `@scope/pkg` has its slash written `%2f`.
pub open spec fn encoded_name(name: Seq<char>) -> Seq<char> {
    if name.len() > 0 && name[0] == '@' {
        replace_all(name, seq!['/'], seq!['%', '2', 'f'])
    } else {
        name
    }
}

/// Law: a scoped name `@scope/base` (neither part holding `/`) is written
/// `@scope%2fbase`; a name that does not begin with `@` is written as it
/// is.
pub proof fn law_encoded_name(scope: Seq<char>, base: Seq<char>)
    requires
        !scope.contains('/'),
        !base.contains('/'),
    ensures
        encoded_name(seq!['@'] + scope + seq!['/'] + base) == seq!['@'] + scope + seq!['%', '2', 'f'] + base,
        base.len() == 0 || base[0] != '@' ==> encoded_name(base) == base,
{
    let p = seq!['/'];
    let x = seq!['@'] + scope;
    let s = x + p + base;
    assert(seq!['@'] + scope + seq!['/'] + base =~= s);
    assert(s.subrange(x.len() as int, x.len() + 1int) =~= p);
    assert forall|j: int| 0 <= j < x.len() implies !#[trigger] matches_at(s, j, p) by {
        if matches_at(s, j, p) {
            assert(s[j] == s.subrange(j, j + 1)[0]);
            if j > 0 {
                assert(s[j] == scope[j - 1]);
            }
        }
    }
    lemma_find_from_first_occurrence(s, p, 0, x.len() as int);
    assert(s.subrange(0, x.len() as int) =~= x);
    assert(s.subrange(x.len() + 1int, s.len() as int) =~= base);
    lemma_find_from(base, p, 0);
    if let Some(j) = find(base, p) {
        assert(matches_at(base, j, p));
        assert(base[j] == base.subrange(j, j + 1)[0]);
    }
    assert(replace_all(base, p, seq!['%', '2', 'f']) == base);
    assert(s[0] == '@');
    assert(replace_all(s, p, seq!['%', '2', 'f']) =~= x + seq!['%', '2', 'f'] + base);
}

/// The first occurrence of `p` at or after `from` is at `i` when `p`
/// occurs at `i` and nowhere between.
proof fn lemma_find_from_first_occurrence(s: Seq<char>, p: Seq<char>, from: int, i: int)
    requires
        0 <= from <= i,
        matches_at(s, i, p),
        forall|j: int| from <= j < i ==> !#[trigger] matches_at(s, j, p),
    ensures
        find_from(s, p, from) == Some(i),
    decreases i - from,
{
    if from < i {
        assert(!matches_at(s, from, p));
        lemma_find_from_first_occurrence(s, p, from + 1, i);
    }
}

/// Encodes a scoped package name (`@scope/pkg` becomes `@scope%2fpkg`).
pub fn encode_package_name(name: &str) -> (r: String)
    ensures
        r@ == encoded_name(name@),
{
    let n = chars_of(name);
    if n.len() > 0 && n[0] == '@' {
        let slash = vec!['/'];
        let enc = vec!['%', '2', 'f'];
        assert(slash@ =~= seq!['/']);
        assert(enc@ =~= seq!['%', '2', 'f']);
        string_from(replace_exec(n.as_slice(), slash.as_slice(), enc.as_slice()).as_slice())
    } else {
        name.to_owned()
    }
}

/// The address of a package's metadata document in a registry.
pub open spec fn metadata_url_spec(registry_url: Seq<char>, name: Seq<char>) -> Seq<char> {
    registry_url + seq!['/'] + encoded_name(name)
}

/// The address of a package's metadata document in the registry at
/// `registry_url`.
pub fn metadata_url(registry_url: &str, name: &str) -> (r: String)
    ensures
        r@ == metadata_url_spec(registry_url@, name@),
{
    let mut v = chars_of(registry_url);
    v.push('/');
    let e = chars_of(encode_package_name(name).as_str());
    append_chars(&mut v, e.as_slice());
    string_from(v.as_slice())
}

} // verus!
