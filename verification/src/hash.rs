//! SHA-256 content hashes, written as lowercase hex.
use vstd::prelude::*;
use vstd::string::StringSliceAdditionalSpecFns;
use vstd::utf8::encode_utf8;

use crate::strmap::{lemma_seq_lt_asymmetric, lemma_seq_lt_total, lemma_seq_lt_transitive};
use crate::text::{chars_of, join_exec, join_with, seq_lt, chars_lt, string_from, views};

verus! {

/// The SHA-256 digest of a byte sequence, as `sha2::Sha256` computes it.
pub uninterp spec fn spec_sha256(data: Seq<u8>) -> Seq<u8>;

/// The lowercase hex digit for a value below 16.
pub open spec fn hex_digit(n: int) -> char {
    if n < 10 {
        (48 + n) as char
    } else {
        (87 + n) as char
    }
}

/// The lowercase hex encoding of bytes: two digits per byte, high half
/// first.
pub open spec fn hex_lower(b: Seq<u8>) -> Seq<char>
    decreases b.len(),
{
    if b.len() == 0 {
        seq![]
    } else {
        hex_lower(b.drop_last()) + seq![hex_digit(b.last() as int / 16), hex_digit(b.last() as int % 16)]
    }
}

/// Calls `sha2::Sha256::digest`; the claim is that the result is the named
/// digest of the input, 32 bytes long.
#[verifier::external_body]
fn sha256_digest(data: &[u8]) -> (r: Vec<u8>)
    ensures
        r@ == spec_sha256(data@),
        r@.len() == 32,
{
    <sha2::Sha256 as sha2::Digest>::digest(data).to_vec()
}

/// Calls `hex::encode`, documented to write each byte as two lowercase hex
/// digits; the claim is exactly that.
#[verifier::external_body]
fn hex_encode(data: &[u8]) -> (r: String)
    ensures
        r@ == hex_lower(data@),
{
    hex::encode(data)
}

/// The SHA-256 hash of raw bytes as lowercase hex.
pub fn compute_sha256(data: &[u8]) -> (r: String)
    ensures
        r@ == hex_lower(spec_sha256(data@)),
        r@.len() == 64,
{
    let d = sha256_digest(data);
    let r = hex_encode(d.as_slice());
    proof {
        lemma_hex_lower_len(d@);
    }
    r
}

/// The hex encoding has two characters per byte.
pub proof fn lemma_hex_lower_len(b: Seq<u8>)
    ensures
        hex_lower(b).len() == 2 * b.len(),
    decreases b.len(),
{
    if b.len() > 0 {
        lemma_hex_lower_len(b.drop_last());
    }
}

/// One entry of a directory tree: its path relative to the tree's root,
/// and a file's contents (`None` for a directory).
pub struct TreeEntry {
    pub path: Vec<String>,
    pub contents: Option<Vec<u8>>,
}

/// The components of an entry's path.
pub open spec fn entry_path(e: TreeEntry) -> Seq<Seq<char>> {
    e.path@.map_values(|c: String| c@)
}

/// Order of relative paths: component by component in code point order,
/// a path before every path below it. A walk of a tree that visits each
/// directory before its contents, and the entries of each directory by
/// name, visits the paths in this order.
pub open spec fn path_lt(a: Seq<Seq<char>>, b: Seq<Seq<char>>) -> bool
    decreases a.len(),
{
    if a.len() == 0 {
        b.len() > 0
    } else if b.len() == 0 {
        false
    } else if a[0] != b[0] {
        seq_lt(a[0], b[0])
    } else {
        path_lt(a.drop_first(), b.drop_first())
    }
}

/// `x` put into `s` before the first entry whose path is above its own.
pub open spec fn insert_by_path(s: Seq<TreeEntry>, x: TreeEntry) -> Seq<TreeEntry>
    decreases s.len(),
{
    if s.len() == 0 {
        seq![x]
    } else if path_lt(entry_path(x), entry_path(s[0])) {
        seq![x] + s
    } else {
        seq![s[0]] + insert_by_path(s.drop_first(), x)
    }
}

/// The entries in path order (an insertion sort, in input order).
pub open spec fn sort_by_path(s: Seq<TreeEntry>) -> Seq<TreeEntry>
    decreases s.len(),
{
    if s.len() == 0 {
        seq![]
    } else {
        insert_by_path(sort_by_path(s.drop_last()), s.last())
    }
}

/// The `k` low bytes of `n`, least significant first.
pub open spec fn le_bytes(n: nat, k: nat) -> Seq<u8>
    decreases k,
{
    if k == 0 {
        seq![]
    } else {
        seq![(n % 256) as u8] + le_bytes(n / 256, (k - 1) as nat)
    }
}

/// A byte string framed by its length: eight bytes of length, least
/// significant first, then the bytes.
pub open spec fn framed(b: Seq<u8>) -> Seq<u8> {
    le_bytes(b.len(), 8) + b
}

/// The bytes that one entry adds to a tree's hash: its relative path
/// (components joined by `sep`) framed by its length, then `0` for a
/// directory, or `1` and the file's contents framed by their length. The
/// framing keeps entries apart: a file `a` holding `bc` and a file `ab`
/// holding `c` add different bytes.
pub open spec fn entry_bytes(e: TreeEntry, sep: Seq<char>) -> Seq<u8> {
    framed(encode_utf8(join_with(entry_path(e), sep))) + match e.contents {
        Some(c) => seq![1u8] + framed(c@),
        None => seq![0u8],
    }
}

/// The bytes of a list of entries, in the list's order.
pub open spec fn stream_of(s: Seq<TreeEntry>, sep: Seq<char>) -> Seq<u8>
    decreases s.len(),
{
    if s.len() == 0 {
        seq![]
    } else {
        stream_of(s.drop_last(), sep) + entry_bytes(s.last(), sep)
    }
}

/// The bytes that hashing a directory tree reads: its entries in path
/// order.
pub open spec fn tree_stream(entries: Seq<TreeEntry>, sep: Seq<char>) -> Seq<u8> {
    stream_of(sort_by_path(entries), sep)
}

/// `insert_by_path` puts `x` at the first position whose path is above it.
pub proof fn lemma_insert_by_path(s: Seq<TreeEntry>, x: TreeEntry, p: int)
    requires
        0 <= p <= s.len(),
        forall|j: int| 0 <= j < p ==> !path_lt(entry_path(x), entry_path(#[trigger] s[j])),
        p < s.len() ==> path_lt(entry_path(x), entry_path(s[p])),
    ensures
        insert_by_path(s, x) == s.subrange(0, p) + seq![x] + s.subrange(p, s.len() as int),
    decreases p,
{
    if p == 0 {
        if s.len() == 0 {
            assert(s.subrange(0, 0) + seq![x] + s.subrange(0, 0) =~= seq![x]);
        } else {
            assert(s.subrange(0, 0) + seq![x] + s.subrange(0, s.len() as int) =~= seq![x] + s);
        }
    } else {
        assert forall|j: int| 0 <= j < p - 1 implies !path_lt(entry_path(x), entry_path(#[trigger] s.drop_first()[j])) by {
            assert(s.drop_first()[j] == s[j + 1]);
        }
        if p - 1 < s.drop_first().len() {
            assert(s.drop_first()[p - 1] == s[p]);
        }
        lemma_insert_by_path(s.drop_first(), x, p - 1);
        assert(!path_lt(entry_path(x), entry_path(s[0])));
        assert(seq![s[0]] + (s.drop_first().subrange(0, p - 1) + seq![x] + s.drop_first().subrange(
            p - 1,
            s.drop_first().len() as int,
        )) =~= s.subrange(0, p) + seq![x] + s.subrange(p, s.len() as int));
    }
}

/// `256` to the power `k`.
pub open spec fn pow256(k: nat) -> nat
    decreases k,
{
    if k == 0 {
        1
    } else {
        256 * pow256((k - 1) as nat)
    }
}

/// The number that little-endian bytes stand for.
pub open spec fn le_value(b: Seq<u8>) -> nat
    decreases b.len(),
{
    if b.len() == 0 {
        0
    } else {
        b[0] as nat + 256 * le_value(b.drop_first())
    }
}

/// `k` little-endian bytes give back any number below `256^k`.
proof fn lemma_le_bytes_value(n: nat, k: nat)
    requires
        n < pow256(k),
    ensures
        le_value(le_bytes(n, k)) == n,
        le_bytes(n, k).len() == k,
    decreases k,
{
    if k > 0 {
        let t = le_bytes(n / 256, (k - 1) as nat);
        assert(n / 256 < pow256((k - 1) as nat));
        lemma_le_bytes_value(n / 256, (k - 1) as nat);
        let b = le_bytes(n, k);
        assert(b.drop_first() =~= t);
        assert(b[0] as nat == n % 256);
    }
}

/// What one entry contributes, as bytes: its path text and its contents.
pub open spec fn entry_text(e: TreeEntry, sep: Seq<char>) -> (Seq<u8>, Option<Seq<u8>>) {
    (
        encode_utf8(join_with(entry_path(e), sep)),
        match e.contents {
            Some(c) => Some(c@),
            None => None,
        },
    )
}

/// The entry's path text and contents are shorter than `256^8` bytes, as
/// any in memory are.
pub open spec fn entry_fits(e: TreeEntry, sep: Seq<char>) -> bool {
    &&& entry_text(e, sep).0.len() < pow256(8)
    &&& (entry_text(e, sep).1 matches Some(c) ==> c.len() < pow256(8))
}

/// Framed bytes can be read back: equal frames followed by anything have
/// equal contents and equal continuations.
proof fn lemma_framed_prefix(a: Seq<u8>, b: Seq<u8>, ra: Seq<u8>, rb: Seq<u8>)
    requires
        a.len() < pow256(8),
        b.len() < pow256(8),
        framed(a) + ra == framed(b) + rb,
    ensures
        a == b,
        ra == rb,
{
    lemma_le_bytes_value(a.len(), 8);
    lemma_le_bytes_value(b.len(), 8);
    let x = framed(a) + ra;
    assert(x.subrange(0, 8) =~= le_bytes(a.len(), 8));
    assert((framed(b) + rb).subrange(0, 8) =~= le_bytes(b.len(), 8));
    assert(a.len() == b.len());
    assert(x.subrange(8, 8 + a.len() as int) =~= a);
    assert((framed(b) + rb).subrange(8, 8 + b.len() as int) =~= b);
    assert(x.subrange(8 + a.len() as int, x.len() as int) =~= ra);
    assert((framed(b) + rb).subrange(8 + b.len() as int, x.len() as int) =~= rb);
}

/// An entry's bytes can be read back from the front of a stream.
proof fn lemma_entry_prefix(e1: TreeEntry, e2: TreeEntry, sep: Seq<char>, r1: Seq<u8>, r2: Seq<u8>)
    requires
        entry_fits(e1, sep),
        entry_fits(e2, sep),
        entry_bytes(e1, sep) + r1 == entry_bytes(e2, sep) + r2,
    ensures
        entry_text(e1, sep) == entry_text(e2, sep),
        r1 == r2,
{
    let p1 = entry_text(e1, sep).0;
    let p2 = entry_text(e2, sep).0;
    let t1 = match e1.contents {
        Some(c) => seq![1u8] + framed(c@),
        None => seq![0u8],
    };
    let t2 = match e2.contents {
        Some(c) => seq![1u8] + framed(c@),
        None => seq![0u8],
    };
    assert(entry_bytes(e1, sep) + r1 =~= framed(p1) + (t1 + r1));
    assert(entry_bytes(e2, sep) + r2 =~= framed(p2) + (t2 + r2));
    lemma_framed_prefix(p1, p2, t1 + r1, t2 + r2);
    assert((t1 + r1)[0] == t1[0]);
    assert((t2 + r2)[0] == t2[0]);
    let y1 = (t1 + r1).drop_first();
    let y2 = (t2 + r2).drop_first();
    match e1.contents {
        Some(c1) => {
            let c2 = e2.contents.unwrap();
            assert(y1 =~= framed(c1@) + r1);
            assert(y2 =~= framed(c2@) + r2);
            lemma_framed_prefix(c1@, c2@, r1, r2);
        },
        None => {
            assert(y1 =~= r1);
            assert(y2 =~= r2);
        },
    }
}

/// The bytes of a list of entries, read from the front.
proof fn lemma_stream_front(s: Seq<TreeEntry>, sep: Seq<char>)
    requires
        s.len() > 0,
    ensures
        stream_of(s, sep) == entry_bytes(s[0], sep) + stream_of(s.drop_first(), sep),
    decreases s.len(),
{
    if s.len() == 1 {
        assert(s.drop_first() =~= Seq::<TreeEntry>::empty());
        assert(s.drop_last() =~= Seq::<TreeEntry>::empty());
        assert(stream_of(s, sep) =~= entry_bytes(s[0], sep) + stream_of(s.drop_first(), sep));
    } else {
        lemma_stream_front(s.drop_last(), sep);
        assert(s.drop_last().drop_first() =~= s.drop_first().drop_last());
        assert(s.drop_first().last() == s.last());
        assert(s.drop_last()[0] == s[0]);
        assert(stream_of(s, sep) =~= entry_bytes(s[0], sep) + stream_of(s.drop_first(), sep));
    }
}

/// Law: the bytes that a tree's hash reads keep its entries apart: two
/// lists of entries (of sizes that fit in memory) that give the same bytes
/// have the same number of entries, and entry by entry the same path text
/// and the same kind and contents. A file `a` holding `bc` and a file `ab`
/// holding `c` thus read different bytes.
pub proof fn law_stream_separates(a: Seq<TreeEntry>, b: Seq<TreeEntry>, sep: Seq<char>)
    requires
        forall|i: int| 0 <= i < a.len() ==> entry_fits(#[trigger] a[i], sep),
        forall|i: int| 0 <= i < b.len() ==> entry_fits(#[trigger] b[i], sep),
        stream_of(a, sep) == stream_of(b, sep),
    ensures
        a.len() == b.len(),
        forall|i: int| 0 <= i < a.len() ==> entry_text(#[trigger] a[i], sep) == entry_text(b[i], sep),
    decreases a.len(),
{
    if a.len() == 0 {
        if b.len() > 0 {
            lemma_stream_front(b, sep);
            assert(stream_of(b, sep).len() > 0);
        }
    } else {
        lemma_stream_front(a, sep);
        if b.len() == 0 {
            assert(stream_of(a, sep).len() > 0);
        } else {
            lemma_stream_front(b, sep);
            lemma_entry_prefix(a[0], b[0], sep, stream_of(a.drop_first(), sep), stream_of(b.drop_first(), sep));
            assert forall|i: int| 0 <= i < a.drop_first().len() implies entry_fits(#[trigger] a.drop_first()[i], sep) by {
                assert(a.drop_first()[i] == a[i + 1]);
            }
            assert forall|i: int| 0 <= i < b.drop_first().len() implies entry_fits(#[trigger] b.drop_first()[i], sep) by {
                assert(b.drop_first()[i] == b[i + 1]);
            }
            law_stream_separates(a.drop_first(), b.drop_first(), sep);
            assert forall|i: int| 0 <= i < a.len() implies entry_text(#[trigger] a[i], sep) == entry_text(b[i], sep) by {
                if i > 0 {
                    assert(a[i] == a.drop_first()[i - 1]);
                    assert(b[i] == b.drop_first()[i - 1]);
                }
            }
        }
    }
}

/// Path order never puts a path below itself.
pub proof fn lemma_path_lt_irreflexive(a: Seq<Seq<char>>)
    ensures
        !path_lt(a, a),
    decreases a.len(),
{
    if a.len() > 0 {
        lemma_path_lt_irreflexive(a.drop_first());
    }
}

/// Path order is transitive.
pub proof fn lemma_path_lt_transitive(a: Seq<Seq<char>>, b: Seq<Seq<char>>, c: Seq<Seq<char>>)
    requires
        path_lt(a, b),
        path_lt(b, c),
    ensures
        path_lt(a, c),
    decreases a.len(),
{
    if a.len() > 0 {
        if a[0] != b[0] && b[0] != c[0] {
            lemma_seq_lt_transitive(a[0], b[0], c[0]);
            if a[0] == c[0] {
                lemma_seq_lt_asymmetric(a[0], b[0]);
            }
        } else if a[0] == b[0] && b[0] == c[0] {
            lemma_path_lt_transitive(a.drop_first(), b.drop_first(), c.drop_first());
        }
    }
}

/// Of two different paths, one is below the other.
pub proof fn lemma_path_lt_total(a: Seq<Seq<char>>, b: Seq<Seq<char>>)
    ensures
        a == b || path_lt(a, b) || path_lt(b, a),
    decreases a.len(),
{
    if a.len() == 0 {
        if b.len() == 0 {
            assert(a =~= b);
        }
    } else if b.len() > 0 {
        if a[0] != b[0] {
            lemma_seq_lt_total(a[0], b[0]);
        } else {
            lemma_path_lt_total(a.drop_first(), b.drop_first());
            if a.drop_first() == b.drop_first() {
                assert forall|i: int| 0 <= i < a.len() implies a[i] == b[i] by {
                    if i > 0 {
                        assert(a[i] == a.drop_first()[i - 1]);
                        assert(b[i] == b.drop_first()[i - 1]);
                    }
                }
                assert(a =~= b);
            }
        }
    }
}

/// Entries strictly increasing in path order.
pub open spec fn path_sorted(s: Seq<TreeEntry>) -> bool {
    forall|i: int, j: int|
        0 <= i < j < s.len() ==> path_lt(entry_path(#[trigger] s[i]), entry_path(#[trigger] s[j]))
}

/// No two entries of a listing share a path, as in a listing of one
/// directory tree.
pub open spec fn distinct_paths(s: Seq<TreeEntry>) -> bool {
    forall|i: int, j: int|
        0 <= i < j < s.len() ==> entry_path(#[trigger] s[i]) != entry_path(#[trigger] s[j])
}

/// `insert_by_path` inserts `x` at some position.
proof fn lemma_insert_by_path_is_insert(s: Seq<TreeEntry>, x: TreeEntry)
    ensures
        exists|p: int| 0 <= p <= s.len() && insert_by_path(s, x) == s.insert(p, x),
    decreases s.len(),
{
    if s.len() == 0 {
        assert(insert_by_path(s, x) =~= s.insert(0, x));
    } else if path_lt(entry_path(x), entry_path(s[0])) {
        assert(insert_by_path(s, x) =~= s.insert(0, x));
    } else {
        lemma_insert_by_path_is_insert(s.drop_first(), x);
        let q = choose|q: int|
            0 <= q <= s.drop_first().len() && insert_by_path(s.drop_first(), x) == s.drop_first().insert(
                q,
                x,
            );
        assert(insert_by_path(s, x) =~= s.insert(q + 1, x));
    }
}

/// Sorting keeps the entries, each as often as it came.
proof fn lemma_sort_by_path_multiset(s: Seq<TreeEntry>)
    ensures
        sort_by_path(s).to_multiset() == s.to_multiset(),
    decreases s.len(),
{
    broadcast use vstd::seq_lib::group_to_multiset_ensures;

    if s.len() > 0 {
        lemma_sort_by_path_multiset(s.drop_last());
        lemma_insert_by_path_is_insert(sort_by_path(s.drop_last()), s.last());
        assert(s.drop_last().push(s.last()) =~= s);
    }
}

/// Every entry that `insert_by_path` yields is above any path that is below
/// both `x` and all of `s`.
proof fn lemma_insert_by_path_above(s: Seq<TreeEntry>, x: TreeEntry, y: Seq<Seq<char>>)
    requires
        path_lt(y, entry_path(x)),
        forall|j: int| 0 <= j < s.len() ==> path_lt(y, entry_path(#[trigger] s[j])),
    ensures
        forall|k: int|
            0 <= k < insert_by_path(s, x).len() ==> path_lt(y, entry_path(#[trigger] insert_by_path(s, x)[k])),
    decreases s.len(),
{
    if s.len() > 0 && !path_lt(entry_path(x), entry_path(s[0])) {
        assert forall|j: int| 0 <= j < s.drop_first().len() implies path_lt(
            y,
            entry_path(#[trigger] s.drop_first()[j]),
        ) by {
            assert(s.drop_first()[j] == s[j + 1]);
        }
        lemma_insert_by_path_above(s.drop_first(), x, y);
        let r = insert_by_path(s, x);
        let t = insert_by_path(s.drop_first(), x);
        assert forall|k: int| 0 <= k < r.len() implies path_lt(y, entry_path(#[trigger] r[k])) by {
            if k > 0 {
                assert(r[k] == t[k - 1]);
            }
        }
    }
}

/// Inserting an entry with a new path into a sorted list keeps it sorted.
proof fn lemma_insert_by_path_sorted(s: Seq<TreeEntry>, x: TreeEntry)
    requires
        path_sorted(s),
        forall|j: int| 0 <= j < s.len() ==> entry_path(#[trigger] s[j]) != entry_path(x),
    ensures
        path_sorted(insert_by_path(s, x)),
    decreases s.len(),
{
    let r = insert_by_path(s, x);
    if s.len() == 0 {
    } else if path_lt(entry_path(x), entry_path(s[0])) {
        assert forall|i: int, j: int| 0 <= i < j < r.len() implies path_lt(
            entry_path(#[trigger] r[i]),
            entry_path(#[trigger] r[j]),
        ) by {
            assert(r[j] == s[j - 1]);
            if i > 0 {
                assert(r[i] == s[i - 1]);
            } else if j > 1 {
                lemma_path_lt_transitive(entry_path(x), entry_path(s[0]), entry_path(s[j - 1]));
            }
        }
    } else {
        let rest = s.drop_first();
        assert(entry_path(s[0]) != entry_path(x));
        lemma_path_lt_total(entry_path(s[0]), entry_path(x));
        assert forall|i: int, j: int| 0 <= i < j < rest.len() implies path_lt(
            entry_path(#[trigger] rest[i]),
            entry_path(#[trigger] rest[j]),
        ) by {
            assert(rest[i] == s[i + 1] && rest[j] == s[j + 1]);
        }
        assert forall|j: int| 0 <= j < rest.len() implies entry_path(#[trigger] rest[j]) != entry_path(x) by {
            assert(rest[j] == s[j + 1]);
        }
        assert forall|j: int| 0 <= j < rest.len() implies path_lt(
            entry_path(s[0]),
            entry_path(#[trigger] rest[j]),
        ) by {
            assert(rest[j] == s[j + 1]);
        }
        lemma_insert_by_path_sorted(rest, x);
        lemma_insert_by_path_above(rest, x, entry_path(s[0]));
        let t = insert_by_path(rest, x);
        assert forall|i: int, j: int| 0 <= i < j < r.len() implies path_lt(
            entry_path(#[trigger] r[i]),
            entry_path(#[trigger] r[j]),
        ) by {
            assert(r[j] == t[j - 1]);
            if i > 0 {
                assert(r[i] == t[i - 1]);
            }
        }
    }
}

/// A listing with distinct paths sorts into strictly increasing order.
proof fn lemma_sort_by_path_sorted(s: Seq<TreeEntry>)
    requires
        distinct_paths(s),
    ensures
        path_sorted(sort_by_path(s)),
    decreases s.len(),
{
    broadcast use vstd::seq_lib::group_to_multiset_ensures;

    if s.len() > 0 {
        let d = s.drop_last();
        assert forall|i: int, j: int| 0 <= i < j < d.len() implies entry_path(#[trigger] d[i]) != entry_path(
            #[trigger] d[j],
        ) by {
            assert(d[i] == s[i] && d[j] == s[j]);
        }
        lemma_sort_by_path_sorted(d);
        lemma_sort_by_path_multiset(d);
        let t = sort_by_path(d);
        assert forall|j: int| 0 <= j < t.len() implies entry_path(#[trigger] t[j]) != entry_path(s.last()) by {
            assert(t.contains(t[j]));
            assert(t.to_multiset().count(t[j]) > 0);
            assert(d.contains(t[j]));
            let i = choose|i: int| 0 <= i < d.len() && d[i] == t[j];
            assert(s[i] == t[j]);
        }
        lemma_insert_by_path_sorted(t, s.last());
    }
}

/// Two strictly sorted lists with the same entries are the same list.
proof fn lemma_sorted_unique(a: Seq<TreeEntry>, b: Seq<TreeEntry>)
    requires
        path_sorted(a),
        path_sorted(b),
        a.to_multiset() == b.to_multiset(),
    ensures
        a == b,
    decreases a.len(),
{
    broadcast use vstd::seq_lib::group_to_multiset_ensures;

    if a.len() == 0 {
        assert(b.to_multiset().len() == 0);
        assert(a =~= b);
    } else {
        assert(a.to_multiset().len() == a.len());
        assert(b.to_multiset().len() == b.len());
        assert(a.contains(a[0]));
        assert(a.to_multiset().count(a[0]) > 0);
        assert(b.contains(a[0]));
        let k = choose|k: int| 0 <= k < b.len() && b[k] == a[0];
        assert(b.contains(b[0]));
        assert(b.to_multiset().count(b[0]) > 0);
        assert(a.contains(b[0]));
        let m = choose|m: int| 0 <= m < a.len() && a[m] == b[0];
        if k > 0 {
            assert(path_lt(entry_path(b[0]), entry_path(b[k])));
            if m > 0 {
                assert(path_lt(entry_path(a[0]), entry_path(a[m])));
                lemma_path_lt_transitive(entry_path(a[0]), entry_path(b[0]), entry_path(a[0]));
                lemma_path_lt_irreflexive(entry_path(a[0]));
            } else {
                lemma_path_lt_irreflexive(entry_path(b[0]));
            }
        }
        assert(a[0] == b[0]);
        assert(a.remove(0) =~= a.drop_first());
        assert(b.remove(0) =~= b.drop_first());
        let a1 = a.drop_first();
        let b1 = b.drop_first();
        assert forall|i: int, j: int| 0 <= i < j < a1.len() implies path_lt(
            entry_path(#[trigger] a1[i]),
            entry_path(#[trigger] a1[j]),
        ) by {
            assert(a1[i] == a[i + 1] && a1[j] == a[j + 1]);
        }
        assert forall|i: int, j: int| 0 <= i < j < b1.len() implies path_lt(
            entry_path(#[trigger] b1[i]),
            entry_path(#[trigger] b1[j]),
        ) by {
            assert(b1[i] == b[i + 1] && b1[j] == b[j + 1]);
        }
        lemma_sorted_unique(a1, b1);
        assert forall|i: int| 0 <= i < a.len() implies a[i] == b[i] by {
            if i > 0 {
                assert(a[i] == a1[i - 1] && b[i] == b1[i - 1]);
            }
        }
        assert(a =~= b);
    }
}

/// Law: the hash of a directory tree does not depend on the order in
/// which its entries were listed: two listings of the same entries, each
/// with distinct paths, read the same bytes and so hash alike.
pub proof fn law_tree_hash_order_free(a: Seq<TreeEntry>, b: Seq<TreeEntry>, sep: Seq<char>)
    requires
        a.to_multiset() == b.to_multiset(),
        distinct_paths(a),
        distinct_paths(b),
    ensures
        tree_stream(a, sep) == tree_stream(b, sep),
        hex_lower(spec_sha256(tree_stream(a, sep))) == hex_lower(spec_sha256(tree_stream(b, sep))),
{
    lemma_sort_by_path_sorted(a);
    lemma_sort_by_path_sorted(b);
    lemma_sort_by_path_multiset(a);
    lemma_sort_by_path_multiset(b);
    lemma_sorted_unique(sort_by_path(a), sort_by_path(b));
}

/// Whether path `a` is below path `b` in path order.
fn path_lt_exec(a: &Vec<String>, b: &Vec<String>) -> (r: bool)
    ensures
        r == path_lt(a@.map_values(|c: String| c@), b@.map_values(|c: String| c@)),
{
    let ghost av = a@.map_values(|c: String| c@);
    let ghost bv = b@.map_values(|c: String| c@);
    let mut i: usize = 0;
    assert(av.subrange(0, av.len() as int) =~= av);
    assert(bv.subrange(0, bv.len() as int) =~= bv);
    while i < a.len() && i < b.len()
        invariant
            i <= a@.len(),
            i <= b@.len(),
            av == a@.map_values(|c: String| c@),
            bv == b@.map_values(|c: String| c@),
            path_lt(av, bv) == path_lt(
                av.subrange(i as int, av.len() as int),
                bv.subrange(i as int, bv.len() as int),
            ),
        decreases a.len() - i,
    {
        let ghost x = av.subrange(i as int, av.len() as int);
        let ghost y = bv.subrange(i as int, bv.len() as int);
        assert(x[0] == a@[i as int]@);
        assert(y[0] == b@[i as int]@);
        let ca = chars_of(a[i].as_str());
        let cb = chars_of(b[i].as_str());
        if a[i] != b[i] {
            return chars_lt(ca.as_slice(), cb.as_slice());
        }
        assert(x.drop_first() =~= av.subrange(i + 1, av.len() as int));
        assert(y.drop_first() =~= bv.subrange(i + 1, bv.len() as int));
        i += 1;
    }
    i < b.len() && i == a.len()
}

/// The entries in path order.
pub fn sort_entries(entries: Vec<TreeEntry>) -> (r: Vec<TreeEntry>)
    ensures
        r@ == sort_by_path(entries@),
{
    let ghost all = entries@;
    let total = entries.len();
    assert(all.len() == total);
    let mut rest = entries;
    let mut sorted: Vec<TreeEntry> = Vec::new();
    let mut n: usize = 0;
    while rest.len() > 0
        invariant
            all.len() <= usize::MAX,
            n + rest@.len() == all.len(),
            rest@ == all.subrange(n as int, all.len() as int),
            sorted@ == sort_by_path(all.subrange(0, n as int)),
        decreases rest.len(),
    {
        let x = rest.remove(0);
        let mut p: usize = 0;
        while p < sorted.len() && !path_lt_exec(&x.path, &sorted[p].path)
            invariant
                p <= sorted@.len(),
                forall|j: int| 0 <= j < p ==> !path_lt(entry_path(x), entry_path(#[trigger] sorted@[j])),
            decreases sorted.len() - p,
        {
            p += 1;
        }
        proof {
            lemma_insert_by_path(sorted@, x, p as int);
            let s = all.subrange(0, n + 1);
            assert(s.drop_last() =~= all.subrange(0, n as int));
            assert(s.last() == x);
        }
        sorted.insert(p, x);
        assert(sorted@ =~= sort_by_path(all.subrange(0, n + 1)));
        n += 1;
    }
    assert(all.subrange(0, n as int) =~= all);
    sorted
}

/// Appends the bytes of `t` to `v`.
fn append_bytes(v: &mut Vec<u8>, t: &[u8])
    ensures
        final(v)@ == old(v)@ + t@,
{
    let mut i: usize = 0;
    while i < t.len()
        invariant
            i <= t@.len(),
            v@ == old(v)@ + t@.subrange(0, i as int),
        decreases t.len() - i,
    {
        v.push(t[i]);
        i += 1;
        assert(v@ =~= old(v)@ + t@.subrange(0, i as int));
    }
    assert(t@.subrange(0, t@.len() as int) =~= t@);
}

/// The `k` low bytes of `n`, least significant first.
fn le_bytes_exec(n: u64, k: usize) -> (r: Vec<u8>)
    ensures
        r@ == le_bytes(n as nat, k as nat),
    decreases k,
{
    if k == 0 {
        Vec::new()
    } else {
        let mut v: Vec<u8> = Vec::new();
        v.push((n % 256) as u8);
        let rest = le_bytes_exec(n / 256, k - 1);
        append_bytes(&mut v, rest.as_slice());
        assert(v@ =~= seq![(n as nat % 256) as u8] + le_bytes(n as nat / 256, (k - 1) as nat));
        v
    }
}

/// Appends `t` framed by its length to `v`.
fn append_framed(v: &mut Vec<u8>, t: &[u8])
    ensures
        final(v)@ == old(v)@ + framed(t@),
{
    let len = le_bytes_exec(t.len() as u64, 8);
    append_bytes(v, len.as_slice());
    append_bytes(v, t);
    assert((t.len() as u64) as nat == t@.len());
    assert(v@ =~= old(v)@ + framed(t@));
}

/// The bytes that hashing a directory tree reads.
pub fn directory_stream(entries: Vec<TreeEntry>, sep: &str) -> (r: Vec<u8>)
    ensures
        r@ == tree_stream(entries@, sep@),
{
    let ghost orig = entries@;
    let sorted = sort_entries(entries);
    let sepc = chars_of(sep);
    let mut out: Vec<u8> = Vec::new();
    let mut i: usize = 0;
    while i < sorted.len()
        invariant
            i <= sorted@.len(),
            sorted@ == sort_by_path(orig),
            sepc@ == sep@,
            out@ == stream_of(sorted@.subrange(0, i as int), sep@),
        decreases sorted.len() - i,
    {
        let e = &sorted[i];
        let mut parts: Vec<Vec<char>> = Vec::new();
        let mut k: usize = 0;
        while k < e.path.len()
            invariant
                k <= e.path@.len(),
                parts@.len() == k,
                forall|j: int| 0 <= j < k ==> #[trigger] parts@[j]@ == e.path@[j]@,
            decreases e.path.len() - k,
        {
            parts.push(chars_of(e.path[k].as_str()));
            k += 1;
        }
        assert(views(parts@) =~= entry_path(*e));
        let joined = string_from(join_exec(&parts, sepc.as_slice()).as_slice());
        let ghost before = out@;
        append_framed(&mut out, joined.as_str().as_bytes());
        match &e.contents {
            Some(c) => {
                out.push(1u8);
                append_framed(&mut out, c.as_slice());
            },
            None => {
                out.push(0u8);
            },
        }
        proof {
            let s = sorted@.subrange(0, i + 1);
            assert(s.drop_last() =~= sorted@.subrange(0, i as int));
            assert(s.last() == *e);
            assert(out@ =~= before + entry_bytes(*e, sep@));
        }
        i += 1;
    }
    assert(sorted@.subrange(0, i as int) =~= sorted@);
    out
}

/// Hashes a directory tree deterministically: SHA-256 over each entry's
/// framed relative path (components joined by `sep`) and kind, followed by
/// a file's framed contents, entries taken in path order, as lowercase hex.
pub fn hash_directory(entries: Vec<TreeEntry>, sep: &str) -> (r: String)
    ensures
        r@ == hex_lower(spec_sha256(tree_stream(entries@, sep@))),
        r@.len() == 64,
{
    let s = directory_stream(entries, sep);
    compute_sha256(s.as_slice())
}

} // verus!
