use ghostfs::fspath::FsPath;
use ghostfs::hash::{compute_sha256, directory_stream, hash_directory, TreeEntry};
use ghostfs::store::{is_shard_dir_name, short_hash, total_size, ContentStore, StoredPackage};

fn p(parts: &[&str]) -> FsPath {
    FsPath::from_components(parts.iter().map(|s| s.to_string()).collect())
}

fn stored(name: &str, size: u64) -> StoredPackage {
    StoredPackage {
        name: name.to_string(),
        version: "1.0.0".to_string(),
        hash: "00".to_string(),
        size,
        installed_at: "2026-05-19T22:00:00Z".to_string(),
    }
}

#[test]
fn sha256_known_vectors() {
    assert_eq!(
        compute_sha256(b""),
        "e3b0c44298fc1c149afbf4c8996fb92427ae41e4649b934ca495991b7852b855"
    );
    assert_eq!(
        compute_sha256(b"abc"),
        "ba7816bf8f01cfea414140de5dae2223b00361a396177a9cb410ff61f20015ad"
    );
}

fn file(path: &[&str], contents: &[u8]) -> TreeEntry {
    TreeEntry { path: path.iter().map(|s| s.to_string()).collect(), contents: Some(contents.to_vec()) }
}

fn dir(path: &[&str]) -> TreeEntry {
    TreeEntry { path: path.iter().map(|s| s.to_string()).collect(), contents: None }
}

fn framed(b: &[u8]) -> Vec<u8> {
    let mut v = (b.len() as u64).to_le_bytes().to_vec();
    v.extend_from_slice(b);
    v
}

fn file_bytes(path: &str, contents: &[u8]) -> Vec<u8> {
    let mut v = framed(path.as_bytes());
    v.push(1);
    v.extend(framed(contents));
    v
}

fn dir_bytes(path: &str) -> Vec<u8> {
    let mut v = framed(path.as_bytes());
    v.push(0);
    v
}

#[test]
fn directory_stream_visits_entries_in_path_order() {
    let entries = vec![
        file(&["lib", "x.js"], b"X"),
        file(&["b.js"], b"B"),
        dir(&["lib"]),
        file(&["a.js"], b"A"),
        file(&["lib", "a.js"], b"LA"),
    ];
    let s = directory_stream(entries, "/");
    let expected: Vec<u8> = [
        file_bytes("a.js", b"A"),
        file_bytes("b.js", b"B"),
        dir_bytes("lib"),
        file_bytes("lib/a.js", b"LA"),
        file_bytes("lib/x.js", b"X"),
    ]
    .concat();
    assert_eq!(s, expected);
}

#[test]
fn hash_directory_is_sha256_of_stream() {
    let entries = vec![file(&["index.js"], b"console.log('hello');")];
    assert_eq!(
        hash_directory(entries, "/"),
        compute_sha256(&file_bytes("index.js", b"console.log('hello');"))
    );
    let reordered = vec![file(&["b"], b"2"), file(&["a"], b"1")];
    let ordered = vec![file(&["a"], b"1"), file(&["b"], b"2")];
    assert_eq!(hash_directory(reordered, "/"), hash_directory(ordered, "/"));
}

#[test]
fn package_path_uses_two_byte_shard() {
    let store = ContentStore::with_path(p(&["/", "home", "u", ".ghostfs", "store"]));
    let path = store.package_path("abcdef0123");
    assert_eq!(path.components, vec!["/", "home", "u", ".ghostfs", "store", "ab", "abcdef0123"]);
    let short = store.package_path("a");
    assert_eq!(short.components, vec!["/", "home", "u", ".ghostfs", "store", "a", "a"]);
    assert_eq!(
        store.db_path().components,
        vec!["/", "home", "u", ".ghostfs", "store", "ghostfs.db"]
    );
    assert_eq!(store.root().components.len(), 5);
}

#[test]
fn default_store_path_is_under_home() {
    let home = p(&["/", "home", "u"]);
    assert_eq!(
        ContentStore::default_store_path(&home).components,
        vec!["/", "home", "u", ".ghostfs", "store"]
    );
}

#[test]
fn short_hash_and_shards() {
    assert_eq!(short_hash("0123456789abcdef"), "0123456789ab");
    assert_eq!(short_hash("abc"), "abc");
    assert!(is_shard_dir_name("ab"));
    assert!(!is_shard_dir_name("abc"));
    assert!(!is_shard_dir_name("a"));
}

#[test]
fn total_size_sums_sizes() {
    assert_eq!(total_size(&vec![]), 0);
    assert_eq!(total_size(&vec![stored("a", 1024), stored("b", 10), stored("c", 0)]), 1034);
}

#[test]
fn tree_hash_ignores_listing_order() {
    let one = vec![
        dir(&["lib"]),
        file(&["lib", "x.js"], b"X"),
        file(&["a.js"], b"A"),
        file(&["lib-b.js"], b"LB"),
    ];
    let two = vec![
        file(&["lib-b.js"], b"LB"),
        file(&["a.js"], b"A"),
        file(&["lib", "x.js"], b"X"),
        dir(&["lib"]),
    ];
    let expected: Vec<u8> = [
        file_bytes("a.js", b"A"),
        dir_bytes("lib"),
        file_bytes("lib/x.js", b"X"),
        file_bytes("lib-b.js", b"LB"),
    ]
    .concat();
    assert_eq!(directory_stream(one, "/"), expected);
    let three = vec![
        file(&["lib", "x.js"], b"X"),
        dir(&["lib"]),
        file(&["lib-b.js"], b"LB"),
        file(&["a.js"], b"A"),
    ];
    assert_eq!(hash_directory(two, "/"), hash_directory(three, "/"));
}

#[test]
fn tree_hash_keeps_paths_and_contents_apart() {
    let d1 = vec![file(&["a"], b"bc")];
    let d2 = vec![file(&["ab"], b"c")];
    assert_ne!(hash_directory(d1, "/"), hash_directory(d2, "/"));
    let empty_file = vec![file(&["x"], b"")];
    let empty_dir = vec![dir(&["x"])];
    assert_ne!(hash_directory(empty_file, "/"), hash_directory(empty_dir, "/"));
    assert_eq!(hash_directory(vec![], "/").len(), 64);
}
