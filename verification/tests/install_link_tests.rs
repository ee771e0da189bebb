use ghostfs::fspath::FsPath;
use ghostfs::installer::{
    choose_source_dir, extracted_package_dir, install_plan, install_roots, locked_entry, InstallTally, PackageSource,
    SourceDir,
};
use ghostfs::linker::{
    link_target, marker_path, missing_package_message, node_modules_dir, package_lock_entries,
    package_lock_path, link_result, unlink_action, LinkTally, UnlinkAction,
};
use ghostfs::lockfile::{LockedPackage, Lockfile};
use ghostfs::resolver::ResolvedPackage;
use ghostfs::strmap::StrMap;

fn p(parts: &[&str]) -> FsPath {
    FsPath::from_components(parts.iter().map(|s| s.to_string()).collect())
}

fn resolved(name: &str) -> ResolvedPackage {
    let mut deps = StrMap::new();
    deps.insert("dep".to_string(), "^1.0.0".to_string());
    ResolvedPackage {
        name: name.to_string(),
        version: "2.0.0".to_string(),
        tarball: format!("https://example.com/{}.tgz", name),
        shasum: "abc".to_string(),
        integrity: Some("sha512-x".to_string()),
        dependencies: deps,
    }
}

#[test]
fn tally_counts_and_locks_packages() {
    let mut t = InstallTally::new();
    t.note_cached(&resolved("a"), Some("hash-a".to_string()));
    t.note_cached(&resolved("b"), None);
    t.note_installed(&resolved("c"), "hash-c".to_string());
    let r = t.result(3);
    assert_eq!(r.total, 3);
    assert_eq!(r.installed, 1);
    assert_eq!(r.cached, 2);
    assert_eq!(t.lockfile.packages.len(), 2);
    let a = t.lockfile.get_package("a").unwrap();
    assert_eq!(a.hash, "hash-a");
    assert_eq!(a.version, "2.0.0");
    assert_eq!(a.tarball, "https://example.com/a.tgz");
    assert_eq!(a.integrity.as_deref(), Some("sha512-x"));
    assert_eq!(a.dependencies.get("dep").unwrap(), "^1.0.0");
    assert!(t.lockfile.get_package("b").is_none());
    assert_eq!(t.lockfile.get_package("c").unwrap().hash, "hash-c");
}

#[test]
fn locked_entry_copies_package() {
    let e = locked_entry(&resolved("x"), "h".to_string());
    assert_eq!(e.version, "2.0.0");
    assert_eq!(e.hash, "h");
}

#[test]
fn source_dir_choice() {
    assert!(matches!(choose_source_dir(true, Some(false)), SourceDir::PackageDir));
    assert!(matches!(choose_source_dir(false, Some(true)), SourceDir::FirstEntry));
    assert!(matches!(choose_source_dir(false, Some(false)), SourceDir::ExtractRoot));
    assert!(matches!(choose_source_dir(false, None), SourceDir::ExtractRoot));
    assert_eq!(extracted_package_dir(&p(&["/", "tmp", "x"])).components, vec!["/", "tmp", "x", "package"]);
}

#[test]
fn link_targets_for_scoped_and_plain_names() {
    let nm = node_modules_dir(&p(&["/", "proj"]));
    assert_eq!(nm.components, vec!["/", "proj", "node_modules"]);
    let (scope, target) = link_target(&nm, "@scope/pkg");
    assert_eq!(scope.unwrap().components, vec!["/", "proj", "node_modules", "@scope"]);
    assert_eq!(target.components, vec!["/", "proj", "node_modules", "@scope", "pkg"]);
    let (scope, target) = link_target(&nm, "react");
    assert!(scope.is_none());
    assert_eq!(target.components, vec!["/", "proj", "node_modules", "react"]);
    let (scope, target) = link_target(&nm, "@lonely");
    assert!(scope.is_none());
    assert_eq!(target.components, vec!["/", "proj", "node_modules", "@lonely"]);
    let (_, target) = link_target(&nm, "@a/b/c");
    assert_eq!(target.components, vec!["/", "proj", "node_modules", "@a", "b/c"]);
    assert_eq!(marker_path(&nm).components, vec!["/", "proj", "node_modules", ".ghostfs"]);
    assert_eq!(
        package_lock_path(&nm).components,
        vec!["/", "proj", "node_modules", ".package-lock.json"]
    );
}

#[test]
fn missing_package_report() {
    assert_eq!(
        missing_package_message("react", "19.0.0", "0123456789abcdef"),
        "react @ 19.0.0 not found in store (hash: 0123456789ab)"
    );
    let mut t = LinkTally::new();
    t.note_linked();
    let pkg = LockedPackage {
        version: "1.0.0".to_string(),
        hash: "ffffffffffffffff".to_string(),
        tarball: "t".to_string(),
        integrity: None,
        dependencies: StrMap::new(),
    };
    t.note_missing("gone", &pkg);
    let r = t.result();
    assert_eq!(r.linked, 1);
    assert_eq!(r.errors, vec!["gone @ 1.0.0 not found in store (hash: ffffffffffff)".to_string()]);
}

#[test]
fn package_lock_entries_follow_lockfile() {
    let mut l = Lockfile::new();
    l.add_package(
        "zed",
        LockedPackage {
            version: "1.0.0".to_string(),
            hash: "h1".to_string(),
            tarball: "https://t/zed.tgz".to_string(),
            integrity: None,
            dependencies: StrMap::new(),
        },
    );
    l.add_package(
        "@s/a",
        LockedPackage {
            version: "2.0.0".to_string(),
            hash: "h2".to_string(),
            tarball: "https://t/a.tgz".to_string(),
            integrity: Some("sha512-a".to_string()),
            dependencies: StrMap::new(),
        },
    );
    let e = package_lock_entries(&l);
    assert_eq!(e.len(), 2);
    assert_eq!(e[0].key, "node_modules/@s/a");
    assert_eq!(e[0].version, "2.0.0");
    assert_eq!(e[0].resolved, "https://t/a.tgz");
    assert_eq!(e[0].integrity.as_deref(), Some("sha512-a"));
    assert_eq!(e[1].key, "node_modules/zed");
    assert!(e[1].integrity.is_none());
}

#[test]
fn unlink_decisions() {
    assert!(matches!(unlink_action(false, false), UnlinkAction::Nothing));
    assert!(matches!(unlink_action(true, true), UnlinkAction::Remove));
    assert!(matches!(unlink_action(true, false), UnlinkAction::RefuseUnmanaged));
}

#[test]
fn install_plan_counts_every_package_and_locks_each_once() {
    let pkgs = vec![resolved("a"), resolved("b"), resolved("c"), resolved("d")];
    let sources = vec![
        PackageSource::Cached(Some("hash-a".to_string())),
        PackageSource::Downloaded("hash-b".to_string()),
        PackageSource::Cached(None),
        PackageSource::Downloaded("hash-d".to_string()),
    ];
    let (r, lock) = install_plan(&pkgs, &sources);
    assert_eq!(r.total, 4);
    assert_eq!(r.installed, 2);
    assert_eq!(r.cached, 2);
    assert_eq!(lock.lockfile_version, 1);
    assert_eq!(lock.packages.len(), 3);
    assert_eq!(lock.get_package("a").unwrap().hash, "hash-a");
    assert_eq!(lock.get_package("b").unwrap().hash, "hash-b");
    assert!(lock.get_package("c").is_none());
    assert_eq!(lock.get_package("d").unwrap().tarball, "https://example.com/d.tgz");
    let (empty, none) = install_plan(&vec![], &vec![]);
    assert_eq!((empty.total, empty.installed, empty.cached), (0, 0, 0));
    assert!(none.packages.is_empty());
}

#[test]
fn link_result_counts_linked_and_missing() {
    let mut lock = Lockfile::new();
    for (name, hash) in [("a", "0123456789abcdef"), ("b", "fedcba9876543210"), ("c", "00112233445566")] {
        lock.add_package(
            name,
            LockedPackage {
                version: "1.0.0".to_string(),
                hash: hash.to_string(),
                tarball: String::new(),
                integrity: None,
                dependencies: StrMap::new(),
            },
        );
    }
    let r = link_result(&lock, &vec![true, false, true]);
    assert_eq!(r.linked, 2);
    assert_eq!(r.errors, vec!["b @ 1.0.0 not found in store (hash: fedcba987654)".to_string()]);
    let none = link_result(&lock, &vec![false, false, false]);
    assert_eq!(none.linked, 0);
    assert_eq!(none.errors.len(), 3);
}

#[test]
fn install_roots_take_dependencies_and_dev_dependencies() {
    let mut m = ghostfs::manifest::Manifest::new("app");
    m.add_dependency("react", "^19.0.0");
    m.add_dependency("shared", "^1.0.0");
    m.dev_dependencies.insert("typescript".to_string(), "^5.0.0".to_string());
    m.dev_dependencies.insert("shared".to_string(), "^2.0.0".to_string());
    let roots = install_roots(&m);
    assert_eq!(roots.len(), 3);
    assert_eq!(roots.get("react").unwrap(), "^19.0.0");
    assert_eq!(roots.get("typescript").unwrap(), "^5.0.0");
    assert_eq!(roots.get("shared").unwrap(), "^1.0.0");
}
