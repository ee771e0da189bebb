use ghostfs::registry::{
    encode_package_name, metadata_url, DistInfo, PackageMetadata, VersionMetadata,
    DEFAULT_REGISTRY_URL,
};
use ghostfs::resolver::{resolve_best_version, ResolveError, ResolveState};
use ghostfs::strmap::StrMap;

fn version(name: &str, v: &str, deps: &[(&str, &str)]) -> VersionMetadata {
    let dependencies = if deps.is_empty() {
        None
    } else {
        let mut m = StrMap::new();
        for (k, r) in deps {
            m.insert(k.to_string(), r.to_string());
        }
        Some(m)
    };
    VersionMetadata {
        name: name.to_string(),
        version: v.to_string(),
        description: None,
        dependencies,
        dev_dependencies: None,
        peer_dependencies: None,
        dist: DistInfo {
            tarball: format!("https://example.com/{}-{}.tgz", name, v),
            shasum: format!("sha-{}-{}", name, v),
            integrity: Some(format!("sha512-{}-{}", name, v)),
        },
    }
}

fn meta(name: &str, versions: &[(&str, &[(&str, &str)])], latest: Option<&str>) -> PackageMetadata {
    let mut vs = StrMap::new();
    for (v, deps) in versions {
        vs.insert(v.to_string(), version(name, v, deps));
    }
    let mut tags = StrMap::new();
    if let Some(l) = latest {
        tags.insert("latest".to_string(), l.to_string());
    }
    PackageMetadata { name: name.to_string(), description: None, dist_tags: tags, versions: vs }
}

fn sample() -> PackageMetadata {
    meta(
        "lib",
        &[("1.0.0", &[]), ("1.2.0", &[]), ("2.0.0", &[]), ("1.5.0-beta.1", &[])],
        Some("1.0.0"),
    )
}

fn best(m: &PackageMetadata, r: &str) -> String {
    match resolve_best_version(m, r) {
        Ok(v) => v,
        Err(_) => panic!("no version for {}", r),
    }
}

#[test]
fn best_version_caret_skips_prerelease() {
    assert_eq!(best(&sample(), "^1.0.0"), "1.2.0");
}

#[test]
fn best_version_hyphen_range() {
    assert_eq!(best(&sample(), "1.0.0 - 1.2.0"), "1.2.0");
    assert_eq!(best(&sample(), "1.0.0 - 1.1.0"), "1.0.0");
}

#[test]
fn best_version_spaced_operators() {
    assert_eq!(best(&sample(), ">= 1.1.0 < 2.0.0"), "1.2.0");
    assert_eq!(best(&sample(), "  ~1.2.0  "), "1.2.0");
}

#[test]
fn best_version_v_prefix() {
    assert_eq!(best(&sample(), "v1.0.0"), "1.0.0");
    assert_eq!(best(&sample(), "=v1.0.0"), "1.0.0");
    assert_eq!(best(&sample(), ">=v2.0.0"), "2.0.0");
}

#[test]
fn best_version_bare_version_is_exact() {
    let m = meta("p", &[("1.2.0", &[]), ("1.3.0", &[])], Some("1.3.0"));
    assert_eq!(best(&m, "1.2.0"), "1.2.0");
    assert_eq!(best(&sample(), "1.0.0"), "1.0.0");
    assert_eq!(best(&sample(), "1"), "1.2.0");
    assert_eq!(best(&sample(), "1.0"), "1.0.0");
    assert_eq!(best(&sample(), "1.x"), "1.2.0");
    assert_eq!(best(&sample(), "1.0.0 || 2.0.0"), "2.0.0");
}

#[test]
fn best_version_alternatives() {
    assert_eq!(best(&sample(), "^1.0.0 || ^2.0.0"), "2.0.0");
    assert_eq!(best(&sample(), "garbage || ^1.0.0"), "1.2.0");
}

#[test]
fn best_version_latest_tag() {
    assert_eq!(best(&sample(), "latest"), "1.0.0");
    assert_eq!(best(&sample(), "*"), "1.0.0");
    assert_eq!(best(&sample(), ""), "1.0.0");
    let untagged = meta("lib", &[("1.0.0", &[]), ("2.0.0", &[])], None);
    assert_eq!(best(&untagged, "*"), "2.0.0");
}

#[test]
fn best_version_errors() {
    match resolve_best_version(&sample(), "not-a-range") {
        Err(ResolveError::InvalidRequirement { requirement, package }) => {
            assert_eq!(requirement, "not-a-range");
            assert_eq!(package, "lib");
        }
        _ => panic!("expected an invalid requirement"),
    }
    match resolve_best_version(&sample(), " ^9.0.0 ") {
        Err(ResolveError::NoMatchingVersion { package, requirement }) => {
            assert_eq!(package, "lib");
            assert_eq!(requirement, "^9.0.0");
        }
        _ => panic!("expected no matching version"),
    }
    let untagged = meta("lib", &[("1.0.0", &[])], None);
    match resolve_best_version(&untagged, "latest") {
        Err(ResolveError::InvalidRequirement { requirement, .. }) => assert_eq!(requirement, "latest"),
        _ => panic!("expected an invalid requirement"),
    }
}

fn registry(name: &str) -> PackageMetadata {
    match name {
        "a" => meta("a", &[("1.0.0", &[("b", "^1.0.0"), ("c", "^2.0.0")])], None),
        "b" => meta("b", &[("1.0.0", &[]), ("1.1.0", &[("c", "^1.0.0")])], None),
        "c" => meta("c", &[("1.0.0", &[]), ("2.3.0", &[])], None),
        "d" => meta("d", &[("1.0.0", &[])], Some("3.0.0")),
        _ => panic!("unknown package"),
    }
}

#[test]
fn walk_resolves_transitive_dependencies() {
    let mut roots = StrMap::new();
    roots.insert("a".to_string(), "^1.0.0".to_string());
    let mut st = ResolveState::start(&roots);
    let mut order = Vec::new();
    while let Some((name, _req)) = st.next_request() {
        order.push(name.clone());
        assert!(st.accept(&registry(&name)).is_ok());
    }
    // The queue is taken from the back: a, then c (^2.0.0), then b; b's
    // dependency on c is skipped because c was already taken.
    assert_eq!(order, vec!["a", "c", "b"]);
    let pkgs = st.finish();
    let names: Vec<&str> = pkgs.iter().map(|p| p.name.as_str()).collect();
    assert_eq!(names, vec!["a", "b", "c"]);
    assert_eq!(pkgs[0].version, "1.0.0");
    assert_eq!(pkgs[1].version, "1.1.0");
    assert_eq!(pkgs[2].version, "2.3.0");
    assert_eq!(pkgs[1].tarball, "https://example.com/b-1.1.0.tgz");
    assert_eq!(pkgs[1].shasum, "sha-b-1.1.0");
    assert_eq!(pkgs[1].integrity.as_deref(), Some("sha512-b-1.1.0"));
    assert_eq!(pkgs[0].dependencies.len(), 2);
    assert_eq!(pkgs[0].dependencies.get("c").unwrap(), "^2.0.0");
}

#[test]
fn walk_reports_missing_tagged_version() {
    let mut roots = StrMap::new();
    roots.insert("d".to_string(), "latest".to_string());
    let mut st = ResolveState::start(&roots);
    let (name, _) = st.next_request().unwrap();
    match st.accept(&registry(&name)) {
        Err(ResolveError::VersionNotFound { package, version }) => {
            assert_eq!(package, "d");
            assert_eq!(version, "3.0.0");
        }
        _ => panic!("expected a missing version"),
    }
}

#[test]
fn package_names_are_encoded_for_urls() {
    assert_eq!(encode_package_name("@scope/pkg"), "@scope%2fpkg");
    assert_eq!(encode_package_name("react"), "react");
    assert_eq!(encode_package_name("a/b"), "a/b");
    assert_eq!(
        metadata_url(DEFAULT_REGISTRY_URL, "@types/node"),
        "https://registry.npmjs.org/@types%2fnode"
    );
    assert_eq!(metadata_url("http://localhost:4873", "lodash"), "http://localhost:4873/lodash");
}
