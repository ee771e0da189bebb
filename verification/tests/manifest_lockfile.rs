use std::io::{Read, Write};
use ghostfs::fspath::FsPath;
use ghostfs::lockfile::{default_lockfile_version, LockedPackage, Lockfile};
use ghostfs::manifest::{default_version, Manifest, ManifestError};
use ghostfs::strmap::StrMap;

fn path_of(p: &std::path::Path) -> FsPath {
    FsPath::from_components(
        p.components()
            .map(|c| c.as_os_str().to_string_lossy().to_string())
            .collect(),
    )
}

fn render(p: &FsPath) -> std::path::PathBuf {
    p.components.iter().collect()
}

fn create_named(dir: &std::path::Path, prefix: &str, suffix: &str, text: &str) -> tempfile::NamedTempFile {
    let mut f = tempfile::Builder::new()
        .prefix(prefix)
        .suffix(suffix)
        .rand_bytes(0)
        .tempfile_in(dir)
        .unwrap();
    f.write_all(text.as_bytes()).unwrap();
    f.flush().unwrap();
    f
}

fn read_back(f: &tempfile::NamedTempFile) -> String {
    let mut s = String::new();
    f.reopen().unwrap().read_to_string(&mut s).unwrap();
    s
}

fn string_map_to_json(m: &StrMap<String>) -> serde_json::Value {
    let mut obj = serde_json::Map::new();
    for (k, v) in m.entries() {
        obj.insert(k.clone(), serde_json::Value::String(v.clone()));
    }
    serde_json::Value::Object(obj)
}

fn string_map_from_json(v: Option<&serde_json::Value>) -> StrMap<String> {
    let mut m = StrMap::new();
    if let Some(serde_json::Value::Object(obj)) = v {
        for (k, v) in obj {
            if let serde_json::Value::String(s) = v {
                m.insert(k.clone(), s.clone());
            }
        }
    }
    m
}

fn manifest_to_json(m: &Manifest) -> String {
    let mut obj = serde_json::Map::new();
    obj.insert("name".into(), serde_json::Value::String(m.name.clone()));
    obj.insert("version".into(), serde_json::Value::String(m.version.clone()));
    if let Some(d) = &m.description {
        obj.insert("description".into(), serde_json::Value::String(d.clone()));
    }
    if !m.dependencies.is_empty() {
        obj.insert("dependencies".into(), string_map_to_json(&m.dependencies));
    }
    if !m.dev_dependencies.is_empty() {
        obj.insert("devDependencies".into(), string_map_to_json(&m.dev_dependencies));
    }
    if !m.scripts.is_empty() {
        obj.insert("scripts".into(), string_map_to_json(&m.scripts));
    }
    serde_json::to_string_pretty(&serde_json::Value::Object(obj)).unwrap() + "\n"
}

fn manifest_from_json(text: &str) -> Manifest {
    let v: serde_json::Value = serde_json::from_str(text).unwrap();
    let mut m = Manifest::new(v["name"].as_str().unwrap());
    m.version = v
        .get("version")
        .and_then(|x| x.as_str())
        .map(|s| s.to_string())
        .unwrap_or_else(default_version);
    m.description = v.get("description").and_then(|x| x.as_str()).map(|s| s.to_string());
    m.dependencies = string_map_from_json(v.get("dependencies"));
    m.dev_dependencies = string_map_from_json(v.get("devDependencies"));
    m.scripts = string_map_from_json(v.get("scripts"));
    m
}

fn lockfile_to_json(l: &Lockfile) -> String {
    let mut pkgs = serde_json::Map::new();
    for (name, p) in l.packages.entries() {
        let mut e = serde_json::Map::new();
        e.insert("version".into(), serde_json::Value::String(p.version.clone()));
        e.insert("hash".into(), serde_json::Value::String(p.hash.clone()));
        e.insert("tarball".into(), serde_json::Value::String(p.tarball.clone()));
        if let Some(i) = &p.integrity {
            e.insert("integrity".into(), serde_json::Value::String(i.clone()));
        }
        if !p.dependencies.is_empty() {
            e.insert("dependencies".into(), string_map_to_json(&p.dependencies));
        }
        pkgs.insert(name.clone(), serde_json::Value::Object(e));
    }
    let mut obj = serde_json::Map::new();
    obj.insert("lockfile_version".into(), serde_json::Value::from(l.lockfile_version));
    obj.insert("packages".into(), serde_json::Value::Object(pkgs));
    serde_json::to_string_pretty(&serde_json::Value::Object(obj)).unwrap() + "\n"
}

fn lockfile_from_json(text: &str) -> Lockfile {
    let v: serde_json::Value = serde_json::from_str(text).unwrap();
    let mut l = Lockfile::new();
    l.lockfile_version = v
        .get("lockfile_version")
        .and_then(|x| x.as_u64())
        .map(|x| x as u32)
        .unwrap_or_else(default_lockfile_version);
    if let Some(serde_json::Value::Object(pkgs)) = v.get("packages") {
        for (name, p) in pkgs {
            let s = |k: &str| p[k].as_str().unwrap().to_string();
            l.add_package(
                name,
                LockedPackage {
                    version: s("version"),
                    hash: s("hash"),
                    tarball: s("tarball"),
                    integrity: p.get("integrity").and_then(|x| x.as_str()).map(|x| x.to_string()),
                    dependencies: string_map_from_json(p.get("dependencies")),
                },
            );
        }
    }
    l
}

#[test]
fn test_lockfile_lifecycle() {
    let mut lockfile = Lockfile::new();
    assert_eq!(lockfile.lockfile_version, 1);
    assert!(lockfile.packages.is_empty());

    let pkg = LockedPackage {
        version: "1.0.0".to_string(),
        hash: "123456".to_string(),
        tarball: "https://example.com/tarball.tgz".to_string(),
        integrity: Some("sha512-abc".to_string()),
        dependencies: StrMap::new(),
    };

    lockfile.add_package("my-dep", pkg);
    assert_eq!(lockfile.packages.len(), 1);

    let fetched = lockfile.get_package("my-dep").unwrap();
    assert_eq!(fetched.version, "1.0.0");
    assert_eq!(fetched.hash, "123456");

    let dir = tempfile::tempdir().unwrap();
    let path = render(&Lockfile::lockfile_path(&path_of(dir.path())));
    assert_eq!(path, dir.path().join("ghost.lock"));
    let file = create_named(dir.path(), "ghost", ".lock", &lockfile_to_json(&lockfile));
    assert_eq!(file.path(), path.as_path());
    assert!(path.exists());

    let loaded = lockfile_from_json(&read_back(&file));
    assert_eq!(loaded.packages.len(), 1);
    assert_eq!(loaded.get_package("my-dep").unwrap().version, "1.0.0");
}

#[test]
fn test_manifest_manipulation() {
    let mut manifest = Manifest::new("my-test-app");
    assert_eq!(manifest.name, "my-test-app");
    assert_eq!(manifest.version, "0.1.0");
    assert!(manifest.dependencies.is_empty());

    manifest.add_dependency("react", "^19.0.0");
    assert_eq!(manifest.dependencies.get("react").unwrap(), "^19.0.0");

    assert!(manifest.remove_dependency("react"));
    assert!(!manifest.remove_dependency("react"));
}

#[test]
fn test_manifest_file_io() {
    let dir = tempfile::tempdir().unwrap();
    let dir_path = path_of(dir.path());
    let path = render(&Manifest::manifest_path(&dir_path));
    assert_eq!(path, dir.path().join("ghost.json"));

    let mut manifest = Manifest::new("io-app");
    manifest.add_dependency("lodash", "^4.17.21");
    let file = create_named(dir.path(), "ghost", ".json", &manifest_to_json(&manifest));
    assert_eq!(file.path(), path.as_path());

    assert!(path.exists());

    let loaded = manifest_from_json(&read_back(&file));
    assert_eq!(loaded.name, "io-app");
    assert_eq!(loaded.dependencies.get("lodash").unwrap(), "^4.17.21");

    let ghost_exists = path.exists();
    let pkg_exists = dir.path().join("package.json").exists();
    let chosen = match Manifest::load_from_dir(&dir_path, ghost_exists, pkg_exists) {
        Ok(p) => render(&p),
        Err(_) => panic!("no manifest"),
    };
    assert_eq!(chosen, file.path());
    let loaded_from_dir = manifest_from_json(&read_back(&file));
    assert_eq!(loaded_from_dir.name, "io-app");
}

#[test]
fn manifest_remove_prefers_dependencies_over_dev() {
    let mut m = Manifest::new("x");
    m.add_dependency("a", "1");
    m.dev_dependencies.insert("a".to_string(), "2".to_string());
    m.dev_dependencies.insert("b".to_string(), "3".to_string());
    assert!(m.remove_dependency("a"));
    assert!(m.dependencies.get("a").is_none());
    assert_eq!(m.dev_dependencies.get("a").unwrap(), "2");
    assert!(m.remove_dependency("a"));
    assert!(m.dev_dependencies.get("a").is_none());
    assert!(m.remove_dependency("b"));
    assert!(!m.remove_dependency("c"));
}

#[test]
fn manifest_add_replaces_version() {
    let mut m = Manifest::new("x");
    m.add_dependency("react", "^18.0.0");
    m.add_dependency("react", "^19.0.0");
    assert_eq!(m.dependencies.len(), 1);
    assert_eq!(m.dependencies.get("react").unwrap(), "^19.0.0");
}

#[test]
fn load_from_dir_falls_back_to_package_json() {
    let dir = FsPath::from_components(vec!["/".to_string(), "proj".to_string()]);
    let p = Manifest::load_from_dir(&dir, false, true).ok().unwrap();
    assert_eq!(p.components, vec!["/", "proj", "package.json"]);
    let p = Manifest::load_from_dir(&dir, true, true).ok().unwrap();
    assert_eq!(p.components, vec!["/", "proj", "ghost.json"]);
    match Manifest::load_from_dir(&dir, false, false) {
        Err(ManifestError::NotFound { dir: d }) => assert_eq!(d.components, vec!["/", "proj"]),
        Ok(_) => panic!("expected an error"),
    }
}

#[test]
fn lockfile_default_is_empty_version_one() {
    let l = Lockfile::default();
    assert_eq!(l.lockfile_version, 1);
    assert!(l.packages.is_empty());
    assert_eq!(default_lockfile_version(), 1);
    assert_eq!(default_version(), "0.1.0");
}
