use ghostfs::cli::{
    caret_latest, compose_node_options, init_manifest, initializer_package_name,
    is_builtin_template, join_node_path, loader_hook_path, resolver_hook_path, select_bin,
    shell_args, shell_program, split_package_spec, BinField,
};
use ghostfs::fspath::FsPath;
use ghostfs::scaffold::{ScaffoldError, Scaffolder, HTML_HEAD, HTML_TAIL, NODE_INDEX_JS};

fn p(parts: &[&str]) -> FsPath {
    FsPath::from_components(parts.iter().map(|s| s.to_string()).collect())
}

#[test]
fn templates_are_listed() {
    let t = Scaffolder::templates();
    assert_eq!(t.len(), 4);
    assert_eq!(t[0], ("react", "React 19 with modern JSX"));
    assert_eq!(t[3], ("node", "Basic Node.js project"));
}

#[test]
fn react_template_plan() {
    let plan = match Scaffolder::create("react", "my-app") {
        Ok(p) => p,
        Err(_) => panic!("react is built in"),
    };
    assert_eq!(plan.manifest.name, "my-app");
    assert_eq!(plan.manifest.description.as_deref(), Some("React app powered by GhostFS"));
    assert_eq!(plan.manifest.dependencies.get("react-dom").unwrap(), "^19.0.0");
    assert_eq!(plan.manifest.dev_dependencies.get("vite").unwrap(), "^6.0.0");
    assert_eq!(plan.manifest.scripts.get("preview").unwrap(), "vite preview");
    assert_eq!(plan.dirs.len(), 1);
    assert_eq!(plan.dirs[0].components, vec!["src"]);
    assert_eq!(plan.files.len(), 3);
    assert_eq!(plan.files[2].path.components, vec!["index.html"]);
    assert!(plan.files[2].contents.contains("<title>my-app</title>"));
    assert_eq!(plan.files[2].contents, format!("{}my-app{}", HTML_HEAD, HTML_TAIL));
}

#[test]
fn next_template_plan() {
    let plan = match Scaffolder::create("next", "site") {
        Ok(p) => p,
        Err(_) => panic!("next is built in"),
    };
    assert_eq!(plan.manifest.dependencies.len(), 3);
    assert_eq!(plan.manifest.dependencies.get("next").unwrap(), "^15.0.0");
    assert!(plan.manifest.dev_dependencies.is_empty());
    assert_eq!(plan.files[1].path.components, vec!["app", "layout.js"]);
    assert!(plan.files[1].contents.contains("  title: 'site',\n"));
    assert!(plan.files[1].contents.contains("<body>{children}</body>"));
}

#[test]
fn node_and_basic_templates() {
    for t in ["node", "basic"] {
        let plan = match Scaffolder::create(t, "svc") {
            Ok(p) => p,
            Err(_) => panic!("built in"),
        };
        assert_eq!(plan.manifest.scripts.get("start").unwrap(), "node index.js");
        assert_eq!(plan.manifest.scripts.get("dev").unwrap(), "node --watch index.js");
        assert_eq!(plan.files.len(), 1);
        assert_eq!(plan.files[0].contents, NODE_INDEX_JS);
        assert!(plan.dirs.is_empty());
    }
}

#[test]
fn vite_template_and_unknown() {
    let plan = match Scaffolder::create("vite", "v") {
        Ok(p) => p,
        Err(_) => panic!("vite is built in"),
    };
    assert_eq!(plan.files[2].path.components, vec!["vite.config.js"]);
    assert_eq!(plan.manifest.scripts.len(), 2);
    match Scaffolder::create("svelte", "x") {
        Err(ScaffoldError::UnknownTemplate { template }) => assert_eq!(template, "svelte"),
        Ok(_) => panic!("svelte is not built in"),
    }
}

#[test]
fn package_specifiers() {
    assert_eq!(split_package_spec("react"), ("react".to_string(), "latest".to_string()));
    assert_eq!(split_package_spec("react@19.0.0"), ("react".to_string(), "19.0.0".to_string()));
    assert_eq!(split_package_spec("@scope/pkg"), ("@scope/pkg".to_string(), "latest".to_string()));
    assert_eq!(
        split_package_spec("@scope/pkg@^1.2.3"),
        ("@scope/pkg".to_string(), "^1.2.3".to_string())
    );
    assert_eq!(caret_latest(Some(&"4.17.21".to_string())), "^4.17.21");
    assert_eq!(caret_latest(None), "^0.0.0");
}

#[test]
fn bin_selection() {
    assert_eq!(select_bin("x", &BinField::Path("cli.js".to_string())), Some("cli.js".to_string()));
    let table = BinField::Table(vec![
        ("create-app".to_string(), Some("bin/a.js".to_string())),
        ("other".to_string(), Some("bin/o.js".to_string())),
    ]);
    assert_eq!(select_bin("@scope/other", &table), Some("bin/o.js".to_string()));
    assert_eq!(select_bin("unrelated", &table), Some("bin/a.js".to_string()));
    let odd = BinField::Table(vec![
        ("a".to_string(), None),
        ("me".to_string(), None),
    ]);
    assert_eq!(select_bin("me", &odd), None);
    assert_eq!(select_bin("me", &BinField::Absent), None);
}

#[test]
fn node_options_composition() {
    assert_eq!(compose_node_options("", None), "");
    assert_eq!(
        compose_node_options("", Some("C:\\Users\\u\\resolver.js")),
        "--require \"C:/Users/u/resolver.js\""
    );
    assert_eq!(
        compose_node_options("--max-old-space-size=4096", Some("/h/resolver.js")),
        "--max-old-space-size=4096 --require \"/h/resolver.js\""
    );
    assert_eq!(
        compose_node_options("--require /x/ghostfs/r.js", Some("/h/resolver.js")),
        "--require /x/ghostfs/r.js"
    );
}

#[test]
fn node_path_and_shell() {
    let paths = vec!["/a".to_string(), "/b".to_string()];
    assert_eq!(join_node_path(&paths, false), "/a:/b");
    assert_eq!(join_node_path(&paths, true), "/a;/b");
    assert_eq!(join_node_path(&vec![], false), "");
    assert_eq!(shell_program(true), "cmd");
    assert_eq!(shell_program(false), "sh");
    assert_eq!(shell_args("npm test", false), vec!["-c", "npm test"]);
    assert_eq!(shell_args("npm test", true), vec!["/C", "npm test"]);
}

#[test]
fn templates_and_initializers() {
    assert!(is_builtin_template("react"));
    assert!(is_builtin_template("basic"));
    assert!(!is_builtin_template("next-app"));
    assert_eq!(initializer_package_name("next-app"), "create-next-app");
    assert_eq!(initializer_package_name("create-vite"), "create-vite");
}

#[test]
fn init_manifest_and_hooks() {
    let m = init_manifest("proj");
    assert_eq!(m.name, "proj");
    assert_eq!(m.version, "0.1.0");
    assert_eq!(m.description.as_deref(), Some("A GhostFS project"));
    assert_eq!(m.scripts.get("dev").unwrap(), "node index.js");
    let base = p(&["/", "home", "u", ".ghostfs"]);
    assert_eq!(
        resolver_hook_path(&base).components,
        vec!["/", "home", "u", ".ghostfs", "runtime", "resolver.js"]
    );
    assert_eq!(
        loader_hook_path(&base).components,
        vec!["/", "home", "u", ".ghostfs", "runtime", "loader.mjs"]
    );
}
