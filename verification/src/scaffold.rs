//! Built-in project templates: what a new project of each kind holds.
use vstd::prelude::*;
use vstd::string::StringExecFns;

use crate::fspath::FsPath;
use crate::manifest::Manifest;
use crate::strmap::{texts, StrMap};

verus! {

/// `src/App.jsx` of the React template.
pub const APP_JSX: &'static str = "export default function App() {\n  return (\n    <div style={{ fontFamily: 'system-ui', padding: '2rem', textAlign: 'center' }}>\n      <h1>👻 GhostFS + React</h1>\n      <p>Zero node_modules. Instant setup.</p>\n    </div>\n  );\n}\n";

/// `src/main.jsx` of the React template.
pub const REACT_MAIN_JSX: &'static str = "import React from 'react';\nimport ReactDOM from 'react-dom/client';\nimport App from './App';\n\nReactDOM.createRoot(document.getElementById('root')).render(\n  <React.StrictMode>\n    <App />\n  </React.StrictMode>\n);\n";

/// `index.html` of the React and Vite templates, up to the title.
pub const HTML_HEAD: &'static str = "<!DOCTYPE html>\n<html lang=\"en\">\n<head>\n  <meta charset=\"UTF-8\" />\n  <meta name=\"viewport\" content=\"width=device-width, initial-scale=1.0\" />\n  <title>";

/// `index.html` of the React and Vite templates, after the title.
pub const HTML_TAIL: &'static str = "</title>\n</head>\n<body>\n  <div id=\"root\"></div>\n  <script type=\"module\" src=\"/src/main.jsx\"></script>\n</body>\n</html>\n";

/// `app/page.js` of the Next.js template.
pub const NEXT_PAGE_JS: &'static str = "export default function Home() {\n  return (\n    <main style={{ fontFamily: 'system-ui', padding: '2rem', textAlign: 'center' }}>\n      <h1>👻 GhostFS + Next.js</h1>\n      <p>Zero node_modules. Server components. Instant setup.</p>\n    </main>\n  );\n}\n";

/// `app/layout.js` of the Next.js template, up to the title.
pub const NEXT_LAYOUT_HEAD: &'static str = "export const metadata = {\n  title: '";

/// `app/layout.js` of the Next.js template, after the title.
pub const NEXT_LAYOUT_TAIL: &'static str = "',\n  description: 'Powered by GhostFS',\n};\n\nexport default function RootLayout({ children }) {\n  return (\n    <html lang=\"en\">\n      <body>{children}</body>\n    </html>\n  );\n}\n";

/// `src/main.jsx` of the Vite template.
pub const VITE_MAIN_JSX: &'static str = "import React from 'react';\nimport ReactDOM from 'react-dom/client';\n\nfunction App() {\n  return (\n    <div style={{ fontFamily: 'system-ui', padding: '2rem', textAlign: 'center' }}>\n      <h1>⚡ Vite + GhostFS</h1>\n      <p>Blazing fast. Zero node_modules.</p>\n    </div>\n  );\n}\n\nReactDOM.createRoot(document.getElementById('root')).render(<App />);\n";

/// `vite.config.js` of the Vite template.
pub const VITE_CONFIG_JS: &'static str = "import { defineConfig } from 'vite';\nimport react from '@vitejs/plugin-react';\n\nexport default defineConfig({\n  plugins: [react()],\n});\n";

/// `index.js` of the Node.js template.
pub const NODE_INDEX_JS: &'static str = "console.log('Hello from GhostFS! 👻');\n";

/// A file that a template writes, at a path relative to the project.
pub struct ScaffoldFile {
    pub path: FsPath,
    pub contents: String,
}

/// What a template creates in a new project directory: the manifest (saved
/// as `ghost.json`), then the directories, then the files, in order.
pub struct ScaffoldPlan {
    pub manifest: Manifest,
    pub dirs: Vec<FsPath>,
    pub files: Vec<ScaffoldFile>,
}

/// Why a project could not be scaffolded.
pub enum ScaffoldError {
    /// The template name is not one of the built-in ones.
    UnknownTemplate { template: String },
}

/// Templates for instant project scaffolding.
pub struct Scaffolder;

/// Whether `f` is the file at relative path `path` with contents `contents`.
pub open spec fn file_is(f: ScaffoldFile, path: Seq<Seq<char>>, contents: Seq<char>) -> bool {
    f.path@ == path && f.contents@ == contents
}

/// Whether `m` is a fresh manifest for project `name` with description
/// `desc`.
pub open spec fn manifest_base(m: Manifest, name: Seq<char>, desc: Seq<char>) -> bool {
    &&& m.name@ == name
    &&& m.version@ == crate::manifest::initial_version()
    &&& m.description matches Some(d) && d@ == desc
}

/// The plan of the `node` (or `basic`) template.
pub open spec fn node_plan(p: ScaffoldPlan, name: Seq<char>) -> bool {
    &&& manifest_base(p.manifest, name, "A GhostFS project"@)
    &&& p.manifest.dependencies@ == Map::<Seq<char>, String>::empty()
    &&& p.manifest.dev_dependencies@ == Map::<Seq<char>, String>::empty()
    &&& texts(p.manifest.scripts@) == Map::<Seq<char>, Seq<char>>::empty().insert(
        "start"@,
        "node index.js"@,
    ).insert("dev"@, "node --watch index.js"@)
    &&& p.dirs@.len() == 0
    &&& p.files@.len() == 1
    &&& file_is(p.files@[0], seq!["index.js"@], NODE_INDEX_JS@)
}

/// The plan of the `react` template.
pub open spec fn react_plan(p: ScaffoldPlan, name: Seq<char>) -> bool {
    &&& manifest_base(p.manifest, name, "React app powered by GhostFS"@)
    &&& texts(p.manifest.dependencies@) == Map::<Seq<char>, Seq<char>>::empty().insert(
        "react"@,
        "^19.0.0"@,
    ).insert("react-dom"@, "^19.0.0"@)
    &&& texts(p.manifest.dev_dependencies@) == Map::<Seq<char>, Seq<char>>::empty().insert(
        "@vitejs/plugin-react"@,
        "^4.0.0"@,
    ).insert("vite"@, "^6.0.0"@)
    &&& texts(p.manifest.scripts@) == Map::<Seq<char>, Seq<char>>::empty().insert(
        "dev"@,
        "vite"@,
    ).insert("build"@, "vite build"@).insert("preview"@, "vite preview"@)
    &&& p.dirs@.len() == 1
    &&& p.dirs@[0]@ == seq!["src"@]
    &&& p.files@.len() == 3
    &&& file_is(p.files@[0], seq!["src"@, "App.jsx"@], APP_JSX@)
    &&& file_is(p.files@[1], seq!["src"@, "main.jsx"@], REACT_MAIN_JSX@)
    &&& file_is(p.files@[2], seq!["index.html"@], HTML_HEAD@ + name + HTML_TAIL@)
}

/// The plan of the `next` template.
pub open spec fn next_plan(p: ScaffoldPlan, name: Seq<char>) -> bool {
    &&& manifest_base(p.manifest, name, "Next.js app powered by GhostFS"@)
    &&& texts(p.manifest.dependencies@) == Map::<Seq<char>, Seq<char>>::empty().insert(
        "next"@,
        "^15.0.0"@,
    ).insert("react"@, "^19.0.0"@).insert("react-dom"@, "^19.0.0"@)
    &&& p.manifest.dev_dependencies@ == Map::<Seq<char>, String>::empty()
    &&& texts(p.manifest.scripts@) == Map::<Seq<char>, Seq<char>>::empty().insert(
        "dev"@,
        "next dev"@,
    ).insert("build"@, "next build"@).insert("start"@, "next start"@)
    &&& p.dirs@.len() == 1
    &&& p.dirs@[0]@ == seq!["app"@]
    &&& p.files@.len() == 2
    &&& file_is(p.files@[0], seq!["app"@, "page.js"@], NEXT_PAGE_JS@)
    &&& file_is(p.files@[1], seq!["app"@, "layout.js"@], NEXT_LAYOUT_HEAD@ + name + NEXT_LAYOUT_TAIL@)
}

/// The plan of the `vite` template.
pub open spec fn vite_plan(p: ScaffoldPlan, name: Seq<char>) -> bool {
    &&& manifest_base(p.manifest, name, "Vite app powered by GhostFS"@)
    &&& texts(p.manifest.dependencies@) == Map::<Seq<char>, Seq<char>>::empty().insert(
        "react"@,
        "^19.0.0"@,
    ).insert("react-dom"@, "^19.0.0"@)
    &&& texts(p.manifest.dev_dependencies@) == Map::<Seq<char>, Seq<char>>::empty().insert(
        "@vitejs/plugin-react"@,
        "^4.0.0"@,
    ).insert("vite"@, "^6.0.0"@)
    &&& texts(p.manifest.scripts@) == Map::<Seq<char>, Seq<char>>::empty().insert(
        "dev"@,
        "vite"@,
    ).insert("build"@, "vite build"@)
    &&& p.dirs@.len() == 1
    &&& p.dirs@[0]@ == seq!["src"@]
    &&& p.files@.len() == 3
    &&& file_is(p.files@[0], seq!["src"@, "main.jsx"@], VITE_MAIN_JSX@)
    &&& file_is(p.files@[1], seq!["index.html"@], HTML_HEAD@ + name + HTML_TAIL@)
    &&& file_is(p.files@[2], seq!["vite.config.js"@], VITE_CONFIG_JS@)
}

/// Whether two strings hold the same text.
pub fn str_eq(a: &str, b: &str) -> (r: bool)
    ensures
        r == (a@ == b@),
{
    a.to_owned() == b.to_owned()
}

/// A relative path of one component.
fn rel1(a: &str) -> (r: FsPath)
    ensures
        r@ == seq![a@],
{
    let r = FsPath::from_components(vec![a.to_owned()]);
    assert(r@ =~= seq![a@]);
    r
}

/// A relative path of two components.
fn rel2(a: &str, b: &str) -> (r: FsPath)
    ensures
        r@ == seq![a@, b@],
{
    let r = FsPath::from_components(vec![a.to_owned(), b.to_owned()]);
    assert(r@ =~= seq![a@, b@]);
    r
}

/// `head`, then `name`, then `tail`.
fn around(head: &str, name: &str, tail: &str) -> (r: String)
    ensures
        r@ == head@ + name@ + tail@,
{
    let mut r = String::from_str(head);
    r.append(name);
    r.append(tail);
    r
}

/// Sets `k` to `v` in a map of strings.
fn put(m: &mut StrMap<String>, k: &str, v: &str)
    ensures
        texts(final(m)@) == texts(old(m)@).insert(k@, v@),
{
    m.insert(k.to_owned(), v.to_owned());
    assert(texts(m@) =~= texts(old(m)@).insert(k@, v@));
}

/// A map of strings holding the given pairs, set in order.
fn pairs2(a: (&str, &str), b: (&str, &str)) -> (r: StrMap<String>)
    ensures
        texts(r@) == Map::<Seq<char>, Seq<char>>::empty().insert(a.0@, a.1@).insert(b.0@, b.1@),
{
    let mut m: StrMap<String> = StrMap::new();
    assert(texts(m@) =~= Map::<Seq<char>, Seq<char>>::empty());
    put(&mut m, a.0, a.1);
    put(&mut m, b.0, b.1);
    m
}

/// A map of strings holding the given pairs, set in order.
fn pairs3(a: (&str, &str), b: (&str, &str), c: (&str, &str)) -> (r: StrMap<String>)
    ensures
        texts(r@) == Map::<Seq<char>, Seq<char>>::empty().insert(a.0@, a.1@).insert(b.0@, b.1@).insert(
            c.0@,
            c.1@,
        ),
{
    let mut m = pairs2(a, b);
    put(&mut m, c.0, c.1);
    m
}

/// A fresh manifest with a description.
fn base_manifest(name: &str, desc: &str) -> (r: Manifest)
    ensures
        manifest_base(r, name@, desc@),
        r.dependencies@ == Map::<Seq<char>, String>::empty(),
        r.dev_dependencies@ == Map::<Seq<char>, String>::empty(),
        r.scripts@ == Map::<Seq<char>, String>::empty(),
{
    let mut m = Manifest::new(name);
    m.description = Some(desc.to_owned());
    m
}

impl Scaffolder {
    /// The built-in templates with their descriptions.
    pub fn templates() -> (r: Vec<(&'static str, &'static str)>)
        ensures
            r@ == seq![
                ("react", "React 19 with modern JSX"),
                ("next", "Next.js 15 full-stack app"),
                ("vite", "Vite + React SPA"),
                ("node", "Basic Node.js project"),
            ],
    {
        let r = vec![
            ("react", "React 19 with modern JSX"),
            ("next", "Next.js 15 full-stack app"),
            ("vite", "Vite + React SPA"),
            ("node", "Basic Node.js project"),
        ];
        assert(r@ =~= seq![
            ("react", "React 19 with modern JSX"),
            ("next", "Next.js 15 full-stack app"),
            ("vite", "Vite + React SPA"),
            ("node", "Basic Node.js project"),
        ]);
        r
    }

    /// The plan of a new project from a built-in template: `react`, `next`,
    /// `vite`, or `node` (also called `basic`).
    pub fn create(template: &str, name: &str) -> (r: Result<ScaffoldPlan, ScaffoldError>)
        ensures
            template@ == "react"@ ==> (r matches Ok(p) && react_plan(p, name@)),
            template@ == "next"@ ==> (r matches Ok(p) && next_plan(p, name@)),
            template@ == "vite"@ ==> (r matches Ok(p) && vite_plan(p, name@)),
            template@ == "node"@ || template@ == "basic"@ ==> (r matches Ok(p) && node_plan(p, name@)),
            template@ != "react"@ && template@ != "next"@ && template@ != "vite"@ && template@
                != "node"@ && template@ != "basic"@ ==> (r matches Err(
                ScaffoldError::UnknownTemplate { template: t },
            ) && t@ == template@),
    {
        proof {
            reveal_strlit("react");
            reveal_strlit("next");
            reveal_strlit("vite");
            reveal_strlit("node");
            reveal_strlit("basic");
            assert("react"@ =~= seq!['r', 'e', 'a', 'c', 't']);
            assert("next"@ =~= seq!['n', 'e', 'x', 't']);
            assert("vite"@ =~= seq!['v', 'i', 't', 'e']);
            assert("node"@ =~= seq!['n', 'o', 'd', 'e']);
            assert("basic"@ =~= seq!['b', 'a', 's', 'i', 'c']);
            assert("react"@[0] != "next"@[0]);
            assert("react"@[0] != "vite"@[0]);
            assert("react"@[0] != "node"@[0]);
            assert("next"@[0] != "vite"@[0]);
            assert("next"@[1] != "node"@[1]);
            assert("vite"@[0] != "node"@[0]);
            assert("react"@[0] != "basic"@[0]);
        }
        if str_eq(template, "react") {
            Ok(Self::scaffold_react(name))
        } else if str_eq(template, "next") {
            Ok(Self::scaffold_next(name))
        } else if str_eq(template, "vite") {
            Ok(Self::scaffold_vite(name))
        } else if str_eq(template, "node") || str_eq(template, "basic") {
            Ok(Self::scaffold_node(name))
        } else {
            Err(ScaffoldError::UnknownTemplate { template: template.to_owned() })
        }
    }

    fn scaffold_node(name: &str) -> (r: ScaffoldPlan)
        ensures
            node_plan(r, name@),
    {
        let mut manifest = base_manifest(name, "A GhostFS project");
        manifest.scripts = pairs2(("start", "node index.js"), ("dev", "node --watch index.js"));
        let files = vec![ScaffoldFile { path: rel1("index.js"), contents: NODE_INDEX_JS.to_owned() }];
        let r = ScaffoldPlan { manifest, dirs: Vec::new(), files };
        r
    }

    fn scaffold_react(name: &str) -> (r: ScaffoldPlan)
        ensures
            react_plan(r, name@),
    {
        let mut manifest = base_manifest(name, "React app powered by GhostFS");
        manifest.dependencies = pairs2(("react", "^19.0.0"), ("react-dom", "^19.0.0"));
        manifest.dev_dependencies = pairs2(("@vitejs/plugin-react", "^4.0.0"), ("vite", "^6.0.0"));
        manifest.scripts = pairs3(("dev", "vite"), ("build", "vite build"), ("preview", "vite preview"));
        let dirs = vec![rel1("src")];
        let files = vec![
            ScaffoldFile { path: rel2("src", "App.jsx"), contents: APP_JSX.to_owned() },
            ScaffoldFile { path: rel2("src", "main.jsx"), contents: REACT_MAIN_JSX.to_owned() },
            ScaffoldFile { path: rel1("index.html"), contents: around(HTML_HEAD, name, HTML_TAIL) },
        ];
        let r = ScaffoldPlan { manifest, dirs, files };
        r
    }

    fn scaffold_next(name: &str) -> (r: ScaffoldPlan)
        ensures
            next_plan(r, name@),
    {
        let mut manifest = base_manifest(name, "Next.js app powered by GhostFS");
        manifest.dependencies = pairs3(("next", "^15.0.0"), ("react", "^19.0.0"), ("react-dom", "^19.0.0"));
        manifest.scripts = pairs3(("dev", "next dev"), ("build", "next build"), ("start", "next start"));
        let dirs = vec![rel1("app")];
        let files = vec![
            ScaffoldFile { path: rel2("app", "page.js"), contents: NEXT_PAGE_JS.to_owned() },
            ScaffoldFile {
                path: rel2("app", "layout.js"),
                contents: around(NEXT_LAYOUT_HEAD, name, NEXT_LAYOUT_TAIL),
            },
        ];
        let r = ScaffoldPlan { manifest, dirs, files };
        r
    }

    fn scaffold_vite(name: &str) -> (r: ScaffoldPlan)
        ensures
            vite_plan(r, name@),
    {
        let mut manifest = base_manifest(name, "Vite app powered by GhostFS");
        manifest.dependencies = pairs2(("react", "^19.0.0"), ("react-dom", "^19.0.0"));
        manifest.dev_dependencies = pairs2(("@vitejs/plugin-react", "^4.0.0"), ("vite", "^6.0.0"));
        manifest.scripts = pairs2(("dev", "vite"), ("build", "vite build"));
        let dirs = vec![rel1("src")];
        let files = vec![
            ScaffoldFile { path: rel2("src", "main.jsx"), contents: VITE_MAIN_JSX.to_owned() },
            ScaffoldFile { path: rel1("index.html"), contents: around(HTML_HEAD, name, HTML_TAIL) },
            ScaffoldFile { path: rel1("vite.config.js"), contents: VITE_CONFIG_JS.to_owned() },
        ];
        let r = ScaffoldPlan { manifest, dirs, files };
        r
    }
}

} // verus!
