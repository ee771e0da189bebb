//! The project manifest, `ghost.json`, an equivalent of `package.json`.
use vstd::prelude::*;

use crate::fspath::FsPath;
use crate::strmap::{texts, StrMap};

verus! {

/// The text `0.1.0`.
pub open spec fn initial_version() -> Seq<char> {
    seq!['0', '.', '1', '.', '0']
}

/// The text `ghost.json`.
pub open spec fn manifest_file_name() -> Seq<char> {
    seq!['g', 'h', 'o', 's', 't', '.', 'j', 's', 'o', 'n']
}

/// The text `package.json`.
pub open spec fn package_file_name() -> Seq<char> {
    seq!['p', 'a', 'c', 'k', 'a', 'g', 'e', '.', 'j', 's', 'o', 'n']
}

/// The version a manifest gets when it names none.
pub fn default_version() -> (r: String)
    ensures
        r@ == initial_version(),
{
    let r = "0.1.0".to_owned();
    proof {
        reveal_strlit("0.1.0");
    }
    r
}

/// Project manifest (`ghost.json`).
pub struct Manifest {
    pub name: String,
    pub version: String,
    pub description: Option<String>,
    pub dependencies: StrMap<String>,
    pub dev_dependencies: StrMap<String>,
    pub scripts: StrMap<String>,
}

/// Why no manifest could be found.
pub enum ManifestError {
    /// Neither `ghost.json` nor `package.json` is in the directory.
    NotFound { dir: FsPath },
}

impl Manifest {
    /// A new empty manifest with the given project name.
    pub fn new(name: &str) -> (r: Self)
        ensures
            r.name@ == name@,
            r.version@ == initial_version(),
            r.description is None,
            r.dependencies@ == Map::<Seq<char>, String>::empty(),
            r.dev_dependencies@ == Map::<Seq<char>, String>::empty(),
            r.scripts@ == Map::<Seq<char>, String>::empty(),
    {
        Manifest {
            name: name.to_owned(),
            version: default_version(),
            description: None,
            dependencies: StrMap::new(),
            dev_dependencies: StrMap::new(),
            scripts: StrMap::new(),
        }
    }

    /// The canonical manifest path of a project directory.
    pub fn manifest_path(project_dir: &FsPath) -> (r: FsPath)
        ensures
            r@ == project_dir@.push(manifest_file_name()),
    {
        let lit = "ghost.json";
        proof {
            reveal_strlit("ghost.json");
            assert(lit@ =~= manifest_file_name());
        }
        project_dir.join(lit)
    }

    /// Where a project's manifest loads from: `ghost.json` when it exists,
    /// else `package.json` when that exists; neither is an error. The file
    /// itself is read and parsed by the caller.
    pub fn load_from_dir(
        project_dir: &FsPath,
        ghost_json_exists: bool,
        package_json_exists: bool,
    ) -> (r: Result<FsPath, ManifestError>)
        ensures
            ghost_json_exists ==> (r matches Ok(p) && p@ == project_dir@.push(manifest_file_name())),
            !ghost_json_exists && package_json_exists ==> (r matches Ok(p) && p@ == project_dir@.push(
                package_file_name(),
            )),
            !ghost_json_exists && !package_json_exists ==> (r matches Err(ManifestError::NotFound { dir })
                && dir@ == project_dir@),
    {
        if ghost_json_exists {
            return Ok(Self::manifest_path(project_dir));
        }
        if package_json_exists {
            let lit = "package.json";
            proof {
                reveal_strlit("package.json");
                assert(lit@ =~= package_file_name());
            }
            return Ok(project_dir.join(lit));
        }
        Err(ManifestError::NotFound { dir: project_dir.duplicate() })
    }

    /// Adds (or replaces) a dependency.
    pub fn add_dependency(&mut self, name: &str, version: &str)
        ensures
            dependency_added(*old(self), *final(self), name@, version@),
    {
        let v = version.to_owned();
        let ghost gv = v;
        self.dependencies.insert(name.to_owned(), v);
        assert(texts(self.dependencies@) =~= texts(old(self).dependencies@).insert(name@, version@));
    }

    /// Removes a dependency, looking in `dependencies` first and in
    /// `devDependencies` only when it is not there; true when it was found.
    pub fn remove_dependency(&mut self, name: &str) -> (r: bool)
        ensures
            dependency_removed(*old(self), *final(self), name@, r),
    {
        if self.dependencies.remove(name).is_some() {
            return true;
        }
        self.dev_dependencies.remove(name).is_some()
    }
}

/// What `add_dependency` does: `after` is `before` with `name` set to
/// `version` among the dependencies, and nothing else changed.
pub open spec fn dependency_added(before: Manifest, after: Manifest, name: Seq<char>, version: Seq<char>) -> bool {
    &&& texts(after.dependencies@) == texts(before.dependencies@).insert(name, version)
    &&& after.dependencies@.dom() == before.dependencies@.dom().insert(name)
    &&& after.name == before.name
    &&& after.version == before.version
    &&& after.description == before.description
    &&& after.dev_dependencies == before.dev_dependencies
    &&& after.scripts == before.scripts
}

/// What `remove_dependency` does: `name` is taken out of the dependencies,
/// or, when it is not there, out of the devDependencies; `found` says
/// whether it was in either; nothing else changes.
pub open spec fn dependency_removed(before: Manifest, after: Manifest, name: Seq<char>, found: bool) -> bool {
    &&& found == (before.dependencies@.contains_key(name) || before.dev_dependencies@.contains_key(name))
    &&& after.dependencies@ == before.dependencies@.remove(name)
    &&& before.dependencies@.contains_key(name) ==> after.dev_dependencies@ == before.dev_dependencies@
    &&& !before.dependencies@.contains_key(name) ==> after.dev_dependencies@
        == before.dev_dependencies@.remove(name)
    &&& after.name == before.name
    &&& after.version == before.version
    &&& after.description == before.description
    &&& after.scripts == before.scripts
}

/// Law: adding a dependency and then removing it reports it found, leaves
/// the devDependencies and the rest of the manifest as they were, and
/// leaves the dependencies as they were with that name taken out; where the
/// name was absent before, exactly as they were.
pub proof fn law_add_then_remove(
    m0: Manifest,
    m1: Manifest,
    m2: Manifest,
    name: Seq<char>,
    version: Seq<char>,
    found: bool,
)
    requires
        dependency_added(m0, m1, name, version),
        dependency_removed(m1, m2, name, found),
    ensures
        found,
        texts(m2.dependencies@) == texts(m0.dependencies@).remove(name),
        !m0.dependencies@.contains_key(name) ==> texts(m2.dependencies@) == texts(m0.dependencies@),
        m2.dev_dependencies@ == m0.dev_dependencies@,
        m2.name == m0.name && m2.version == m0.version && m2.description == m0.description,
        m2.scripts == m0.scripts,
{
    assert(m1.dependencies@.dom().contains(name));
    assert(texts(m2.dependencies@) =~= texts(m0.dependencies@).remove(name)) by {
        assert(texts(m2.dependencies@) =~= texts(m1.dependencies@).remove(name));
    }
    if !m0.dependencies@.contains_key(name) {
        assert(texts(m0.dependencies@).remove(name) =~= texts(m0.dependencies@));
    }
}

} // verus!
