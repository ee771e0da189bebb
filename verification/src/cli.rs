//! The decisions behind the command-line commands: reading package
//! specifiers, choosing a package's executable, composing the environment
//! of scripts, and the paths and names that the commands use.
use vstd::prelude::*;
use vstd::string::StringExecFns;

use crate::fspath::FsPath;
use crate::lockfile::Lockfile;
use crate::manifest::Manifest;
use crate::store::{is_package_path, min_int, ContentStore};
use crate::strmap::texts;
use crate::text::{
    chars_of, contains_seq, find_from_exec, join_exec, join_with, lemma_find_from, matches_at,
    replace_all, replace_exec, starts_with, starts_with_exec, string_from, views,
};

verus! {

/// The position of the last `c` in `s`.
pub open spec fn last_index_of(s: Seq<char>, c: char) -> Option<int>
    decreases s.len(),
{
    if s.len() == 0 {
        None
    } else if s.last() == c {
        Some(s.len() - 1)
    } else {
        last_index_of(s.drop_last(), c)
    }
}

/// The position of the last `c` in `s`.
fn last_index_of_exec(s: &[char], c: char) -> (r: Option<usize>)
    ensures
        r matches Some(i) ==> last_index_of(s@, c) == Some(i as int) && i < s@.len() && s@[i as int] == c,
        r is None ==> last_index_of(s@, c) is None,
{
    let mut i: usize = s.len();
    assert(s@.subrange(0, s@.len() as int) =~= s@);
    while i > 0
        invariant
            i <= s@.len(),
            last_index_of(s@, c) == last_index_of(s@.subrange(0, i as int), c),
        decreases i,
    {
        let ghost t = s@.subrange(0, i as int);
        assert(t.drop_last() =~= s@.subrange(0, i - 1));
        if s[i - 1] == c {
            return Some(i - 1);
        }
        i -= 1;
    }
    None
}

/// The name and range that a package specifier `name@range` names: it is
/// cut at its last `@`; with no `@`, or only a leading one (a scoped name
/// such as `@scope/pkg`), the range is `latest`.
pub open spec fn split_spec(s: Seq<char>) -> (Seq<char>, Seq<char>) {
    match last_index_of(s, '@') {
        Some(i) => if i == 0 {
            (s, "latest"@)
        } else {
            (s.subrange(0, i), s.subrange(i + 1, s.len() as int))
        },
        None => (s, "latest"@),
    }
}

/// The last `c` of `a + [c] + b` is the one after `a` when `b` holds no `c`.
proof fn lemma_last_index_of_split(a: Seq<char>, b: Seq<char>, c: char)
    requires
        !b.contains(c),
    ensures
        last_index_of(a + seq![c] + b, c) == Some(a.len() as int),
    decreases b.len(),
{
    let s = a + seq![c] + b;
    if b.len() == 0 {
        assert(s.last() == c);
    } else {
        assert(s.last() == b.last());
        assert(b[b.len() - 1] == b.last());
        assert(s.drop_last() =~= a + seq![c] + b.drop_last());
        assert forall|k: int| 0 <= k < b.drop_last().len() implies b.drop_last()[k] != c by {
            assert(b.drop_last()[k] == b[k]);
        }
        lemma_last_index_of_split(a, b.drop_last(), c);
    }
}

/// A sequence without `c` has no last `c`.
proof fn lemma_last_index_of_none(s: Seq<char>, c: char)
    requires
        !s.contains(c),
    ensures
        last_index_of(s, c) is None,
    decreases s.len(),
{
    if s.len() > 0 {
        assert(s[s.len() - 1] == s.last());
        assert forall|k: int| 0 <= k < s.drop_last().len() implies s.drop_last()[k] != c by {
            assert(s.drop_last()[k] == s[k]);
        }
        lemma_last_index_of_none(s.drop_last(), c);
    }
}

/// Law: a specifier `name@range`, with a non-empty name (which may itself
/// begin with `@`, as a scoped name does) and a range without `@`, reads as
/// that name and that range; a specifier without `@`, or whose only `@` is
/// its first character, reads as itself with the range `latest`.
pub proof fn law_package_spec(name: Seq<char>, range: Seq<char>)
    ensures
        name.len() > 0 && !range.contains('@') ==> split_spec(name + seq!['@'] + range) == (name, range),
        !name.contains('@') ==> split_spec(name) == (name, "latest"@),
        !name.contains('@') ==> split_spec(seq!['@'] + name) == (seq!['@'] + name, "latest"@),
{
    if name.len() > 0 && !range.contains('@') {
        lemma_last_index_of_split(name, range, '@');
        let s = name + seq!['@'] + range;
        assert(s.subrange(0, name.len() as int) =~= name);
        assert(s.subrange(name.len() + 1int, s.len() as int) =~= range);
    }
    if !name.contains('@') {
        lemma_last_index_of_none(name, '@');
        lemma_last_index_of_split(Seq::<char>::empty(), name, '@');
        assert(Seq::<char>::empty() + seq!['@'] + name =~= seq!['@'] + name);
    }
}

/// Reads a package specifier such as `react`, `react@19.0.0` or
/// `@scope/pkg@^1.0.0` into its name and range.
pub fn split_package_spec(spec: &str) -> (r: (String, String))
    ensures
        r.0@ == split_spec(spec@).0,
        r.1@ == split_spec(spec@).1,
{
    let s = chars_of(spec);
    match last_index_of_exec(s.as_slice(), '@') {
        Some(i) => {
            if i == 0 {
                (spec.to_owned(), "latest".to_owned())
            } else {
                assert(i < s.len());
                (
                    string_from(vstd::slice::slice_subrange(s.as_slice(), 0, i)),
                    string_from(vstd::slice::slice_subrange(s.as_slice(), i + 1, s.len())),
                )
            }
        },
        None => (spec.to_owned(), "latest".to_owned()),
    }
}

/// The range recorded when adding a package by its latest version: `^`
/// and the `latest` tag, or `^0.0.0` when the package has no such tag.
pub fn caret_latest(latest: Option<&String>) -> (r: String)
    ensures
        latest matches Some(l) ==> r@ == "^"@ + l@,
        latest is None ==> r@ == "^0.0.0"@,
{
    match latest {
        Some(l) => {
            let mut r = String::from_str("^");
            r.append(l.as_str());
            r
        },
        None => "^0.0.0".to_owned(),
    }
}

/// The value of one key of a package's `bin` table: a string, or some
/// other JSON value.
pub enum BinField {
    /// `"bin": "path"`.
    Path(String),
    /// `"bin": { name: value, ... }`, in the table's key order; a value
    /// that is not a string is `None`.
    Table(Vec<(String, Option<String>)>),
    /// Any other `bin` value, or none.
    Absent,
}

/// The last `/`-separated segment of a package name.
pub open spec fn simple_name(name: Seq<char>) -> Seq<char> {
    match last_index_of(name, '/') {
        Some(i) => name.subrange(i + 1, name.len() as int),
        None => name,
    }
}

/// The first entry of a table with the given key.
pub open spec fn table_lookup(t: Seq<(String, Option<String>)>, k: Seq<char>) -> Option<Option<String>>
    decreases t.len(),
{
    if t.len() == 0 {
        None
    } else if t[0].0@ == k {
        Some(t[0].1)
    } else {
        table_lookup(t.drop_first(), k)
    }
}

/// The executable path that a package's `bin` field names for package
/// `name`: the string itself; or, in a table, the entry under the last
/// segment of the name when it is a string, else the first entry when it
/// is a string.
pub open spec fn bin_choice(name: Seq<char>, bin: BinField) -> Option<Seq<char>> {
    match bin {
        BinField::Path(s) => Some(s@),
        BinField::Table(t) => match table_lookup(t@, simple_name(name)) {
            Some(Some(s)) => Some(s@),
            _ => if t@.len() > 0 && t@[0].1 is Some {
                Some(t@[0].1.unwrap()@)
            } else {
                None
            },
        },
        BinField::Absent => None,
    }
}

/// The first entry of a table under key `k` is what a lookup finds.
proof fn lemma_table_lookup(t: Seq<(String, Option<String>)>, k: Seq<char>, i: int)
    requires
        0 <= i < t.len(),
        t[i].0@ == k,
        forall|j: int| 0 <= j < i ==> (#[trigger] t[j]).0@ != k,
    ensures
        table_lookup(t, k) == Some(t[i].1),
    decreases i,
{
    if i > 0 {
        assert forall|j: int| 0 <= j < i - 1 implies (#[trigger] t.drop_first()[j]).0@ != k by {
            assert(t.drop_first()[j] == t[j + 1]);
        }
        assert(t[0].0@ != k);
        lemma_table_lookup(t.drop_first(), k, i - 1);
    }
}

/// A table with no entry under `k` finds nothing.
proof fn lemma_table_lookup_none(t: Seq<(String, Option<String>)>, k: Seq<char>)
    requires
        forall|j: int| 0 <= j < t.len() ==> (#[trigger] t[j]).0@ != k,
    ensures
        table_lookup(t, k) is None,
    decreases t.len(),
{
    if t.len() > 0 {
        assert(t[0].0@ != k);
        assert forall|j: int| 0 <= j < t.drop_first().len() implies (#[trigger] t.drop_first()[j]).0@ != k by {
            assert(t.drop_first()[j] == t[j + 1]);
        }
        lemma_table_lookup_none(t.drop_first(), k);
    }
}

/// Law: the simple name of a scoped package `scope/base` is `base`, and a
/// name without `/` is its own simple name.
pub proof fn law_simple_name(scope: Seq<char>, base: Seq<char>)
    requires
        !base.contains('/'),
    ensures
        simple_name(scope + seq!['/'] + base) == base,
        simple_name(base) == base,
{
    lemma_last_index_of_split(scope, base, '/');
    let s = scope + seq!['/'] + base;
    assert(s.subrange(scope.len() + 1int, s.len() as int) =~= base);
    lemma_last_index_of_none(base, '/');
}

/// Law: a string `bin` is the executable; in a table, the first entry
/// under the package's simple name is chosen when it is a string; when the
/// table has no entry under that name, its first entry is chosen when it is
/// a string; and no `bin` gives none.
pub proof fn law_bin_choice(name: Seq<char>, bin: BinField)
    ensures
        bin matches BinField::Path(s) ==> bin_choice(name, bin) == Some(s@),
        bin is Absent ==> bin_choice(name, bin) is None,
        bin matches BinField::Table(t) ==> forall|i: int|
            #![trigger t@[i]]
            0 <= i < t@.len() && t@[i].0@ == simple_name(name) && t@[i].1 is Some && (forall|j: int|
                0 <= j < i ==> (#[trigger] t@[j]).0@ != simple_name(name)) ==> bin_choice(name, bin)
                == Some(t@[i].1.unwrap()@),
        bin matches BinField::Table(t) ==> (forall|j: int|
            0 <= j < t@.len() ==> (#[trigger] t@[j]).0@ != simple_name(name)) ==> bin_choice(name, bin)
            == (if t@.len() > 0 && t@[0].1 is Some {
            Some(t@[0].1.unwrap()@)
        } else {
            None
        }),
{
    if let BinField::Table(t) = bin {
        assert forall|i: int|
            #![trigger t@[i]]
            0 <= i < t@.len() && t@[i].0@ == simple_name(name) && t@[i].1 is Some && (forall|j: int|
                0 <= j < i ==> (#[trigger] t@[j]).0@ != simple_name(name)) implies bin_choice(name, bin)
                == Some(t@[i].1.unwrap()@) by {
            lemma_table_lookup(t@, simple_name(name), i);
        }
        if forall|j: int| 0 <= j < t@.len() ==> (#[trigger] t@[j]).0@ != simple_name(name) {
            lemma_table_lookup_none(t@, simple_name(name));
        }
    }
}

/// Chooses the executable of package `name` from its `bin` field.
pub fn select_bin(name: &str, bin: &BinField) -> (r: Option<String>)
    ensures
        (match r {
            Some(s) => Some(s@),
            None => None,
        }) == bin_choice(name@, *bin),
{
    match bin {
        BinField::Path(s) => Some(s.clone()),
        BinField::Table(t) => {
            let n = chars_of(name);
            let simple = match last_index_of_exec(n.as_slice(), '/') {
                Some(i) => {
                    assert(i < n.len());
                    string_from(vstd::slice::slice_subrange(n.as_slice(), i + 1, n.len()))
                },
                None => name.to_owned(),
            };
            let mut i: usize = 0;
            let mut found_other = false;
            assert(t@.subrange(0, t@.len() as int) =~= t@);
            while i < t.len() && !found_other
                invariant
                    i <= t@.len(),
                    *bin == BinField::Table(*t),
                    simple@ == simple_name(name@),
                    !found_other ==> table_lookup(t@, simple@) == table_lookup(
                        t@.subrange(i as int, t@.len() as int),
                        simple@,
                    ),
                    found_other ==> table_lookup(t@, simple@) == Some(None::<String>),
                decreases t.len() - i,
            {
                let ghost rest = t@.subrange(i as int, t@.len() as int);
                assert(rest.drop_first() =~= t@.subrange(i + 1, t@.len() as int));
                if t[i].0 == simple {
                    assert(rest[0] == t@[i as int]);
                    assert(table_lookup(rest, simple@) == Some(t@[i as int].1));
                    match &t[i].1 {
                        Some(s) => {
                            assert(table_lookup(t@, simple_name(name@)) == Some(Some(*s)));
                            return Some(s.clone());
                        },
                        None => {
                            found_other = true;
                        },
                    }
                }
                i += 1;
            }
            if t.len() > 0 {
                match &t[0].1 {
                    Some(s) => Some(s.clone()),
                    None => None,
                }
            } else {
                None
            }
        },
        BinField::Absent => None,
    }
}

/// The `NODE_OPTIONS` a script runs with: the existing value, plus
/// `--require "<hook>"` (with backslashes turned into slashes) when a
/// resolver hook was found and the value does not mention `ghostfs` yet.
pub open spec fn node_options_spec(existing: Seq<char>, hook: Option<Seq<char>>) -> Seq<char> {
    match hook {
        None => existing,
        Some(h) => if contains_seq(existing, "ghostfs"@) {
            existing
        } else {
            let flag = "--require \""@ + replace_all(h, seq!['\\'], seq!['/']) + "\""@;
            if existing.len() == 0 {
                flag
            } else {
                existing + seq![' '] + flag
            }
        },
    }
}

/// Law: with no hook, or where `NODE_OPTIONS` already names GhostFS (holds
/// the text `ghostfs`), the value is kept as it is; otherwise the hook's
/// `--require "<hook with \\ turned into />"` flag is appended to it, after
/// a space when the value is not empty, and nothing else changes.
pub proof fn law_node_options_hook(existing: Seq<char>, hook: Option<Seq<char>>)
    ensures
        hook is None ==> node_options_spec(existing, hook) == existing,
        hook is Some && contains_seq(existing, seq!['g', 'h', 'o', 's', 't', 'f', 's']) ==> node_options_spec(
            existing,
            hook,
        ) == existing,
        hook is Some && !contains_seq(existing, seq!['g', 'h', 'o', 's', 't', 'f', 's']) ==> {
            let h = hook.unwrap();
            let flag = seq!['-', '-', 'r', 'e', 'q', 'u', 'i', 'r', 'e', ' ', '"'] + replace_all(
                h,
                seq!['\\'],
                seq!['/'],
            ) + seq!['"'];
            &&& existing.len() == 0 ==> node_options_spec(existing, hook) == flag
            &&& existing.len() > 0 ==> node_options_spec(existing, hook) == existing + seq![' '] + flag
        },
{
    reveal_strlit("ghostfs");
    reveal_strlit("--require \"");
    reveal_strlit("\"");
    assert("ghostfs"@ =~= seq!['g', 'h', 'o', 's', 't', 'f', 's']);
    assert("--require \""@ =~= seq!['-', '-', 'r', 'e', 'q', 'u', 'i', 'r', 'e', ' ', '"']);
    assert("\""@ =~= seq!['"']);
}

/// Whether `p` occurs anywhere in `s`.
fn contains_exec(s: &[char], p: &[char]) -> (r: bool)
    ensures
        r == contains_seq(s@, p@),
{
    match find_from_exec(s, p, 0) {
        Some(i) => {
            proof {
                lemma_find_from(s@, p@, 0);
            }
            true
        },
        None => {
            proof {
                lemma_find_from(s@, p@, 0);
            }
            false
        },
    }
}

/// Composes the `NODE_OPTIONS` a script runs with.
pub fn compose_node_options(existing: &str, hook: Option<&str>) -> (r: String)
    ensures
        r@ == node_options_spec(
            existing@,
            match hook {
                Some(h) => Some(h@),
                None => None,
            },
        ),
{
    match hook {
        None => existing.to_owned(),
        Some(h) => {
            let e = chars_of(existing);
            let g = chars_of("ghostfs");
            if contains_exec(e.as_slice(), g.as_slice()) {
                return existing.to_owned();
            }
            let hc = chars_of(h);
            let back = vec!['\\'];
            let fwd = vec!['/'];
            assert(back@ =~= seq!['\\']);
            assert(fwd@ =~= seq!['/']);
            let hs = string_from(replace_exec(hc.as_slice(), back.as_slice(), fwd.as_slice()).as_slice());
            let mut flag = String::from_str("--require \"");
            flag.append(hs.as_str());
            flag.append("\"");
            if e.len() == 0 {
                flag
            } else {
                let mut r = String::from_str(existing);
                r.append(" ");
                assert(" "@ =~= seq![' ']) by {
                    reveal_strlit(" ");
                }
                r.append(flag.as_str());
                r
            }
        },
    }
}

/// The paths that `NODE_PATH` may list, one per locked package in name
/// order: each package's directory in the store, as `package_path` gives
/// it.
pub fn node_path_candidates(store: &ContentStore, lockfile: &Lockfile) -> (r: Vec<FsPath>)
    requires
        forall|i: int|
            0 <= i < lockfile.packages.entry_seq().len() ==> {
                let h = #[trigger] lockfile.packages.entry_seq()[i].1.hash;
                &&& vstd::utf8::encode_utf8(h@).len() <= usize::MAX
                &&& vstd::utf8::is_char_boundary(
                    vstd::utf8::encode_utf8(h@),
                    min_int(2, vstd::utf8::encode_utf8(h@).len() as int),
                )
            },
    ensures
        r@.len() == lockfile.packages.entry_seq().len(),
        forall|i: int|
            0 <= i < r@.len() ==> is_package_path(
                #[trigger] r@[i]@,
                store.root_view(),
                lockfile.packages.entry_seq()[i].1.hash@,
            ),
{
    let entries = lockfile.packages.entries();
    let mut r: Vec<FsPath> = Vec::new();
    let mut i: usize = 0;
    while i < entries.len()
        invariant
            i <= entries@.len(),
            entries@ == lockfile.packages.entry_seq(),
            r@.len() == i,
            forall|j: int|
                0 <= j < entries@.len() ==> {
                    let h = #[trigger] entries@[j].1.hash;
                    &&& vstd::utf8::encode_utf8(h@).len() <= usize::MAX
                    &&& vstd::utf8::is_char_boundary(
                        vstd::utf8::encode_utf8(h@),
                        min_int(2, vstd::utf8::encode_utf8(h@).len() as int),
                    )
                },
            forall|j: int|
                0 <= j < i ==> is_package_path(#[trigger] r@[j]@, store.root_view(), entries@[j].1.hash@),
        decreases entries.len() - i,
    {
        let h = entries[i].1.hash.as_str();
        let ghost hh = entries@[i as int].1.hash;
        assert(entries@[i as int].1.hash == hh);
        r.push(store.package_path(h));
        i += 1;
    }
    r
}

/// The `NODE_PATH` value: the paths joined with `;` on Windows and `:`
/// elsewhere.
pub fn join_node_path(paths: &Vec<String>, windows: bool) -> (r: String)
    ensures
        r@ == join_with(
            paths@.map_values(|p: String| p@),
            if windows {
                seq![';']
            } else {
                seq![':']
            },
        ),
{
    let mut parts: Vec<Vec<char>> = Vec::new();
    let mut i: usize = 0;
    while i < paths.len()
        invariant
            i <= paths@.len(),
            parts@.len() == i,
            forall|j: int| 0 <= j < i ==> #[trigger] parts@[j]@ == paths@[j]@,
        decreases paths.len() - i,
    {
        parts.push(chars_of(paths[i].as_str()));
        i += 1;
    }
    assert(views(parts@) =~= paths@.map_values(|p: String| p@));
    let sep = if windows {
        vec![';']
    } else {
        vec![':']
    };
    assert(sep@ =~= (if windows {
        seq![';']
    } else {
        seq![':']
    }));
    string_from(join_exec(&parts, sep.as_slice()).as_slice())
}

/// The shell that runs scripts: `cmd` on Windows, `sh` elsewhere.
pub fn shell_program(windows: bool) -> (r: &'static str)
    ensures
        r@ == (if windows {
            "cmd"@
        } else {
            "sh"@
        }),
{
    if windows {
        "cmd"
    } else {
        "sh"
    }
}

/// The shell arguments that run a script command: `/C cmd` on Windows,
/// `-c cmd` elsewhere.
pub fn shell_args(cmd: &str, windows: bool) -> (r: Vec<&str>)
    ensures
        r@.len() == 2,
        r@[0]@ == (if windows {
            "/C"@
        } else {
            "-c"@
        }),
        r@[1] == cmd,
{
    if windows {
        vec!["/C", cmd]
    } else {
        vec!["-c", cmd]
    }
}

/// Whether a template is built in.
pub fn is_builtin_template(template: &str) -> (r: bool)
    ensures
        r == (template@ == "react"@ || template@ == "next"@ || template@ == "vite"@ || template@
            == "node"@ || template@ == "basic"@),
{
    let t = template.to_owned();
    t == "react".to_owned() || t == "next".to_owned() || t == "vite".to_owned() || t
        == "node".to_owned() || t == "basic".to_owned()
}

/// The registry package that initializes projects of a template that is
/// not built in: the template itself when it starts with `create-`, else
/// `create-` and the template.
pub fn initializer_package_name(template: &str) -> (r: String)
    ensures
        starts_with(template@, "create-"@) ==> r@ == template@,
        !starts_with(template@, "create-"@) ==> r@ == "create-"@ + template@,
{
    let t = chars_of(template);
    let p = chars_of("create-");
    if starts_with_exec(t.as_slice(), p.as_slice()) {
        template.to_owned()
    } else {
        let mut r = String::from_str("create-");
        r.append(template);
        r
    }
}

/// The manifest that `ghost init` writes for project `name`.
pub fn init_manifest(name: &str) -> (r: Manifest)
    ensures
        r.name@ == name@,
        r.version@ == crate::manifest::initial_version(),
        r.description matches Some(d) && d@ == "A GhostFS project"@,
        r.dependencies@ == Map::<Seq<char>, String>::empty(),
        r.dev_dependencies@ == Map::<Seq<char>, String>::empty(),
        texts(r.scripts@) == Map::<Seq<char>, Seq<char>>::empty().insert("dev"@, "node index.js"@),
{
    let mut m = Manifest::new(name);
    m.description = Some("A GhostFS project".to_owned());
    m.scripts.insert("dev".to_owned(), "node index.js".to_owned());
    assert(texts(m.scripts@) =~= Map::<Seq<char>, Seq<char>>::empty().insert("dev"@, "node index.js"@));
    m
}

/// The `.ghostfs` directory under a home directory.
pub fn ghostfs_home(home: &FsPath) -> (r: FsPath)
    ensures
        r@ == home@.push(".ghostfs"@),
{
    home.join(".ghostfs")
}

/// The runtime hook directory under a base directory: `<base>/runtime`.
pub fn runtime_dir(base: &FsPath) -> (r: FsPath)
    ensures
        r@ == base@.push("runtime"@),
{
    base.join("runtime")
}

/// The CommonJS resolver hook under a base directory:
/// `<base>/runtime/resolver.js`.
pub fn resolver_hook_path(base: &FsPath) -> (r: FsPath)
    ensures
        r@ == base@.push("runtime"@).push("resolver.js"@),
{
    runtime_dir(base).join("resolver.js")
}

/// The ESM loader hook under a base directory: `<base>/runtime/loader.mjs`.
pub fn loader_hook_path(base: &FsPath) -> (r: FsPath)
    ensures
        r@ == base@.push("runtime"@).push("loader.mjs"@),
{
    runtime_dir(base).join("loader.mjs")
}

} // verus!
