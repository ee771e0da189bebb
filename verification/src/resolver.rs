//! Choosing package versions for npm ranges and walking the dependency
//! graph.
use vstd::prelude::*;

use crate::range::{normalized_alternatives, normalized_alternatives_exec};
use crate::registry::{PackageMetadata, VersionMetadata};
use crate::strmap::StrMap;
use crate::text::{seq_lt, chars_of, matches_at_exec, string_from, trim, trim_exec, views};
use crate::versioning::{
    parse_req, parse_version, req_matches, spec_req_matches, spec_req_valid,
    spec_version_display, spec_version_lt, spec_version_valid, version_lt, version_to_string,
    ParsedReq, ParsedVersion,
};

verus! {

/// A fully resolved package in the dependency graph.
pub struct ResolvedPackage {
    pub name: String,
    pub version: String,
    pub tarball: String,
    pub shasum: String,
    pub integrity: Option<String>,
    pub dependencies: StrMap<String>,
}

/// Why a package could not be resolved.
pub enum ResolveError {
    /// No part of the range reads as a version requirement.
    InvalidRequirement { requirement: String, package: String },
    /// No published version satisfies the range.
    NoMatchingVersion { package: String, requirement: String },
    /// The chosen version has no metadata entry.
    VersionNotFound { package: String, version: String },
}

/// The contents of a `ResolveError`.
pub ghost enum ResolveErrorView {
    InvalidRequirement { requirement: Seq<char>, package: Seq<char> },
    NoMatchingVersion { package: Seq<char>, requirement: Seq<char> },
    VersionNotFound { package: Seq<char>, version: Seq<char> },
}

impl View for ResolveError {
    type V = ResolveErrorView;

    open spec fn view(&self) -> ResolveErrorView {
        match self {
            ResolveError::InvalidRequirement { requirement, package } => {
                ResolveErrorView::InvalidRequirement { requirement: requirement@, package: package@ }
            },
            ResolveError::NoMatchingVersion { package, requirement } => {
                ResolveErrorView::NoMatchingVersion { package: package@, requirement: requirement@ }
            },
            ResolveError::VersionNotFound { package, version } => {
                ResolveErrorView::VersionNotFound { package: package@, version: version@ }
            },
        }
    }
}

/// The contents of a resolution outcome.
pub open spec fn outcome_view(r: Result<String, ResolveError>) -> Result<Seq<char>, ResolveErrorView> {
    match r {
        Ok(s) => Ok(s@),
        Err(e) => Err(e@),
    }
}

/// The text `latest`.
pub open spec fn latest_text() -> Seq<char> {
    seq!['l', 'a', 't', 'e', 's', 't']
}

/// A range that asks for the `latest` tag: empty, `latest` or `*`.
pub open spec fn asks_latest(t: Seq<char>) -> bool {
    t.len() == 0 || t == latest_text() || t == seq!['*']
}

/// The rewritten alternatives that `semver` accepts, in order.
pub open spec fn valid_reqs(alts: Seq<Seq<char>>) -> Seq<Seq<char>>
    decreases alts.len(),
{
    if alts.len() == 0 {
        seq![]
    } else if spec_req_valid(alts.last()) {
        valid_reqs(alts.drop_last()).push(alts.last())
    } else {
        valid_reqs(alts.drop_last())
    }
}

/// Whether version text `k` parses and satisfies one of the requirements.
pub open spec fn acceptable(k: Seq<char>, reqs: Seq<Seq<char>>) -> bool {
    spec_version_valid(k) && exists|j: int| 0 <= j < reqs.len() && #[trigger] spec_req_matches(reqs[j], k)
}

/// The highest acceptable version text among `keys`, scanning from the
/// front and keeping a later candidate when it is above the current one.
pub open spec fn pick_best(keys: Seq<Seq<char>>, reqs: Seq<Seq<char>>) -> Option<Seq<char>>
    decreases keys.len(),
{
    if keys.len() == 0 {
        None
    } else {
        let prev = pick_best(keys.drop_last(), reqs);
        let k = keys.last();
        if acceptable(k, reqs) {
            match prev {
                None => Some(k),
                Some(b) => if spec_version_lt(b, k) {
                    Some(k)
                } else {
                    Some(b)
                },
            }
        } else {
            prev
        }
    }
}

/// The outcome of choosing a version of the package `name`, with tags
/// `tags` and published versions `keys`, for the npm range `range`.
pub open spec fn best_version_outcome(
    name: Seq<char>,
    tags: Map<Seq<char>, String>,
    keys: Seq<Seq<char>>,
    range: Seq<char>,
) -> Result<Seq<char>, ResolveErrorView> {
    let t = trim(range);
    if asks_latest(t) && tags.contains_key(latest_text()) {
        Ok(tags[latest_text()]@)
    } else {
        let reqs = valid_reqs(normalized_alternatives(t));
        if reqs.len() == 0 && !spec_req_valid(t) {
            Err(ResolveErrorView::InvalidRequirement { requirement: t, package: name })
        } else {
            match pick_best(keys, reqs) {
                None => Err(ResolveErrorView::NoMatchingVersion { package: name, requirement: t }),
                Some(b) => Ok(spec_version_display(b)),
            }
        }
    }
}

/// The texts of a list of parsed requirements.
pub open spec fn req_texts(reqs: Seq<ParsedReq>) -> Seq<Seq<char>> {
    reqs.map_values(|q: ParsedReq| q@)
}

/// Law: a range that is empty, `latest` or `*` (after trimming) takes the
/// package's `latest` tag when it has one; any other range is decided
/// without looking at the tags.
pub proof fn law_latest_tag(
    name: Seq<char>,
    tags: Map<Seq<char>, String>,
    other_tags: Map<Seq<char>, String>,
    keys: Seq<Seq<char>>,
    range: Seq<char>,
)
    ensures
        (trim(range).len() == 0 || trim(range) == seq!['l', 'a', 't', 'e', 's', 't'] || trim(range)
            == seq!['*']) && tags.contains_key(seq!['l', 'a', 't', 'e', 's', 't'])
            ==> best_version_outcome(name, tags, keys, range) == Ok::<Seq<char>, ResolveErrorView>(
            tags[seq!['l', 'a', 't', 'e', 's', 't']]@,
        ),
        !(trim(range).len() == 0 || trim(range) == seq!['l', 'a', 't', 'e', 's', 't'] || trim(range)
            == seq!['*']) ==> best_version_outcome(name, tags, keys, range) == best_version_outcome(
            name,
            other_tags,
            keys,
            range,
        ),
{
}

/// Law: the requirement list keeps every alternative that `semver`
/// accepts, and only such alternatives.
pub proof fn law_valid_reqs_keeps_valid(alts: Seq<Seq<char>>)
    ensures
        forall|i: int|
            0 <= i < alts.len() && spec_req_valid(#[trigger] alts[i]) ==> valid_reqs(alts).contains(alts[i]),
        forall|j: int|
            0 <= j < valid_reqs(alts).len() ==> spec_req_valid(#[trigger] valid_reqs(alts)[j]) && alts.contains(
                valid_reqs(alts)[j],
            ),
    decreases alts.len(),
{
    if alts.len() > 0 {
        let t = alts.drop_last();
        law_valid_reqs_keeps_valid(t);
        let v = valid_reqs(alts);
        let vt = valid_reqs(t);
        assert forall|i: int| 0 <= i < alts.len() && spec_req_valid(#[trigger] alts[i]) implies v.contains(alts[i]) by {
            if i < alts.len() - 1 {
                assert(alts[i] == t[i]);
                assert(vt.contains(t[i]));
                let m = choose|m: int| 0 <= m < vt.len() && vt[m] == t[i];
                assert(v[m] == vt[m]);
            } else {
                assert(v[v.len() - 1] == alts.last());
            }
        }
        assert forall|j: int| 0 <= j < v.len() implies spec_req_valid(#[trigger] v[j]) && alts.contains(v[j]) by {
            if j < vt.len() {
                assert(v[j] == vt[j]);
                assert(spec_req_valid(vt[j]) && t.contains(vt[j]));
                let m = choose|m: int| 0 <= m < t.len() && t[m] == vt[j];
                assert(alts[m] == t[m]);
            } else {
                assert(v[j] == alts.last());
                assert(alts[alts.len() - 1] == alts.last());
            }
        }
    }
}

/// Law: a published version that satisfies any one `||` alternative of the
/// range (one that `semver` accepts) is never above the chosen version,
/// when `semver`'s order is a strict total order on the acceptable
/// versions: the choice succeeds, and what it shows is a published,
/// acceptable version that the given one is not above.
pub proof fn law_best_covers_alternative(
    name: Seq<char>,
    tags: Map<Seq<char>, String>,
    keys: Seq<Seq<char>>,
    range: Seq<char>,
    i: int,
    k: Seq<char>,
)
    requires
        !(asks_latest(trim(range)) && tags.contains_key(latest_text())),
        0 <= i < normalized_alternatives(trim(range)).len(),
        spec_req_valid(normalized_alternatives(trim(range))[i]),
        keys.contains(k),
        spec_version_valid(k),
        spec_req_matches(normalized_alternatives(trim(range))[i], k),
        forall|a: Seq<char>|
            #[trigger] keys.contains(a) && acceptable(a, valid_reqs(normalized_alternatives(trim(range))))
                ==> !spec_version_lt(a, a),
        forall|a: Seq<char>, b: Seq<char>, c: Seq<char>|
            keys.contains(a) && acceptable(a, valid_reqs(normalized_alternatives(trim(range))))
                && keys.contains(b) && acceptable(b, valid_reqs(normalized_alternatives(trim(range))))
                && keys.contains(c) && acceptable(c, valid_reqs(normalized_alternatives(trim(range))))
                && #[trigger] spec_version_lt(a, b) && #[trigger] spec_version_lt(b, c) ==> spec_version_lt(
                a,
                c,
            ),
        forall|a: Seq<char>, b: Seq<char>|
            keys.contains(a) && acceptable(a, valid_reqs(normalized_alternatives(trim(range))))
                && keys.contains(b) && acceptable(b, valid_reqs(normalized_alternatives(trim(range)))) && a
                != b ==> #[trigger] spec_version_lt(a, b) || #[trigger] spec_version_lt(b, a),
    ensures
        exists|b: Seq<char>|
            #[trigger] keys.contains(b) && acceptable(b, valid_reqs(normalized_alternatives(trim(range))))
                && !spec_version_lt(b, k) && best_version_outcome(name, tags, keys, range) == Ok::<
                Seq<char>,
                ResolveErrorView,
            >(spec_version_display(b)),
{
    let alts = normalized_alternatives(trim(range));
    let reqs = valid_reqs(alts);
    law_valid_reqs_keeps_valid(alts);
    assert(reqs.contains(alts[i]));
    let j = choose|j: int| 0 <= j < reqs.len() && reqs[j] == alts[i];
    assert(spec_req_matches(reqs[j], k));
    assert(acceptable(k, reqs));
    law_best_is_acceptable(keys, reqs);
    let m = choose|m: int| 0 <= m < keys.len() && keys[m] == k;
    assert(!acceptable(keys[m], reqs) == false);
    let b = pick_best(keys, reqs).unwrap();
    law_best_is_highest(keys, reqs);
    assert(acceptable(keys[m], reqs));
    assert(!spec_version_lt(b, keys[m]));
}

/// Law: the chosen version is one of the published ones and satisfies
/// one of the requirements; nothing is chosen only when no published
/// version does.
pub proof fn law_best_is_acceptable(keys: Seq<Seq<char>>, reqs: Seq<Seq<char>>)
    ensures
        pick_best(keys, reqs) matches Some(b) ==> keys.contains(b) && acceptable(b, reqs),
        pick_best(keys, reqs) is None <==> forall|i: int| 0 <= i < keys.len() ==> !acceptable(
            #[trigger] keys[i],
            reqs,
        ),
    decreases keys.len(),
{
    if keys.len() > 0 {
        let t = keys.drop_last();
        law_best_is_acceptable(t, reqs);
        if let Some(b) = pick_best(t, reqs) {
            let j = choose|j: int| 0 <= j < t.len() && t[j] == b;
            assert(keys[j] == b);
        }
        if pick_best(keys, reqs) is None {
            assert forall|i: int| 0 <= i < keys.len() implies !acceptable(#[trigger] keys[i], reqs) by {
                if i < keys.len() - 1 {
                    assert(keys[i] == t[i]);
                }
            }
        }
        assert(keys[keys.len() - 1] == keys.last());
        if forall|i: int| 0 <= i < keys.len() ==> !acceptable(#[trigger] keys[i], reqs) {
            assert forall|i: int| 0 <= i < t.len() implies !acceptable(#[trigger] t[i], reqs) by {
                assert(keys[i] == t[i]);
            }
        }
    }
}

/// Law: when `semver`'s order is a strict total order on the published
/// versions that satisfy the range (those that do not parse are skipped
/// and need not be ordered), the chosen version is above no other
/// acceptable one, i.e. it is the highest version that satisfies the range.
pub proof fn law_best_is_highest(keys: Seq<Seq<char>>, reqs: Seq<Seq<char>>)
    requires
        forall|a: Seq<char>|
            #[trigger] keys.contains(a) && acceptable(a, reqs) ==> !spec_version_lt(a, a),
        forall|a: Seq<char>, b: Seq<char>, c: Seq<char>|
            keys.contains(a) && acceptable(a, reqs) && keys.contains(b) && acceptable(b, reqs)
                && keys.contains(c) && acceptable(c, reqs) && #[trigger] spec_version_lt(a, b)
                && #[trigger] spec_version_lt(b, c) ==> spec_version_lt(a, c),
        forall|a: Seq<char>, b: Seq<char>|
            keys.contains(a) && acceptable(a, reqs) && keys.contains(b) && acceptable(b, reqs) && a
                != b ==> #[trigger] spec_version_lt(a, b) || #[trigger] spec_version_lt(b, a),
    ensures
        pick_best(keys, reqs) matches Some(b) ==> forall|i: int|
            0 <= i < keys.len() && acceptable(#[trigger] keys[i], reqs) ==> !spec_version_lt(b, keys[i]),
    decreases keys.len(),
{
    if keys.len() > 0 {
        let t = keys.drop_last();
        assert forall|a: Seq<char>| t.contains(a) implies keys.contains(a) by {
            let j = choose|j: int| 0 <= j < t.len() && t[j] == a;
            assert(keys[j] == a);
        }
        law_best_is_highest(t, reqs);
        law_best_is_acceptable(t, reqs);
        let k = keys.last();
        assert(keys.contains(k)) by {
            assert(keys[keys.len() - 1] == k);
        }
        if let Some(b) = pick_best(keys, reqs) {
            assert forall|i: int| 0 <= i < keys.len() && acceptable(#[trigger] keys[i], reqs) implies !spec_version_lt(
                b,
                keys[i],
            ) by {
                assert(keys.contains(keys[i]));
                if i < keys.len() - 1 {
                    assert(keys[i] == t[i]);
                    if let Some(pb) = pick_best(t, reqs) {
                        assert(t.contains(pb));
                        if b != pb {
                            if spec_version_lt(b, keys[i]) {
                                assert(spec_version_lt(pb, b));
                                assert(spec_version_lt(pb, keys[i]));
                            }
                        }
                    } else {
                        assert(!acceptable(t[i], reqs));
                    }
                } else {
                    if b != k {
                        let pb = pick_best(t, reqs).unwrap();
                        assert(!spec_version_lt(pb, k));
                        assert(b == pb);
                    }
                }
            }
        }
    }
}

/// Whether one of the parsed requirements matches `v`.
fn matches_any(reqs: &Vec<ParsedReq>, v: &ParsedVersion) -> (r: bool)
    ensures
        r == exists|j: int|
            0 <= j < reqs@.len() && #[trigger] spec_req_matches(req_texts(reqs@)[j], v@),
{
    let ghost rv = req_texts(reqs@);
    let mut j: usize = 0;
    while j < reqs.len()
        invariant
            j <= reqs@.len(),
            rv == req_texts(reqs@),
            forall|i: int| 0 <= i < j ==> !#[trigger] spec_req_matches(rv[i], v@),
        decreases reqs.len() - j,
    {
        if req_matches(&reqs[j], v) {
            assert(spec_req_matches(rv[j as int], v@));
            return true;
        }
        j += 1;
    }
    false
}

/// Finds the highest published version of a package that satisfies an npm
/// range; `""`, `latest` and `*` take the `latest` tag when there is one.
pub fn resolve_best_version(metadata: &PackageMetadata, version_req_str: &str) -> (r: Result<
    String,
    ResolveError,
>)
    ensures
        outcome_view(r) == best_version_outcome(
            metadata.name@,
            metadata.dist_tags@,
            metadata.versions.key_seq(),
            version_req_str@,
        ),
{
    let rc = chars_of(version_req_str);
    let t = trim_exec(rc.as_slice());
    let latest = vec!['l', 'a', 't', 'e', 's', 't'];
    let star = vec!['*'];
    assert(latest@ =~= latest_text());
    assert(star@ =~= seq!['*']);
    let is_latest = t.len() == 0 || (t.len() == 6 && matches_at_exec(t.as_slice(), 0, latest.as_slice()))
        || (t.len() == 1 && matches_at_exec(t.as_slice(), 0, star.as_slice()));
    proof {
        if t@.len() == 6 {
            assert(t@.subrange(0, 6) =~= t@);
        }
        if t@.len() == 1 {
            assert(t@.subrange(0, 1) =~= t@);
        }
    }
    assert(is_latest == asks_latest(t@));
    if is_latest {
        let tag = string_from(latest.as_slice());
        match metadata.dist_tags.get(tag.as_str()) {
            Some(v) => {
                return Ok(v.clone());
            },
            None => {},
        }
    }
    let alts = normalized_alternatives_exec(t.as_slice());
    let mut reqs: Vec<ParsedReq> = Vec::new();
    let mut k: usize = 0;
    while k < alts.len()
        invariant
            k <= alts@.len(),
            views(alts@) == normalized_alternatives(t@),
            req_texts(reqs@) == valid_reqs(views(alts@).subrange(0, k as int)),
        decreases alts.len() - k,
    {
        let s = string_from(alts[k].as_slice());
        let ghost before = req_texts(reqs@);
        proof {
            let sub = views(alts@).subrange(0, k + 1);
            assert(sub.drop_last() =~= views(alts@).subrange(0, k as int));
            assert(sub.last() == alts@[k as int]@);
        }
        match parse_req(s.as_str()) {
            Some(q) => {
                reqs.push(q);
                assert(req_texts(reqs@) =~= before.push(alts@[k as int]@));
            },
            None => {},
        }
        k += 1;
    }
    assert(views(alts@).subrange(0, alts@.len() as int) =~= views(alts@));
    let ghost rv = req_texts(reqs@);
    if reqs.len() == 0 {
        let ts = string_from(t.as_slice());
        if parse_req(ts.as_str()).is_none() {
            return Err(
                ResolveError::InvalidRequirement { requirement: ts, package: metadata.name.clone() },
            );
        }
    }
    let entries = metadata.versions.entries();
    let ghost keys = metadata.versions.key_seq();
    let mut best: Option<ParsedVersion> = None;
    let mut i: usize = 0;
    while i < entries.len()
        invariant
            i <= entries@.len(),
            keys == entries@.map_values(|e: (String, crate::registry::VersionMetadata)| e.0@),
            rv == req_texts(reqs@),
            (match best {
                None => pick_best(keys.subrange(0, i as int), rv) is None,
                Some(b) => pick_best(keys.subrange(0, i as int), rv) == Some(b@),
            }),
        decreases entries.len() - i,
    {
        proof {
            let sub = keys.subrange(0, i + 1);
            assert(sub.drop_last() =~= keys.subrange(0, i as int));
            assert(sub.last() == entries@[i as int].0@);
        }
        match parse_version(entries[i].0.as_str()) {
            Some(v) => {
                if matches_any(&reqs, &v) {
                    best = match best {
                        None => Some(v),
                        Some(b) => if version_lt(&b, &v) {
                            Some(v)
                        } else {
                            Some(b)
                        },
                    };
                }
            },
            None => {},
        }
        i += 1;
    }
    assert(keys.subrange(0, entries@.len() as int) =~= keys);
    match best {
        None => Err(
            ResolveError::NoMatchingVersion {
                package: metadata.name.clone(),
                requirement: string_from(t.as_slice()),
            },
        ),
        Some(b) => Ok(version_to_string(&b)),
    }
}

/// The contents of an optional string.
pub open spec fn opt_text(o: Option<String>) -> Option<Seq<char>> {
    match o {
        Some(s) => Some(s@),
        None => None,
    }
}

/// The dependency map of a version's metadata, empty when it names none.
pub open spec fn deps_of(vm: VersionMetadata) -> Map<Seq<char>, String> {
    match vm.dependencies {
        Some(m) => m@,
        None => Map::empty(),
    }
}

/// The dependency entries of a version's metadata in key order.
pub open spec fn dep_entries_of(vm: VersionMetadata) -> Seq<(String, String)> {
    match vm.dependencies {
        Some(m) => m.entry_seq(),
        None => seq![],
    }
}

/// Whether `p` is the package `name` at version `version` as `vm`
/// describes it.
pub open spec fn describes(p: ResolvedPackage, name: Seq<char>, version: Seq<char>, vm: VersionMetadata) -> bool {
    &&& p.name@ == name
    &&& p.version@ == version
    &&& p.tarball@ == vm.dist.tarball@
    &&& p.shasum@ == vm.dist.shasum@
    &&& opt_text(p.integrity) == opt_text(vm.dist.integrity)
    &&& p.dependencies@ == deps_of(vm)
    &&& p.dependencies.entry_seq() == dep_entries_of(vm)
}

/// The queue entries, as texts.
pub open spec fn pair_texts(q: Seq<(String, String)>) -> Seq<(Seq<char>, Seq<char>)> {
    q.map_values(|e: (String, String)| (e.0@, e.1@))
}

/// The entries of `deps` whose name is not in `seen`, in order.
pub open spec fn unseen(deps: Seq<(String, String)>, seen: Set<Seq<char>>) -> Seq<(Seq<char>, Seq<char>)>
    decreases deps.len(),
{
    if deps.len() == 0 {
        seq![]
    } else if seen.contains(deps.last().0@) {
        unseen(deps.drop_last(), seen)
    } else {
        unseen(deps.drop_last(), seen).push((deps.last().0@, deps.last().1@))
    }
}

/// Whether some queue entry names `d`.
pub open spec fn queued(q: Seq<(Seq<char>, Seq<char>)>, d: Seq<char>) -> bool {
    exists|i: int| 0 <= i < q.len() && #[trigger] q[i].0 == d
}

/// The state of a dependency walk: packages resolved so far, names still
/// to resolve (taken from the back), names already taken, and the name
/// whose metadata is awaited.
pub struct ResolveState {
    resolved: StrMap<ResolvedPackage>,
    queue: Vec<(String, String)>,
    visited: StrMap<()>,
    pending: Option<(String, String)>,
    roots: Ghost<Set<Seq<char>>>,
}

impl ResolveState {
    /// The packages resolved so far, by name.
    pub closed spec fn resolved_map(&self) -> Map<Seq<char>, ResolvedPackage> {
        self.resolved@
    }

    /// The resolved packages in name order.
    pub closed spec fn resolved_entries(&self) -> Seq<(String, ResolvedPackage)> {
        self.resolved.entry_seq()
    }

    /// The names and ranges still to resolve; the last is taken first.
    pub closed spec fn queue_view(&self) -> Seq<(Seq<char>, Seq<char>)> {
        pair_texts(self.queue@)
    }

    /// The names already taken from the queue.
    pub closed spec fn visited_set(&self) -> Set<Seq<char>> {
        self.visited@.dom()
    }

    /// The name and range whose metadata is awaited.
    pub closed spec fn pending_view(&self) -> Option<(Seq<char>, Seq<char>)> {
        match self.pending {
            Some(p) => Some((p.0@, p.1@)),
            None => None,
        }
    }

    /// The names that the walk started from.
    pub closed spec fn roots(&self) -> Set<Seq<char>> {
        self.roots@
    }

    /// Whether a name is called for: it is a root, or a dependency of a
    /// resolved package.
    pub open spec fn required(&self, d: Seq<char>) -> bool {
        ||| self.roots().contains(d)
        ||| exists|k: Seq<char>|
            #[trigger] self.resolved_map().contains_key(k) && self.resolved_map()[k].dependencies@.contains_key(d)
    }

    /// Nothing is queued and nothing is awaited.
    pub open spec fn is_done(&self) -> bool {
        self.queue_view().len() == 0 && self.pending_view() is None
    }

    /// The state's invariant: each package is filed under its own name;
    /// the taken names are the resolved ones and the awaited one; every
    /// root and every dependency of a resolved package is taken or queued;
    /// and every resolved, queued or awaited name is called for.
    pub open spec fn wf(&self) -> bool {
        &&& forall|k: Seq<char>| #[trigger]
            self.resolved_map().contains_key(k) ==> self.resolved_map()[k].name@ == k
        &&& forall|k: Seq<char>| #[trigger]
            self.visited_set().contains(k) <==> (self.resolved_map().contains_key(k) || (
            self.pending_view() matches Some(p) && p.0 == k))
        &&& (self.pending_view() matches Some(p) ==> !self.resolved_map().contains_key(p.0))
        &&& forall|k: Seq<char>, d: Seq<char>|
            #![trigger self.resolved_map()[k].dependencies@.contains_key(d)]
            self.resolved_map().contains_key(k) && self.resolved_map()[k].dependencies@.contains_key(d)
                ==> self.visited_set().contains(d) || queued(self.queue_view(), d)
        &&& forall|d: Seq<char>| #[trigger]
            self.roots().contains(d) ==> self.visited_set().contains(d) || queued(self.queue_view(), d)
        &&& forall|k: Seq<char>| #[trigger] self.resolved_map().contains_key(k) ==> self.required(k)
        &&& forall|i: int|
            0 <= i < self.queue_view().len() ==> self.required(#[trigger] self.queue_view()[i].0)
        &&& (self.pending_view() matches Some(p) ==> self.required(p.0))
    }

    /// A name called for stays called for while resolved packages are
    /// only added.
    proof fn lemma_required_grows(&self, prev: &Self, d: Seq<char>)
        requires
            prev.required(d),
            self.roots() == prev.roots(),
            forall|k: Seq<char>| #[trigger]
                prev.resolved_map().contains_key(k) ==> self.resolved_map().contains_key(k)
                    && self.resolved_map()[k] == prev.resolved_map()[k],
        ensures
            self.required(d),
    {
        if !prev.roots().contains(d) {
            let k = choose|k: Seq<char>|
                #[trigger] prev.resolved_map().contains_key(k) && prev.resolved_map()[k].dependencies@.contains_key(d);
            assert(self.resolved_map().contains_key(k));
        }
    }

    /// A walk that starts from the dependencies `deps`.
    pub fn start(deps: &StrMap<String>) -> (r: Self)
        ensures
            r.wf(),
            r.queue_view() == pair_texts(deps.entry_seq()),
            r.resolved_map() == Map::<Seq<char>, ResolvedPackage>::empty(),
            r.visited_set() == Set::<Seq<char>>::empty(),
            r.pending_view() is None,
            r.roots() == deps@.dom(),
    {
        let entries = deps.entries();
        let mut queue: Vec<(String, String)> = Vec::new();
        let mut i: usize = 0;
        while i < entries.len()
            invariant
                i <= entries@.len(),
                queue@.len() == i,
                forall|j: int| 0 <= j < i ==> #[trigger] queue@[j].0@ == entries@[j].0@ && queue@[j].1@
                    == entries@[j].1@,
            decreases entries.len() - i,
        {
            queue.push((entries[i].0.clone(), entries[i].1.clone()));
            i += 1;
        }
        assert(pair_texts(queue@) =~= pair_texts(entries@));
        let r = ResolveState {
            resolved: StrMap::new(),
            queue,
            visited: StrMap::new(),
            pending: None,
            roots: Ghost(deps@.dom()),
        };
        proof {
            assert(r.visited_set() =~= Set::<Seq<char>>::empty());
            assert forall|d: Seq<char>| #[trigger] r.roots().contains(d) implies r.visited_set().contains(d)
                || queued(r.queue_view(), d) by {
                let j = choose|j: int| 0 <= j < entries@.len() && entries@[j].0@ == d;
                assert(r.queue_view()[j].0 == d);
            }
            assert forall|i: int| 0 <= i < r.queue_view().len() implies r.required(
                #[trigger] r.queue_view()[i].0,
            ) by {
                assert(r.queue_view()[i].0 == entries@[i].0@);
                assert(deps@.contains_key(entries@[i].0@));
            }
        }
        r
    }

    /// Takes the next name to resolve from the back of the queue, skipping
    /// names already taken; `None` when the queue runs out.
    pub fn next_request(&mut self) -> (r: Option<(String, String)>)
        requires
            old(self).wf(),
            old(self).pending_view() is None,
        ensures
            final(self).wf(),
            final(self).resolved_map() == old(self).resolved_map(),
            final(self).resolved_entries() == old(self).resolved_entries(),
            final(self).roots() == old(self).roots(),
            r is None ==> final(self).is_done(),
            r matches Some(p) ==> {
                &&& final(self).pending_view() == Some((p.0@, p.1@))
                &&& !old(self).visited_set().contains(p.0@)
                &&& final(self).visited_set() == old(self).visited_set().insert(p.0@)
                &&& exists|n: int|
                    0 <= n < old(self).queue_view().len() && final(self).queue_view()
                        == old(self).queue_view().subrange(0, n) && old(self).queue_view()[n] == (p.0@, p.1@)
                        && forall|m: int| n < m < old(self).queue_view().len()
                            ==> old(self).visited_set().contains(#[trigger] old(self).queue_view()[m].0)
            },
    {
        let ghost q0 = self.queue_view();
        loop
            invariant
                self.wf(),
                self.pending_view() is None,
                self.resolved_map() == old(self).resolved_map(),
                self.resolved_entries() == old(self).resolved_entries(),
                self.roots() == old(self).roots(),
                self.visited_set() == old(self).visited_set(),
                q0 == old(self).queue_view(),
                self.queue_view().len() <= q0.len(),
                self.queue_view() == q0.subrange(0, self.queue_view().len() as int),
                forall|m: int| self.queue_view().len() <= m < q0.len()
                    ==> old(self).visited_set().contains(#[trigger] q0[m].0),
            decreases self.queue@.len(),
        {
            let ghost qb = self.queue_view();
            match self.queue.pop() {
                None => {
                    return None;
                },
                Some(entry) => {
                    assert(self.queue_view() =~= qb.drop_last());
                    assert(qb.last() == (entry.0@, entry.1@));
                    proof {
                        assert forall|i: int| 0 <= i < self.queue_view().len() implies self.required(
                            #[trigger] self.queue_view()[i].0,
                        ) by {
                            assert(self.queue_view()[i] == qb[i]);
                            assert(self.required(qb[i].0));
                        }
                        assert(self.required(qb[qb.len() - 1].0));
                    }
                    if self.visited.contains_key(entry.0.as_str()) {
                        proof {
                            assert forall|d: Seq<char>| queued(qb, d) && !self.visited_set().contains(d)
                                implies queued(self.queue_view(), d) by {
                                let j = choose|j: int| 0 <= j < qb.len() && qb[j].0 == d;
                                assert(j != qb.len() - 1);
                                assert(self.queue_view()[j].0 == d);
                            }
                        }
                    } else {
                        let (name, req) = entry;
                        let ghost nv = name@;
                        self.visited.insert(name.clone(), ());
                        let r = (name.clone(), req.clone());
                        self.pending = Some((name, req));
                        proof {
                            assert(self.visited_set() =~= old(self).visited_set().insert(nv));
                            assert forall|d: Seq<char>| queued(qb, d) && !self.visited_set().contains(d)
                                implies queued(self.queue_view(), d) by {
                                let j = choose|j: int| 0 <= j < qb.len() && qb[j].0 == d;
                                assert(j != qb.len() - 1);
                                assert(self.queue_view()[j].0 == d);
                            }
                            let n = qb.len() - 1;
                            assert(self.queue_view() =~= old(self).queue_view().subrange(0, n));
                        }
                        return Some(r);
                    }
                },
            }
        }
    }

    /// Resolves the awaited name with its registry metadata: picks the best
    /// version for its range, files the package under its name, and queues
    /// those of its dependencies whose names were not taken yet, in name
    /// order. On an error the state is left as it was.
    pub fn accept(&mut self, metadata: &PackageMetadata) -> (r: Result<(), ResolveError>)
        requires
            old(self).wf(),
            old(self).pending_view() is Some,
        ensures
            ({
                let (name, req) = old(self).pending_view().unwrap();
                match best_version_outcome(
                    metadata.name@,
                    metadata.dist_tags@,
                    metadata.versions.key_seq(),
                    req,
                ) {
                    Err(e) => r matches Err(x) && x@ == e && *final(self) == *old(self),
                    Ok(v) => if !metadata.versions@.contains_key(v) {
                        &&& r matches Err(x)
                        &&& x@ == ResolveErrorView::VersionNotFound { package: name, version: v }
                        &&& *final(self) == *old(self)
                    } else {
                        &&& r is Ok
                        &&& final(self).wf()
                        &&& final(self).pending_view() is None
                        &&& final(self).visited_set() == old(self).visited_set()
                        &&& final(self).roots() == old(self).roots()
                        &&& exists|p: ResolvedPackage|
                            describes(p, name, v, metadata.versions@[v]) && final(self).resolved_map()
                                == old(self).resolved_map().insert(name, p)
                        &&& final(self).queue_view() == old(self).queue_view() + unseen(
                            dep_entries_of(metadata.versions@[v]),
                            old(self).visited_set(),
                        )
                        &&& forall|j: int|
                            old(self).queue_view().len() <= j < final(self).queue_view().len() ==> {
                                let (d, range) = #[trigger] final(self).queue_view()[j];
                                &&& deps_of(metadata.versions@[v]).contains_key(d)
                                &&& deps_of(metadata.versions@[v])[d]@ == range
                                &&& !old(self).visited_set().contains(d)
                            }
                    },
                }
            }),
    {
        let (name, req) = match &self.pending {
            Some(p) => (p.0.clone(), p.1.clone()),
            None => (String::new(), String::new()),
        };
        let version = match resolve_best_version(metadata, req.as_str()) {
            Ok(v) => v,
            Err(e) => {
                return Err(e);
            },
        };
        let vm = match metadata.versions.get(version.as_str()) {
            Some(vm) => vm,
            None => {
                return Err(ResolveError::VersionNotFound { package: name, version });
            },
        };
        let deps = match &vm.dependencies {
            Some(m) => m.duplicate(),
            None => StrMap::new(),
        };
        assert(deps.entry_seq() =~= dep_entries_of(*vm));
        let ghost old_q = self.queue_view();
        let ghost seen = self.visited_set();
        let entries = deps.entries();
        let mut i: usize = 0;
        while i < entries.len()
            invariant
                i <= entries@.len(),
                entries@ == dep_entries_of(*vm),
                self.visited_set() == seen,
                self.visited == old(self).visited,
                self.resolved == old(self).resolved,
                self.pending == old(self).pending,
                self.roots == old(self).roots,
                self.queue_view() == old_q + unseen(entries@.subrange(0, i as int), seen),
                old_q == old(self).queue_view(),
            decreases entries.len() - i,
        {
            let ghost before = self.queue_view();
            proof {
                let sub = entries@.subrange(0, i + 1);
                assert(sub.drop_last() =~= entries@.subrange(0, i as int));
                assert(sub.last() == entries@[i as int]);
            }
            if !self.visited.contains_key(entries[i].0.as_str()) {
                self.queue.push((entries[i].0.clone(), entries[i].1.clone()));
                assert(self.queue_view() =~= before.push((entries@[i as int].0@, entries@[i as int].1@)));
            }
            i += 1;
        }
        assert(entries@.subrange(0, i as int) =~= entries@);
        proof {
            law_queued_ranges_declared(entries@, seen);
            let u = unseen(entries@, seen);
            assert forall|j: int| old_q.len() <= j < self.queue_view().len() implies {
                let (d, range) = #[trigger] self.queue_view()[j];
                &&& deps@.contains_key(d)
                &&& deps@[d]@ == range
                &&& !seen.contains(d)
            } by {
                let jj = j - old_q.len();
                assert(self.queue_view()[j] == u[jj]);
                let m = choose|m: int|
                    0 <= m < entries@.len() && entries@[m].0@ == u[jj].0 && entries@[m].1@ == u[jj].1
                        && !seen.contains(entries@[m].0@);
                assert(deps@.contains_key(entries@[m].0@));
            }
        }
        let pkg = ResolvedPackage {
            name: name.clone(),
            version,
            tarball: vm.dist.tarball.clone(),
            shasum: vm.dist.shasum.clone(),
            integrity: clone_opt(&vm.dist.integrity),
            dependencies: deps,
        };
        let ghost gp = pkg;
        self.resolved.insert(name, pkg);
        self.pending = None;
        proof {
            let nm = old(self).pending_view().unwrap().0;
            assert(describes(gp, nm, gp.version@, *vm));
            assert(self.resolved_map() == old(self).resolved_map().insert(nm, gp));
            self.lemma_accept_wf(old(self), nm, gp, seen, old_q);
        }
        Ok(())
    }

    proof fn lemma_accept_wf(&self, prev: &Self, nm: Seq<char>, p: ResolvedPackage, seen: Set<Seq<char>>, old_q: Seq<(Seq<char>, Seq<char>)>)
        requires
            prev.wf(),
            prev.pending_view() matches Some(pp) && pp.0 == nm,
            p.name@ == nm,
            self.resolved_map() == prev.resolved_map().insert(nm, p),
            self.pending_view() is None,
            self.visited_set() == prev.visited_set(),
            seen == prev.visited_set(),
            self.roots() == prev.roots(),
            old_q == prev.queue_view(),
            self.queue_view() == old_q + unseen(p.dependencies.entry_seq(), seen),
            p.dependencies@ == crate::strmap::map_of(p.dependencies.entry_seq()),
            forall|k: Seq<char>| #[trigger] p.dependencies@.contains_key(k) ==> exists|i: int|
                0 <= i < p.dependencies.entry_seq().len() && p.dependencies.entry_seq()[i].0@ == k,
            forall|i: int|
                0 <= i < p.dependencies.entry_seq().len() ==> #[trigger] p.dependencies@.contains_key(
                    p.dependencies.entry_seq()[i].0@,
                ),
        ensures
            self.wf(),
    {
        assert(!prev.resolved_map().contains_key(nm));
        assert forall|k: Seq<char>| #[trigger] prev.resolved_map().contains_key(k) implies self.resolved_map().contains_key(k)
            && self.resolved_map()[k] == prev.resolved_map()[k] by {
            assert(k != nm);
        }
        assert(self.resolved_map().contains_key(nm));
        assert forall|k: Seq<char>| #[trigger] self.resolved_map().contains_key(k) implies self.required(k) by {
            if k == nm {
                self.lemma_required_grows(prev, nm);
            } else {
                self.lemma_required_grows(prev, k);
            }
        }
        let u = unseen(p.dependencies.entry_seq(), seen);
        assert forall|i: int| 0 <= i < self.queue_view().len() implies self.required(
            #[trigger] self.queue_view()[i].0,
        ) by {
            if i < old_q.len() {
                assert(self.queue_view()[i] == old_q[i]);
                assert(prev.required(old_q[i].0));
                self.lemma_required_grows(prev, old_q[i].0);
            } else {
                let j = i - old_q.len();
                assert(self.queue_view()[i] == u[j]);
                lemma_unseen_from(p.dependencies.entry_seq(), seen, j);
                let m = choose|m: int|
                    0 <= m < p.dependencies.entry_seq().len() && p.dependencies.entry_seq()[m].0@ == u[j].0;
                assert(p.dependencies@.contains_key(p.dependencies.entry_seq()[m].0@));
                assert(self.resolved_map()[nm] == p);
            }
        }
        let q = self.queue_view();
        assert forall|d: Seq<char>| queued(old_q, d) implies queued(q, d) by {
            let j = choose|j: int| 0 <= j < old_q.len() && old_q[j].0 == d;
            assert(q[j] == old_q[j]);
        }
        let es = p.dependencies.entry_seq();
        assert forall|d: Seq<char>| #[trigger] p.dependencies@.contains_key(d) implies self.visited_set().contains(d)
            || queued(q, d) by {
            let i = choose|i: int| 0 <= i < es.len() && es[i].0@ == d;
            lemma_unseen_covers(es, seen, i);
            if !seen.contains(d) {
                let j = choose|j: int| 0 <= j < unseen(es, seen).len() && unseen(es, seen)[j].0 == d;
                assert(q[old_q.len() + j] == unseen(es, seen)[j]);
            }
        }
        assert forall|k: Seq<char>, d: Seq<char>|
            self.resolved_map().contains_key(k) && #[trigger] self.resolved_map()[k].dependencies@.contains_key(d)
            implies self.visited_set().contains(d) || queued(q, d) by {
            if k != nm {
                assert(prev.resolved_map().contains_key(k));
                assert(self.resolved_map()[k] == prev.resolved_map()[k]);
                assert(prev.resolved_map()[k].dependencies@.contains_key(d));
                if !prev.visited_set().contains(d) {
                    assert(queued(old_q, d));
                }
            }
        }
    }
}

/// A copy of an optional string.
fn clone_opt(o: &Option<String>) -> (r: Option<String>)
    ensures
        opt_text(r) == opt_text(*o),
{
    match o {
        Some(s) => Some(s.clone()),
        None => None,
    }
}

/// Every unseen entry comes from `deps`.
proof fn lemma_unseen_from(deps: Seq<(String, String)>, seen: Set<Seq<char>>, j: int)
    requires
        0 <= j < unseen(deps, seen).len(),
    ensures
        exists|i: int| 0 <= i < deps.len() && deps[i].0@ == unseen(deps, seen)[j].0,
    decreases deps.len(),
{
    let t = deps.drop_last();
    if seen.contains(deps.last().0@) {
        lemma_unseen_from(t, seen, j);
        let i = choose|i: int| 0 <= i < t.len() && t[i].0@ == unseen(t, seen)[j].0;
        assert(deps[i] == t[i]);
    } else if j < unseen(t, seen).len() {
        lemma_unseen_from(t, seen, j);
        let i = choose|i: int| 0 <= i < t.len() && t[i].0@ == unseen(t, seen)[j].0;
        assert(deps[i] == t[i]);
    } else {
        assert(deps[deps.len() - 1].0@ == unseen(deps, seen)[j].0);
    }
}

/// Law: the names queued after a package is resolved come with the ranges
/// that its metadata declares for them: each queued pair is a dependency
/// entry, name and range, of the chosen version.
pub proof fn law_queued_ranges_declared(deps: Seq<(String, String)>, seen: Set<Seq<char>>)
    ensures
        forall|j: int|
            0 <= j < unseen(deps, seen).len() ==> exists|i: int|
                0 <= i < deps.len() && deps[i].0@ == (#[trigger] unseen(deps, seen)[j]).0 && deps[i].1@
                    == unseen(deps, seen)[j].1 && !seen.contains(deps[i].0@),
    decreases deps.len(),
{
    if deps.len() > 0 {
        let t = deps.drop_last();
        law_queued_ranges_declared(t, seen);
        let u = unseen(deps, seen);
        let ut = unseen(t, seen);
        assert forall|j: int| 0 <= j < u.len() implies exists|i: int|
            0 <= i < deps.len() && deps[i].0@ == (#[trigger] u[j]).0 && deps[i].1@ == u[j].1 && !seen.contains(
                deps[i].0@,
            ) by {
            if j < ut.len() {
                assert(u[j] == ut[j]);
                let i = choose|i: int|
                    0 <= i < t.len() && t[i].0@ == ut[j].0 && t[i].1@ == ut[j].1 && !seen.contains(t[i].0@);
                assert(deps[i] == t[i]);
            } else {
                assert(deps[deps.len() - 1] == deps.last());
            }
        }
    }
}

/// Every entry of `deps` is either seen or among the unseen ones.
pub proof fn lemma_unseen_covers(deps: Seq<(String, String)>, seen: Set<Seq<char>>, i: int)
    requires
        0 <= i < deps.len(),
    ensures
        seen.contains(deps[i].0@) || exists|j: int|
            0 <= j < unseen(deps, seen).len() && unseen(deps, seen)[j].0 == deps[i].0@,
    decreases deps.len(),
{
    if i < deps.len() - 1 {
        lemma_unseen_covers(deps.drop_last(), seen, i);
        assert(deps.drop_last()[i] == deps[i]);
        if !seen.contains(deps[i].0@) {
            let j = choose|j: int|
                0 <= j < unseen(deps.drop_last(), seen).len() && unseen(deps.drop_last(), seen)[j].0
                    == deps[i].0@;
            if !seen.contains(deps.last().0@) {
                assert(unseen(deps, seen)[j] == unseen(deps.drop_last(), seen)[j]);
            } else {
                assert(unseen(deps, seen) == unseen(deps.drop_last(), seen));
            }
            assert(0 <= j < unseen(deps, seen).len() && unseen(deps, seen)[j].0 == deps[i].0@);
        }
    } else if !seen.contains(deps[i].0@) {
        let u = unseen(deps, seen);
        assert(u[u.len() - 1].0 == deps[i].0@);
    }
}

impl ResolveState {
    /// The resolved packages in strictly increasing name order: each one
    /// is the package filed under its name, and every filed package comes
    /// out once.
    pub fn finish(self) -> (r: Vec<ResolvedPackage>)
        requires
            self.wf(),
        ensures
            r@ == self.resolved_entries().map_values(|e: (String, ResolvedPackage)| e.1),
            r@.len() == self.resolved_map().dom().len(),
            forall|i: int|
                0 <= i < r@.len() ==> self.resolved_map().contains_key(#[trigger] r@[i].name@)
                    && r@[i] == self.resolved_map()[r@[i].name@],
            forall|i: int, j: int|
                0 <= i < j < r@.len() ==> seq_lt(#[trigger] r@[i].name@, #[trigger] r@[j].name@),
            forall|k: Seq<char>| #[trigger]
                self.resolved_map().contains_key(k) ==> exists|i: int| 0 <= i < r@.len() && r@[i].name@ == k,
    {
        let _count: usize = self.resolved.len();
        let es = self.resolved.entries();
        let ghost e = es@;
        proof {
            assert forall|i: int| 0 <= i < e.len() implies #[trigger] e[i].1.name@ == e[i].0@ by {
                assert(self.resolved_map().contains_key(e[i].0@));
            }
            assert forall|i: int, j: int| 0 <= i < j < e.len() implies seq_lt(e[i].0@, e[j].0@) by {
                assert(self.key_seq_at(i) == e[i].0@);
                assert(self.key_seq_at(j) == e[j].0@);
            }
        }
        let r = self.resolved.into_values();
        proof {
            assert forall|i: int| 0 <= i < r@.len() implies self.resolved_map().contains_key(
                #[trigger] r@[i].name@,
            ) && r@[i] == self.resolved_map()[r@[i].name@] by {
                assert(r@[i] == e[i].1);
                assert(e[i].1.name@ == e[i].0@);
                assert(self.resolved_map().contains_key(e[i].0@));
            }
            assert forall|i: int, j: int| 0 <= i < j < r@.len() implies seq_lt(
                #[trigger] r@[i].name@,
                #[trigger] r@[j].name@,
            ) by {
                assert(r@[i] == e[i].1 && r@[j] == e[j].1);
                assert(e[i].1.name@ == e[i].0@);
                assert(e[j].1.name@ == e[j].0@);
                assert(seq_lt(e[i].0@, e[j].0@));
            }
            assert forall|k: Seq<char>| #[trigger]
                self.resolved_map().contains_key(k) implies exists|i: int| 0 <= i < r@.len() && r@[i].name@ == k by {
                let i = choose|i: int| 0 <= i < e.len() && e[i].0@ == k;
                assert(r@[i] == e[i].1);
            }
        }
        r
    }

    /// The `i`-th key in name order.
    spec fn key_seq_at(&self, i: int) -> Seq<char> {
        self.resolved.key_seq()[i]
    }
}

/// Law: when a walk is done, the resolved set is closed (every root and
/// every dependency of a resolved package is itself resolved) and holds
/// nothing else (every resolved package is a root or a dependency of a
/// resolved package).
pub proof fn law_walk_closed(st: ResolveState)
    requires
        st.wf(),
        st.is_done(),
    ensures
        forall|d: Seq<char>| #[trigger] st.roots().contains(d) ==> st.resolved_map().contains_key(d),
        forall|k: Seq<char>, d: Seq<char>|
            #![trigger st.resolved_map()[k].dependencies@.contains_key(d)]
            st.resolved_map().contains_key(k) && st.resolved_map()[k].dependencies@.contains_key(d)
                ==> st.resolved_map().contains_key(d),
        forall|k: Seq<char>| #[trigger]
            st.resolved_map().contains_key(k) ==> st.roots().contains(k) || exists|k2: Seq<char>|
                st.resolved_map().contains_key(k2) && #[trigger] st.resolved_map()[k2].dependencies@.contains_key(k),
{
}

} // verus!
