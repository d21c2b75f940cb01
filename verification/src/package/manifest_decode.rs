//! Decoding an `aipo.toml` document into a manifest.
//!
//! Package identity may sit at the document root (the flat form) or in a `[project]` or
//! `[package]` table, which takes precedence field by field; dependencies, targets and
//! capabilities likewise. A dependency is a local path or an exact GitHub source; its table
//! says which with `type`, or implies a path by declaring one. A decoded manifest is
//! validated and put in canonical form.
use vstd::prelude::*;

use crate::package::coordinate::{package_id_error_kind, parse_package_id_outcome, PackageId, PackageIdErrorKind};
use crate::package::error::{joined_problems, problem_pairs, LockfileError, ManifestError};
use crate::package::lock::{source_problems, PackageSource, SourceView};
use crate::package::manifest::{
    canonical_manifest, dependency_views, manifest_problems, Dependency, DependencyView, Manifest, ManifestView,
};
use crate::package::manifest_wire::{
    decode_wire, read_wire, DepsView, DependenciesWire, DependencyEntry, DependencyFields, EntryView, FieldsView,
    ManifestWire, WireView,
};
use crate::package::order::text_equal;
use crate::package::json::utf8;
use crate::package::toml_doc::{parse_toml_table, toml_table, toml_view};
use vstd::string::*;

verus! {

/// A decoding message about one dependency.
pub open spec fn dep_detail(coordinate: Seq<char>, detail: Seq<char>) -> Seq<char> {
    "dependency '"@ + coordinate + "': "@ + detail
}

/// A source as declared, or the message rejecting it.
pub open spec fn checked_source(coordinate: Seq<char>, s: SourceView) -> Result<SourceView, Seq<char>> {
    let problems = source_problems(s, "source"@);
    if problems.len() == 0 {
        Ok(s)
    } else {
        Err(dep_detail(coordinate, "invalid source: "@ + ("lockfile"@ + " is invalid: "@ + joined_problems(problems))))
    }
}

/// The source a dependency's fields declare.
pub open spec fn source_of_fields(
    coordinate: Seq<char>,
    kind: Option<Seq<char>>,
    path: Option<Seq<char>>,
    repository: Option<Seq<char>>,
    revision: Option<Seq<char>>,
    subpath: Option<Seq<char>>,
) -> Result<SourceView, Seq<char>> {
    let github_fields = repository is Some || revision is Some || subpath is Some;
    match kind {
        Some(k) => if k == "path"@ {
            if github_fields {
                Err(dep_detail(coordinate, "path source cannot declare repository, revision or subpath"@))
            } else {
                match path {
                    None => Err(dep_detail(coordinate, "path source is missing path"@)),
                    Some(p) => checked_source(coordinate, SourceView::Path(p)),
                }
            }
        } else if k == "github"@ {
            if path is Some {
                Err(dep_detail(coordinate, "GitHub source cannot declare path"@))
            } else {
                match (repository, revision) {
                    (None, _) => Err(dep_detail(coordinate, "GitHub source is missing repository"@)),
                    (Some(_), None) => Err(dep_detail(coordinate, "GitHub source is missing revision"@)),
                    (Some(r), Some(v)) => checked_source(
                        coordinate,
                        SourceView::GitHub(r, v, match subpath {
                            Some(s) => s,
                            None => "."@,
                        }),
                    ),
                }
            }
        } else {
            Err(dep_detail(coordinate, "unsupported dependency source type '"@ + k + "'"@))
        },
        None => if github_fields {
            Err(dep_detail(coordinate, "GitHub source fields require type = \"github\""@))
        } else {
            match path {
                None => Err(dep_detail(coordinate, "dependency is missing path or source type"@)),
                Some(p) => checked_source(coordinate, SourceView::Path(p)),
            }
        },
    }
}

/// The message of a coordinate that does not parse.
pub open spec fn id_error_text(kind: PackageIdErrorKind) -> Seq<char> {
    match kind {
        PackageIdErrorKind::Empty => "package coordinate is empty"@,
        PackageIdErrorKind::Count(n) => "package coordinate must have exactly two segments, found "@ + crate::text::decimal(n),
        PackageIdErrorKind::Segment(s) => "package coordinate segment '"@ + s + "' must match [a-z][a-z0-9_]*"@,
    }
}

/// The dependency a table value under `key` declares.
pub open spec fn dependency_of_entry(key: Seq<char>, e: EntryView) -> Result<DependencyView, Seq<char>> {
    match parse_package_id_outcome(key) {
        Err(kind) => Err(id_error_text(kind)),
        Ok(_) => match e {
            EntryView::Version(v) => Err(
                "dependency '"@ + key + "' must declare a path or a pinned GitHub source; version-only value '"@ + v
                    + "' is not supported"@,
            ),
            EntryView::Table(f) => {
                let name = match f.package {
                    Some(p) => p,
                    None => key,
                };
                match source_of_fields(name, f.kind, f.path, f.repository, f.revision, f.subpath) {
                    Ok(s) => Ok(DependencyView { name, version: f.version, source: s }),
                    Err(d) => Err(d),
                }
            },
        },
    }
}

/// The dependency an item of a dependency list declares.
pub open spec fn dependency_of_item(f: FieldsView) -> Result<DependencyView, Seq<char>> {
    let name = if f.coordinate is Some { f.coordinate } else { f.name };
    match name {
        None => Err("dependency array entry is missing a coordinate"@),
        Some(n) => match source_of_fields(n, f.kind, f.path, f.repository, f.revision, f.subpath) {
            Ok(s) => Ok(DependencyView { name: n, version: f.version, source: s }),
            Err(d) => Err(d),
        },
    }
}

/// The dependencies of a keyed table, in key order; the first failure wins.
pub open spec fn dependencies_of_entries(es: Seq<(Seq<char>, EntryView)>) -> Result<Seq<DependencyView>, Seq<char>>
    decreases es.len(),
{
    if es.len() == 0 {
        Ok(Seq::empty())
    } else {
        match dependencies_of_entries(es.drop_last()) {
            Err(d) => Err(d),
            Ok(front) => match dependency_of_entry(es.last().0, es.last().1) {
                Ok(x) => Ok(front.push(x)),
                Err(d) => Err(d),
            },
        }
    }
}

/// The dependencies of a list, in order; the first failure wins.
pub open spec fn dependencies_of_items(fs: Seq<FieldsView>) -> Result<Seq<DependencyView>, Seq<char>>
    decreases fs.len(),
{
    if fs.len() == 0 {
        Ok(Seq::empty())
    } else {
        match dependencies_of_items(fs.drop_last()) {
            Err(d) => Err(d),
            Ok(front) => match dependency_of_item(fs.last()) {
                Ok(x) => Ok(front.push(x)),
                Err(d) => Err(d),
            },
        }
    }
}

/// The dependencies a dependency list declares.
pub open spec fn dependencies_of(d: DepsView) -> Result<Seq<DependencyView>, Seq<char>> {
    match d {
        DepsView::Keyed(es) => dependencies_of_entries(es),
        DepsView::Array(fs) => dependencies_of_items(fs),
    }
}

/// `first`, or else `second`.
pub open spec fn either<T>(first: Option<T>, second: Option<T>) -> Option<T> {
    if first is Some {
        first
    } else {
        second
    }
}

/// The manifest a document's fields declare, before validation, or the decoding message.
pub open spec fn manifest_of_wire(w: WireView) -> Result<ManifestView, Seq<char>> {
    let name = either(match w.project { Some(p) => p.name, None => None }, w.name);
    let version = either(match w.project { Some(p) => p.version, None => None }, w.version);
    let entry = either(match w.project { Some(p) => p.entry, None => None }, w.entry);
    let dependencies = either(match w.project { Some(p) => p.dependencies, None => None }, w.dependencies);
    let targets = either(match w.project { Some(p) => p.targets, None => None }, w.targets);
    let capabilities = either(match w.project { Some(p) => p.capabilities, None => None }, w.capabilities);
    if name is None {
        Err("missing package name"@)
    } else if version is None {
        Err("missing package version"@)
    } else if entry is None {
        Err("missing package entry"@)
    } else {
        let deps = match dependencies {
            Some(d) => dependencies_of(d),
            None => Ok(Seq::empty()),
        };
        match deps {
            Err(d) => Err(d),
            Ok(ds) => Ok(
                ManifestView {
                    name: name->0,
                    version: version->0,
                    entry: entry->0,
                    dependencies: ds,
                    targets: match targets {
                        Some(t) => t,
                        None => Seq::empty(),
                    },
                    capabilities: match capabilities {
                        Some(c) => c,
                        None => Seq::empty(),
                    },
                },
            ),
        }
    }
}

/// A parse error with `detail`.
fn parse_error(detail: String) -> (error: ManifestError)
    ensures
        error matches ManifestError::Parse { detail: d } && d@ == detail@,
{
    ManifestError::Parse { detail }
}

/// The message about one dependency.
fn dependency_message(coordinate: &str, detail: &str) -> (text: String)
    ensures
        text@ == dep_detail(coordinate@, detail@),
{
    String::from_str("dependency '").concat(coordinate).concat("': ").concat(detail)
}

/// A validated source, or the message rejecting it.
fn check_source(coordinate: &str, built: Result<PackageSource, LockfileError>, declared: Ghost<SourceView>) -> (result: Result<PackageSource, String>)
    requires
        match built {
            Ok(s) => s@ == declared@ && source_problems(declared@, "source"@).len() == 0,
            Err(LockfileError::Invalid { problems }) => source_problems(declared@, "source"@).len() > 0
                && problem_pairs(problems@) == source_problems(declared@, "source"@),
            Err(_) => false,
        },
    ensures
        match result {
            Ok(s) => checked_source(coordinate@, declared@) == Ok::<SourceView, Seq<char>>(s@),
            Err(d) => checked_source(coordinate@, declared@) == Err::<SourceView, Seq<char>>(d@),
        },
{
    match built {
        Ok(s) => Ok(s),
        Err(e) => {
            let text = e.to_string();
            let detail = String::from_str("invalid source: ").concat(text.as_str());
            Err(dependency_message(coordinate, detail.as_str()))
        },
    }
}

/// The source a dependency's fields declare.
fn decode_source(
    coordinate: &str,
    kind: Option<String>,
    path: Option<String>,
    repository: Option<String>,
    revision: Option<String>,
    subpath: Option<String>,
) -> (result: Result<PackageSource, String>)
    ensures
        match result {
            Ok(s) => source_of_fields(
                coordinate@,
                crate::package::manifest_wire::opt_text(kind),
                crate::package::manifest_wire::opt_text(path),
                crate::package::manifest_wire::opt_text(repository),
                crate::package::manifest_wire::opt_text(revision),
                crate::package::manifest_wire::opt_text(subpath),
            ) == Ok::<SourceView, Seq<char>>(s@),
            Err(d) => source_of_fields(
                coordinate@,
                crate::package::manifest_wire::opt_text(kind),
                crate::package::manifest_wire::opt_text(path),
                crate::package::manifest_wire::opt_text(repository),
                crate::package::manifest_wire::opt_text(revision),
                crate::package::manifest_wire::opt_text(subpath),
            ) == Err::<SourceView, Seq<char>>(d@),
        },
{
    let github_fields = repository.is_some() || revision.is_some() || subpath.is_some();
    match kind {
        Some(k) => {
            if text_equal(k.as_str(), "path") {
                if github_fields {
                    return Err(dependency_message(coordinate, "path source cannot declare repository, revision or subpath"));
                }
                match path {
                    None => Err(dependency_message(coordinate, "path source is missing path")),
                    Some(p) => check_source(coordinate, PackageSource::path(p.as_str()), Ghost(SourceView::Path(p@))),
                }
            } else if text_equal(k.as_str(), "github") {
                if path.is_some() {
                    return Err(dependency_message(coordinate, "GitHub source cannot declare path"));
                }
                match (repository, revision) {
                    (None, _) => Err(dependency_message(coordinate, "GitHub source is missing repository")),
                    (Some(_), None) => Err(dependency_message(coordinate, "GitHub source is missing revision")),
                    (Some(r), Some(v)) => {
                        let s = match subpath {
                            Some(s) => s,
                            None => String::from_str("."),
                        };
                        check_source(
                            coordinate,
                            PackageSource::github_at(r.as_str(), v.as_str(), s.as_str()),
                            Ghost(SourceView::GitHub(r@, v@, s@)),
                        )
                    },
                }
            } else {
                let detail = String::from_str("unsupported dependency source type '").concat(k.as_str()).concat("'");
                Err(dependency_message(coordinate, detail.as_str()))
            }
        },
        None => {
            if github_fields {
                return Err(dependency_message(coordinate, "GitHub source fields require type = \"github\""));
            }
            match path {
                None => Err(dependency_message(coordinate, "dependency is missing path or source type")),
                Some(p) => check_source(coordinate, PackageSource::path(p.as_str()), Ghost(SourceView::Path(p@))),
            }
        },
    }
}


/// The dependency a table value under `key` declares.
fn decode_entry_dependency(key: &str, entry: DependencyEntry) -> (result: Result<Dependency, String>)
    ensures
        match result {
            Ok(d) => dependency_of_entry(key@, crate::package::manifest_wire::entry_view(entry)) == Ok::<DependencyView, Seq<char>>(d@),
            Err(m) => dependency_of_entry(key@, crate::package::manifest_wire::entry_view(entry)) == Err::<DependencyView, Seq<char>>(m@),
        },
{
    let fallback = match PackageId::parse(key) {
        Ok(id) => id,
        Err(e) => return Err(e.to_string()),
    };
    match entry {
        DependencyEntry::Version(v) => {
            let text = String::from_str("dependency '").concat(key).concat(
                "' must declare a path or a pinned GitHub source; version-only value '",
            ).concat(v.as_str()).concat("' is not supported");
            Err(text)
        },
        DependencyEntry::Table(f) => {
            let name = match f.package {
                Some(p) => p,
                None => fallback,
            };
            match decode_source(name.as_str(), f.kind, f.path, f.repository, f.revision, f.subpath) {
                Ok(source) => Ok(Dependency { name, version: f.version, source }),
                Err(m) => Err(m),
            }
        },
    }
}

/// The dependency an item of a dependency list declares.
fn decode_item_dependency(f: DependencyFields) -> (result: Result<Dependency, String>)
    ensures
        match result {
            Ok(d) => dependency_of_item(f@) == Ok::<DependencyView, Seq<char>>(d@),
            Err(m) => dependency_of_item(f@) == Err::<DependencyView, Seq<char>>(m@),
        },
{
    let name = match f.coordinate {
        Some(c) => c,
        None => match f.name {
            Some(n) => n,
            None => return Err(String::from_str("dependency array entry is missing a coordinate")),
        },
    };
    match decode_source(name.as_str(), f.kind, f.path, f.repository, f.revision, f.subpath) {
        Ok(source) => Ok(Dependency { name, version: f.version, source }),
        Err(m) => Err(m),
    }
}

/// The dependencies a dependency list declares.
fn decode_dependencies(d: DependenciesWire) -> (result: Result<Vec<Dependency>, String>)
    ensures
        match result {
            Ok(ds) => dependencies_of(crate::package::manifest_wire::deps_view(d)) == Ok::<Seq<DependencyView>, Seq<char>>(dependency_views(ds@)),
            Err(m) => dependencies_of(crate::package::manifest_wire::deps_view(d)) == Err::<Seq<DependencyView>, Seq<char>>(m@),
        },
{
    let ghost dv = crate::package::manifest_wire::deps_view(d);
    let mut out: Vec<Dependency> = Vec::new();
    match d {
        DependenciesWire::Keyed(entries) => {
            let ghost es = dv->Keyed_0;
            let mut rest = entries;
            let ghost all = rest@;
            let total = rest.len();
            let mut i: usize = 0;
            assert(es.take(0) =~= Seq::<(Seq<char>, EntryView)>::empty());
            assert(dependency_views(out@) =~= Seq::<DependencyView>::empty());
            while rest.len() > 0
                invariant
                    dv == DepsView::Keyed(es),
                    dv == crate::package::manifest_wire::deps_view(d),
                    all.len() == total,
                    es == all.map_values(|e: (String, DependencyEntry)| (e.0@, crate::package::manifest_wire::entry_view(e.1))),
                    i + rest@.len() == all.len(),
                    forall|q: int| 0 <= q < rest@.len() ==> #[trigger] rest@[q] == all[i + q],
                    dependencies_of_entries(es.take(i as int)) == Ok::<Seq<DependencyView>, Seq<char>>(dependency_views(out@)),
                decreases rest.len(),
            {
                assert(rest@[0] == all[i as int]);
                let (key, entry) = rest.remove(0);
                assert forall|q: int| 0 <= q < rest@.len() implies #[trigger] rest@[q] == all[i + 1 + q] by {
                    assert(rest@[q] == all[i + (q + 1)]);
                }
                assert(es.take(i + 1).drop_last() =~= es.take(i as int));
                assert(es.take(i + 1).last() == (key@, crate::package::manifest_wire::entry_view(entry)));
                match decode_entry_dependency(key.as_str(), entry) {
                    Ok(dep) => {
                        let ghost before = out@;
                        out.push(dep);
                        assert(dependency_views(out@) =~= dependency_views(before).push(dep@));
                    },
                    Err(m) => {
                        assert(dependencies_of_entries(es.take(i + 1)) == Err::<Seq<DependencyView>, Seq<char>>(m@));
                        proof {
                            lemma_entries_stay_failed(es, i + 1);
                        }
                        return Err(m);
                    },
                }
                i = i + 1;
            }
            assert(es.take(i as int) =~= es);
            Ok(out)
        },
        DependenciesWire::Array(items) => {
            let ghost fs = dv->Array_0;
            let mut rest = items;
            let ghost all = rest@;
            let total = rest.len();
            let mut i: usize = 0;
            assert(fs.take(0) =~= Seq::<FieldsView>::empty());
            assert(dependency_views(out@) =~= Seq::<DependencyView>::empty());
            while rest.len() > 0
                invariant
                    dv == DepsView::Array(fs),
                    dv == crate::package::manifest_wire::deps_view(d),
                    all.len() == total,
                    fs == all.map_values(|f: DependencyFields| f@),
                    i + rest@.len() == all.len(),
                    forall|q: int| 0 <= q < rest@.len() ==> #[trigger] rest@[q] == all[i + q],
                    dependencies_of_items(fs.take(i as int)) == Ok::<Seq<DependencyView>, Seq<char>>(dependency_views(out@)),
                decreases rest.len(),
            {
                assert(rest@[0] == all[i as int]);
                let f = rest.remove(0);
                assert forall|q: int| 0 <= q < rest@.len() implies #[trigger] rest@[q] == all[i + 1 + q] by {
                    assert(rest@[q] == all[i + (q + 1)]);
                }
                assert(fs.take(i + 1).drop_last() =~= fs.take(i as int));
                assert(fs.take(i + 1).last() == f@);
                match decode_item_dependency(f) {
                    Ok(dep) => {
                        let ghost before = out@;
                        out.push(dep);
                        assert(dependency_views(out@) =~= dependency_views(before).push(dep@));
                    },
                    Err(m) => {
                        assert(dependencies_of_items(fs.take(i + 1)) == Err::<Seq<DependencyView>, Seq<char>>(m@));
                        proof {
                            lemma_items_stay_failed(fs, i + 1);
                        }
                        return Err(m);
                    },
                }
                i = i + 1;
            }
            assert(fs.take(i as int) =~= fs);
            Ok(out)
        },
    }
}

proof fn lemma_entries_stay_failed(es: Seq<(Seq<char>, EntryView)>, i: int)
    requires
        0 <= i <= es.len(),
        dependencies_of_entries(es.take(i)) is Err,
    ensures
        dependencies_of_entries(es) == dependencies_of_entries(es.take(i)),
    decreases es.len() - i,
{
    if i < es.len() {
        assert(es.take(i + 1).drop_last() =~= es.take(i));
        lemma_entries_stay_failed(es, i + 1);
    } else {
        assert(es.take(i) =~= es);
    }
}

proof fn lemma_items_stay_failed(fs: Seq<FieldsView>, i: int)
    requires
        0 <= i <= fs.len(),
        dependencies_of_items(fs.take(i)) is Err,
    ensures
        dependencies_of_items(fs) == dependencies_of_items(fs.take(i)),
    decreases fs.len() - i,
{
    if i < fs.len() {
        assert(fs.take(i + 1).drop_last() =~= fs.take(i));
        lemma_items_stay_failed(fs, i + 1);
    } else {
        assert(fs.take(i) =~= fs);
    }
}


/// What parsing a manifest from TOML text gives: the decoder's message for text that is
/// not a TOML table; a parse error for fields without their types or a manifest that
/// cannot be assembled; otherwise the assembled manifest validated and in canonical form.
pub open spec fn parsed_manifest(text: Seq<char>, result: Result<Manifest, ManifestError>) -> bool {
    match toml_table(text) {
        Err(message) => result matches Err(ManifestError::Parse { detail }) && detail@ == message,
        Ok(doc) => match read_wire(doc) {
            None => result matches Err(ManifestError::Parse { detail }) && detail@ == "manifest fields do not have their expected types"@,
            Some(w) => match manifest_of_wire(w) {
                Err(d) => result matches Err(ManifestError::Parse { detail }) && detail@ == d,
                Ok(m) => match result {
                    Ok(manifest) => manifest_problems(m).len() == 0 && canonical_manifest(manifest@, m),
                    Err(ManifestError::Invalid { problems }) => manifest_problems(m).len() > 0 && problem_pairs(problems@)
                        == manifest_problems(m),
                    Err(_) => false,
                },
            },
        },
    }
}

/// `std::str::from_utf8`: the text whose UTF-8 encoding `bytes` are, or the decoder's
/// message when they encode no text.
#[verifier::external_body]
fn utf8_text(bytes: &[u8]) -> (result: Result<&str, String>)
    ensures
        match result {
            Ok(text) => utf8(text@) == bytes@,
            Err(_) => forall|t: Seq<char>| utf8(t) != bytes@,
        },
{
    match std::str::from_utf8(bytes) {
        Ok(text) => Ok(text),
        Err(error) => Err(error.to_string()),
    }
}

impl Manifest {
    /// Assembles a manifest from a document's fields: package identity from the project
    /// table where it declares it, else from the document root; dependencies, targets and
    /// capabilities likewise. The manifest is not validated.
    pub fn from_wire(wire: ManifestWire) -> (result: Result<Manifest, ManifestError>)
        ensures
            match manifest_of_wire(wire@) {
                Ok(m) => result matches Ok(manifest) && manifest@ == m,
                Err(d) => result matches Err(ManifestError::Parse { detail }) && detail@ == d,
            },
    {
        let ghost w = wire@;
        let ManifestWire { name, version, entry, project, dependencies, targets, capabilities } = wire;
        let (p_name, p_version, p_entry, p_dependencies, p_targets, p_capabilities) = match project {
            Some(p) => (p.name, p.version, p.entry, p.dependencies, p.targets, p.capabilities),
            None => (None, None, None, None, None, None),
        };
        let name = if p_name.is_some() { p_name } else { name };
        let version = if p_version.is_some() { p_version } else { version };
        let entry = if p_entry.is_some() { p_entry } else { entry };
        let dependencies = if p_dependencies.is_some() { p_dependencies } else { dependencies };
        let targets = if p_targets.is_some() { p_targets } else { targets };
        let capabilities = if p_capabilities.is_some() { p_capabilities } else { capabilities };
        let name = match name {
            Some(n) => n,
            None => return Err(parse_error(String::from_str("missing package name"))),
        };
        let version = match version {
            Some(v) => v,
            None => return Err(parse_error(String::from_str("missing package version"))),
        };
        let entry = match entry {
            Some(e) => e,
            None => return Err(parse_error(String::from_str("missing package entry"))),
        };
        let dependencies = match dependencies {
            Some(d) => match decode_dependencies(d) {
                Ok(ds) => ds,
                Err(m) => return Err(parse_error(m)),
            },
            None => Vec::new(),
        };
        let targets = match targets {
            Some(t) => t,
            None => Vec::new(),
        };
        let capabilities = match capabilities {
            Some(c) => c,
            None => Vec::new(),
        };
        let manifest = Manifest { name, version, entry, dependencies, targets, capabilities };
        assert(manifest@.dependencies =~= match manifest_of_wire(w) {
            Ok(m) => m.dependencies,
            Err(_) => manifest@.dependencies,
        });
        assert(manifest@.targets =~= match manifest_of_wire(w) {
            Ok(m) => m.targets,
            Err(_) => manifest@.targets,
        });
        assert(manifest@.capabilities =~= match manifest_of_wire(w) {
            Ok(m) => m.capabilities,
            Err(_) => manifest@.capabilities,
        });
        Ok(manifest)
    }

    /// Parses a manifest from TOML text: the flat form, or identity under `[project]` or
    /// `[package]`; the result is validated and in canonical form.
    pub fn parse_toml(text: &str) -> (result: Result<Manifest, ManifestError>)
        ensures
            parsed_manifest(text@, result),
    {
        let doc = match parse_toml_table(text) {
            Ok(doc) => doc,
            Err(message) => return Err(parse_error(message)),
        };
        let wire = match decode_wire(&doc) {
            Some(w) => w,
            None => return Err(parse_error(String::from_str("manifest fields do not have their expected types"))),
        };
        let mut manifest = match Manifest::from_wire(wire) {
            Ok(m) => m,
            Err(e) => return Err(e),
        };
        match manifest.canonicalize() {
            Ok(()) => Ok(manifest),
            Err(e) => Err(e),
        }
    }

    /// Parses TOML text; the same as [`Manifest::parse_toml`].
    pub fn from_str(text: &str) -> (result: Result<Manifest, ManifestError>)
        ensures
            parsed_manifest(text@, result),
    {
        Manifest::parse_toml(text)
    }

    /// Parses TOML text; the same as [`Manifest::parse_toml`].
    pub fn from_toml(text: &str) -> (result: Result<Manifest, ManifestError>)
        ensures
            parsed_manifest(text@, result),
    {
        Manifest::parse_toml(text)
    }

    /// What parsing manifest bytes gives: an encoding error for bytes that are not UTF-8,
    /// otherwise what parsing the text they encode gives.
    pub open spec fn from_bytes_outcome(bytes: Seq<u8>, result: Result<Manifest, ManifestError>) -> bool {
        match result {
            Err(ManifestError::InvalidUtf8 { .. }) => forall|t: Seq<char>| utf8(t) != bytes,
            _ => exists|t: Seq<char>| utf8(t) == bytes && #[trigger] parsed_manifest(t, result),
        }
    }

    /// Parses a manifest from UTF-8 TOML bytes.
    pub fn from_bytes(bytes: &[u8]) -> (result: Result<Manifest, ManifestError>)
        ensures
            Manifest::from_bytes_outcome(bytes@, result),
    {
        match utf8_text(bytes) {
            Ok(text) => {
                let result = Manifest::parse_toml(text);
                assert(utf8(text@) == bytes@ && parsed_manifest(text@, result));
                result
            },
            Err(detail) => Err(ManifestError::InvalidUtf8 { detail }),
        }
    }
}

} // verus!
