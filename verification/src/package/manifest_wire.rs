//! The fields of an `aipo.toml` document, read with their expected types.
//!
//! Every field may be absent; a field that is present must have its type: a string, a
//! coordinate (a string that parses as one), a list of strings, a dependency list (a table
//! of string or table values, or a list of tables), a project table. Keys this format does
//! not know are ignored. `project` may also be written `package`, not both.
use vstd::prelude::*;

use crate::package::coordinate::{parse_package_id_outcome, PackageId};
use crate::package::toml_doc::{entry_views, lookup, lookup_entry, toml_view, TomlValue, TomlView};
use vstd::string::*;

verus! {

/// The fields a dependency may declare. In a dependency table keyed by coordinate, `package`
/// is read and `name`/`coordinate` are not; in a dependency list it is the reverse.
#[derive(Debug)]
pub struct DependencyFields {
    /// `name`.
    pub name: Option<PackageId>,
    /// `coordinate`.
    pub coordinate: Option<PackageId>,
    /// `package`.
    pub package: Option<PackageId>,
    /// `path`.
    pub path: Option<String>,
    /// `version`.
    pub version: Option<String>,
    /// `type`.
    pub kind: Option<String>,
    /// `repository`.
    pub repository: Option<String>,
    /// `revision`.
    pub revision: Option<String>,
    /// `subpath`.
    pub subpath: Option<String>,
}

/// A value of a dependency table: a bare version string, or a table of fields.
#[derive(Debug)]
pub enum DependencyEntry {
    /// A string value.
    Version(String),
    /// A table value.
    Table(DependencyFields),
}

/// The dependencies of a manifest, in either accepted shape.
#[derive(Debug)]
pub enum DependenciesWire {
    /// A table keyed by coordinate, in key order.
    Keyed(Vec<(String, DependencyEntry)>),
    /// A list of tables.
    Array(Vec<DependencyFields>),
}

/// The fields of a `[project]` (or `[package]`) table.
#[derive(Debug)]
pub struct ProjectWire {
    /// `name`.
    pub name: Option<PackageId>,
    /// `version`.
    pub version: Option<String>,
    /// `entry`.
    pub entry: Option<String>,
    /// `dependencies`.
    pub dependencies: Option<DependenciesWire>,
    /// `targets`.
    pub targets: Option<Vec<String>>,
    /// `capabilities`.
    pub capabilities: Option<Vec<String>>,
}

/// The fields of a manifest document.
#[derive(Debug)]
pub struct ManifestWire {
    /// `name`.
    pub name: Option<PackageId>,
    /// `version`.
    pub version: Option<String>,
    /// `entry`.
    pub entry: Option<String>,
    /// `project` or `package`.
    pub project: Option<ProjectWire>,
    /// `dependencies`.
    pub dependencies: Option<DependenciesWire>,
    /// `targets`.
    pub targets: Option<Vec<String>>,
    /// `capabilities`.
    pub capabilities: Option<Vec<String>>,
}

/// The reading of dependency fields.
pub ghost struct FieldsView {
    pub name: Option<Seq<char>>,
    pub coordinate: Option<Seq<char>>,
    pub package: Option<Seq<char>>,
    pub path: Option<Seq<char>>,
    pub version: Option<Seq<char>>,
    pub kind: Option<Seq<char>>,
    pub repository: Option<Seq<char>>,
    pub revision: Option<Seq<char>>,
    pub subpath: Option<Seq<char>>,
}

/// The reading of a dependency table value.
pub ghost enum EntryView {
    Version(Seq<char>),
    Table(FieldsView),
}

/// The reading of a dependency list.
pub ghost enum DepsView {
    Keyed(Seq<(Seq<char>, EntryView)>),
    Array(Seq<FieldsView>),
}

/// The reading of a project table.
pub ghost struct ProjectView {
    pub name: Option<Seq<char>>,
    pub version: Option<Seq<char>>,
    pub entry: Option<Seq<char>>,
    pub dependencies: Option<DepsView>,
    pub targets: Option<Seq<Seq<char>>>,
    pub capabilities: Option<Seq<Seq<char>>>,
}

/// The reading of a manifest document.
pub ghost struct WireView {
    pub name: Option<Seq<char>>,
    pub version: Option<Seq<char>>,
    pub entry: Option<Seq<char>>,
    pub project: Option<ProjectView>,
    pub dependencies: Option<DepsView>,
    pub targets: Option<Seq<Seq<char>>>,
    pub capabilities: Option<Seq<Seq<char>>>,
}

pub open spec fn id_text(v: Option<PackageId>) -> Option<Seq<char>> {
    match v {
        Some(id) => Some(id@),
        None => None,
    }
}

pub open spec fn opt_text(v: Option<String>) -> Option<Seq<char>> {
    match v {
        Some(s) => Some(s@),
        None => None,
    }
}

pub open spec fn opt_texts(v: Option<Vec<String>>) -> Option<Seq<Seq<char>>> {
    match v {
        Some(items) => Some(crate::text::string_views(items@)),
        None => None,
    }
}

impl View for DependencyFields {
    type V = FieldsView;

    open spec fn view(&self) -> FieldsView {
        FieldsView {
            name: id_text(self.name),
            coordinate: id_text(self.coordinate),
            package: id_text(self.package),
            path: opt_text(self.path),
            version: opt_text(self.version),
            kind: opt_text(self.kind),
            repository: opt_text(self.repository),
            revision: opt_text(self.revision),
            subpath: opt_text(self.subpath),
        }
    }
}

pub open spec fn entry_view(e: DependencyEntry) -> EntryView {
    match e {
        DependencyEntry::Version(v) => EntryView::Version(v@),
        DependencyEntry::Table(f) => EntryView::Table(f@),
    }
}

pub open spec fn deps_view(d: DependenciesWire) -> DepsView {
    match d {
        DependenciesWire::Keyed(entries) => DepsView::Keyed(entries@.map_values(|e: (String, DependencyEntry)| (e.0@, entry_view(e.1)))),
        DependenciesWire::Array(items) => DepsView::Array(items@.map_values(|f: DependencyFields| f@)),
    }
}

pub open spec fn opt_deps(d: Option<DependenciesWire>) -> Option<DepsView> {
    match d {
        Some(d) => Some(deps_view(d)),
        None => None,
    }
}

impl View for ProjectWire {
    type V = ProjectView;

    open spec fn view(&self) -> ProjectView {
        ProjectView {
            name: id_text(self.name),
            version: opt_text(self.version),
            entry: opt_text(self.entry),
            dependencies: opt_deps(self.dependencies),
            targets: opt_texts(self.targets),
            capabilities: opt_texts(self.capabilities),
        }
    }
}

impl View for ManifestWire {
    type V = WireView;

    open spec fn view(&self) -> WireView {
        WireView {
            name: id_text(self.name),
            version: opt_text(self.version),
            entry: opt_text(self.entry),
            project: match self.project {
                Some(p) => Some(p@),
                None => None,
            },
            dependencies: opt_deps(self.dependencies),
            targets: opt_texts(self.targets),
            capabilities: opt_texts(self.capabilities),
        }
    }
}

/// An optional string field: absent, or a string (`None` when present with another type).
pub open spec fn read_text(v: Option<TomlView>) -> Option<Option<Seq<char>>> {
    match v {
        None => Some(None),
        Some(TomlView::Text(s)) => Some(Some(s)),
        Some(_) => None,
    }
}

/// An optional coordinate field: absent, or a string that parses as a coordinate.
pub open spec fn read_id(v: Option<TomlView>) -> Option<Option<Seq<char>>> {
    match read_text(v) {
        Some(Some(s)) => if parse_package_id_outcome(s) is Ok {
            Some(Some(s))
        } else {
            None
        },
        other => other,
    }
}

/// The strings of a list, when every item is a string.
pub open spec fn texts_of(items: Seq<TomlView>) -> Option<Seq<Seq<char>>>
    decreases items.len(),
{
    if items.len() == 0 {
        Some(Seq::empty())
    } else {
        match (texts_of(items.drop_last()), items.last()) {
            (Some(front), TomlView::Text(s)) => Some(front.push(s)),
            _ => None,
        }
    }
}

/// An optional list of strings.
pub open spec fn read_texts(v: Option<TomlView>) -> Option<Option<Seq<Seq<char>>>> {
    match v {
        None => Some(None),
        Some(TomlView::List(items)) => match texts_of(items) {
            Some(t) => Some(Some(t)),
            None => None,
        },
        Some(_) => None,
    }
}

/// The fields of a dependency table.
pub open spec fn read_fields(t: Seq<(Seq<char>, TomlView)>, in_list: bool) -> Option<FieldsView> {
    let name = if in_list { read_id(lookup(t, "name"@)) } else { Some(None) };
    let coordinate = if in_list { read_id(lookup(t, "coordinate"@)) } else { Some(None) };
    let package = if in_list { Some(None) } else { read_id(lookup(t, "package"@)) };
    let path = read_text(lookup(t, "path"@));
    let version = read_text(lookup(t, "version"@));
    let kind = read_text(lookup(t, "type"@));
    let repository = read_text(lookup(t, "repository"@));
    let revision = read_text(lookup(t, "revision"@));
    let subpath = read_text(lookup(t, "subpath"@));
    if name is Some && coordinate is Some && package is Some && path is Some && version is Some && kind is Some
        && repository is Some && revision is Some && subpath is Some {
        Some(
            FieldsView {
                name: name->0,
                coordinate: coordinate->0,
                package: package->0,
                path: path->0,
                version: version->0,
                kind: kind->0,
                repository: repository->0,
                revision: revision->0,
                subpath: subpath->0,
            },
        )
    } else {
        None
    }
}

/// A value of a dependency table.
pub open spec fn read_entry(v: TomlView) -> Option<EntryView> {
    match v {
        TomlView::Text(s) => Some(EntryView::Version(s)),
        TomlView::Table(t) => match read_fields(t, false) {
            Some(f) => Some(EntryView::Table(f)),
            None => None,
        },
        _ => None,
    }
}

/// The entries of a dependency table, when every value reads.
pub open spec fn entries_of(t: Seq<(Seq<char>, TomlView)>) -> Option<Seq<(Seq<char>, EntryView)>>
    decreases t.len(),
{
    if t.len() == 0 {
        Some(Seq::empty())
    } else {
        match (entries_of(t.drop_last()), read_entry(t.last().1)) {
            (Some(front), Some(e)) => Some(front.push((t.last().0, e))),
            _ => None,
        }
    }
}

/// The items of a dependency list, when every item is a table that reads.
pub open spec fn items_of(items: Seq<TomlView>) -> Option<Seq<FieldsView>>
    decreases items.len(),
{
    if items.len() == 0 {
        Some(Seq::empty())
    } else {
        match (items_of(items.drop_last()), items.last()) {
            (Some(front), TomlView::Table(t)) => match read_fields(t, true) {
                Some(f) => Some(front.push(f)),
                None => None,
            },
            _ => None,
        }
    }
}

/// An optional dependency list.
pub open spec fn read_deps(v: Option<TomlView>) -> Option<Option<DepsView>> {
    match v {
        None => Some(None),
        Some(TomlView::Table(t)) => match entries_of(t) {
            Some(e) => Some(Some(DepsView::Keyed(e))),
            None => None,
        },
        Some(TomlView::List(items)) => match items_of(items) {
            Some(f) => Some(Some(DepsView::Array(f))),
            None => None,
        },
        Some(_) => None,
    }
}

/// The fields of a project table.
pub open spec fn read_project(t: Seq<(Seq<char>, TomlView)>) -> Option<ProjectView> {
    let name = read_id(lookup(t, "name"@));
    let version = read_text(lookup(t, "version"@));
    let entry = read_text(lookup(t, "entry"@));
    let dependencies = read_deps(lookup(t, "dependencies"@));
    let targets = read_texts(lookup(t, "targets"@));
    let capabilities = read_texts(lookup(t, "capabilities"@));
    if name is Some && version is Some && entry is Some && dependencies is Some && targets is Some && capabilities is Some {
        Some(
            ProjectView {
                name: name->0,
                version: version->0,
                entry: entry->0,
                dependencies: dependencies->0,
                targets: targets->0,
                capabilities: capabilities->0,
            },
        )
    } else {
        None
    }
}

/// The optional project table, written `project` or `package` but not both.
pub open spec fn read_project_field(t: Seq<(Seq<char>, TomlView)>) -> Option<Option<ProjectView>> {
    let project = lookup(t, "project"@);
    let package = lookup(t, "package"@);
    let v = if project is Some { project } else { package };
    if project is Some && package is Some {
        None
    } else {
        match v {
            None => Some(None),
            Some(TomlView::Table(p)) => match read_project(p) {
                Some(p) => Some(Some(p)),
                None => None,
            },
            Some(_) => None,
        }
    }
}

/// The fields of a manifest document, when every field present has its type.
pub open spec fn read_wire(doc: TomlView) -> Option<WireView> {
    match doc {
        TomlView::Table(t) => {
            let name = read_id(lookup(t, "name"@));
            let version = read_text(lookup(t, "version"@));
            let entry = read_text(lookup(t, "entry"@));
            let project = read_project_field(t);
            let dependencies = read_deps(lookup(t, "dependencies"@));
            let targets = read_texts(lookup(t, "targets"@));
            let capabilities = read_texts(lookup(t, "capabilities"@));
            if name is Some && version is Some && entry is Some && project is Some && dependencies is Some
                && targets is Some && capabilities is Some {
                Some(
                    WireView {
                        name: name->0,
                        version: version->0,
                        entry: entry->0,
                        project: project->0,
                        dependencies: dependencies->0,
                        targets: targets->0,
                        capabilities: capabilities->0,
                    },
                )
            } else {
                None
            }
        },
        _ => None,
    }
}

/// Reads an optional string field.
fn decode_text(v: Option<&TomlValue>) -> (out: Option<Option<String>>)
    ensures
        match out {
            Some(o) => read_text(match v { Some(x) => Some(toml_view(*x)), None => None }) == Some(opt_text(o)),
            None => read_text(match v { Some(x) => Some(toml_view(*x)), None => None }) is None,
        },
{
    match v {
        None => Some(None),
        Some(TomlValue::Text(s)) => Some(Some(s.clone())),
        Some(_) => None,
    }
}

/// Reads an optional coordinate field.
fn decode_id(v: Option<&TomlValue>) -> (out: Option<Option<PackageId>>)
    ensures
        match out {
            Some(o) => read_id(match v { Some(x) => Some(toml_view(*x)), None => None }) == Some(id_text(o)),
            None => read_id(match v { Some(x) => Some(toml_view(*x)), None => None }) is None,
        },
{
    match v {
        None => Some(None),
        Some(TomlValue::Text(s)) => match PackageId::parse(s.as_str()) {
            Ok(id) => Some(Some(id)),
            Err(_) => None,
        },
        Some(_) => None,
    }
}

/// Reads an optional list of strings.
fn decode_texts(v: Option<&TomlValue>) -> (out: Option<Option<Vec<String>>>)
    ensures
        match out {
            Some(o) => read_texts(match v { Some(x) => Some(toml_view(*x)), None => None }) == Some(opt_texts(o)),
            None => read_texts(match v { Some(x) => Some(toml_view(*x)), None => None }) is None,
        },
{
    let x = match v {
        None => return Some(None),
        Some(x) => x,
    };
    match x {
        TomlValue::List(items) => {
            let ghost views = toml_view(*x)->List_0;
            let mut out: Vec<String> = Vec::new();
            let mut i: usize = 0;
            while i < items.len()
                invariant
                    views == toml_view(*x)->List_0,
                    v == Some(x),
                    *x == TomlValue::List(*items),
                    views.len() == items@.len(),
                    i <= items@.len(),
                    texts_of(views.take(i as int)) == Some(crate::text::string_views(out@)),
                decreases items.len() - i,
            {
                assert(views.take(i + 1).drop_last() =~= views.take(i as int));
                assert(views[i as int] == toml_view(items@[i as int]));
                match &items[i] {
                    TomlValue::Text(s) => {
                        out.push(s.clone());
                        assert(crate::text::string_views(out@) =~= crate::text::string_views(out@).drop_last().push(s@));
                    },
                    _ => {
                        proof {
                            lemma_texts_fail(views, i as int);
                        }
                        return None;
                    },
                }
                i = i + 1;
            }
            assert(views.take(i as int) =~= views);
            Some(Some(out))
        },
        _ => None,
    }
}

proof fn lemma_texts_fail(views: Seq<TomlView>, i: int)
    requires
        0 <= i < views.len(),
        !(views[i] is Text),
    ensures
        texts_of(views) is None,
    decreases views.len(),
{
    if i < views.len() - 1 {
        lemma_texts_fail(views.drop_last(), i);
    }
}


/// The reading of a looked-up value.
pub open spec fn found_view(v: Option<&TomlValue>) -> Option<TomlView> {
    match v {
        Some(x) => Some(toml_view(*x)),
        None => None,
    }
}

/// Looks a key up in a table, with the reading of the result.
fn field<'a>(t: &'a Vec<(String, TomlValue)>, key: &str) -> (found: Option<&'a TomlValue>)
    ensures
        found_view(found) == lookup(entry_views(t@), key@),
{
    lookup_entry(t, key)
}

/// Reads the fields of a dependency table.
fn decode_fields(t: &Vec<(String, TomlValue)>, in_list: bool) -> (out: Option<DependencyFields>)
    ensures
        match out {
            Some(f) => read_fields(entry_views(t@), in_list) == Some(f@),
            None => read_fields(entry_views(t@), in_list) is None,
        },
{
    let name = if in_list { decode_id(field(t, "name")) } else { Some(None) };
    let coordinate = if in_list { decode_id(field(t, "coordinate")) } else { Some(None) };
    let package = if in_list { Some(None) } else { decode_id(field(t, "package")) };
    let path = decode_text(field(t, "path"));
    let version = decode_text(field(t, "version"));
    let kind = decode_text(field(t, "type"));
    let repository = decode_text(field(t, "repository"));
    let revision = decode_text(field(t, "revision"));
    let subpath = decode_text(field(t, "subpath"));
    match (name, coordinate, package, path, version, kind, repository, revision, subpath) {
        (Some(name), Some(coordinate), Some(package), Some(path), Some(version), Some(kind), Some(repository), Some(revision), Some(subpath)) => {
            Some(DependencyFields { name, coordinate, package, path, version, kind, repository, revision, subpath })
        },
        _ => None,
    }
}

/// Reads a value of a dependency table.
fn decode_entry(v: &TomlValue) -> (out: Option<DependencyEntry>)
    ensures
        match out {
            Some(e) => read_entry(toml_view(*v)) == Some(entry_view(e)),
            None => read_entry(toml_view(*v)) is None,
        },
{
    match v {
        TomlValue::Text(s) => Some(DependencyEntry::Version(s.clone())),
        TomlValue::Table(t) => {
            assert(toml_view(*v)->Table_0 =~= entry_views(t@));
            match decode_fields(t, false) {
                Some(f) => Some(DependencyEntry::Table(f)),
                None => None,
            }
        },
        _ => None,
    }
}

proof fn lemma_entries_fail(t: Seq<(Seq<char>, TomlView)>, i: int)
    requires
        0 <= i < t.len(),
        read_entry(t[i].1) is None,
    ensures
        entries_of(t) is None,
    decreases t.len(),
{
    if i < t.len() - 1 {
        lemma_entries_fail(t.drop_last(), i);
    }
}

proof fn lemma_items_fail(items: Seq<TomlView>, i: int)
    requires
        0 <= i < items.len(),
        !(items[i] is Table) || read_fields(items[i]->Table_0, true) is None,
    ensures
        items_of(items) is None,
    decreases items.len(),
{
    if i < items.len() - 1 {
        lemma_items_fail(items.drop_last(), i);
    }
}

/// Reads an optional dependency list.
fn decode_deps(v: Option<&TomlValue>) -> (out: Option<Option<DependenciesWire>>)
    ensures
        match out {
            Some(o) => read_deps(found_view(v)) == Some(opt_deps(o)),
            None => read_deps(found_view(v)) is None,
        },
{
    let x = match v {
        None => return Some(None),
        Some(x) => x,
    };
    match x {
        TomlValue::Table(t) => {
            let ghost views = entry_views(t@);
            assert(toml_view(*x)->Table_0 =~= views);
            let mut out: Vec<(String, DependencyEntry)> = Vec::new();
            let mut i: usize = 0;
            while i < t.len()
                invariant
                    views == entry_views(t@),
                    v == Some(x),
                    *x == TomlValue::Table(*t),
                    views == toml_view(*x)->Table_0,
                    i <= t@.len(),
                    entries_of(views.take(i as int)) == Some(out@.map_values(|e: (String, DependencyEntry)| (e.0@, entry_view(e.1)))),
                decreases t.len() - i,
            {
                assert(views.take(i + 1).drop_last() =~= views.take(i as int));
                assert(views[i as int] == (t@[i as int].0@, toml_view(t@[i as int].1)));
                match decode_entry(&t[i].1) {
                    Some(e) => {
                        let ghost before = out@;
                        out.push((t[i].0.clone(), e));
                        assert(out@.map_values(|e: (String, DependencyEntry)| (e.0@, entry_view(e.1))) =~= before.map_values(
                            |e: (String, DependencyEntry)| (e.0@, entry_view(e.1)),
                        ).push((t@[i as int].0@, entry_view(e))));
                    },
                    None => {
                        proof {
                            lemma_entries_fail(views, i as int);
                        }
                        return None;
                    },
                }
                i = i + 1;
            }
            assert(views.take(i as int) =~= views);
            Some(Some(DependenciesWire::Keyed(out)))
        },
        TomlValue::List(items) => {
            let ghost views = toml_view(*x)->List_0;
            let mut out: Vec<DependencyFields> = Vec::new();
            let mut i: usize = 0;
            while i < items.len()
                invariant
                    *x == TomlValue::List(*items),
                    v == Some(x),
                    views == toml_view(*x)->List_0,
                    views.len() == items@.len(),
                    i <= items@.len(),
                    items_of(views.take(i as int)) == Some(out@.map_values(|f: DependencyFields| f@)),
                decreases items.len() - i,
            {
                assert(views.take(i + 1).drop_last() =~= views.take(i as int));
                assert(views[i as int] == toml_view(items@[i as int]));
                match &items[i] {
                    TomlValue::Table(entries) => {
                        assert(views[i as int]->Table_0 =~= entry_views(entries@));
                        match decode_fields(entries, true) {
                            Some(f) => {
                                let ghost before = out@;
                                out.push(f);
                                assert(out@.map_values(|f: DependencyFields| f@) =~= before.map_values(|f: DependencyFields| f@).push(f@));
                            },
                            None => {
                                proof {
                                    lemma_items_fail(views, i as int);
                                }
                                return None;
                            },
                        }
                    },
                    _ => {
                        proof {
                            lemma_items_fail(views, i as int);
                        }
                        return None;
                    },
                }
                i = i + 1;
            }
            assert(views.take(i as int) =~= views);
            Some(Some(DependenciesWire::Array(out)))
        },
        _ => None,
    }
}

/// Reads the fields of a project table.
fn decode_project(t: &Vec<(String, TomlValue)>) -> (out: Option<ProjectWire>)
    ensures
        match out {
            Some(p) => read_project(entry_views(t@)) == Some(p@),
            None => read_project(entry_views(t@)) is None,
        },
{
    let name = decode_id(field(t, "name"));
    let version = decode_text(field(t, "version"));
    let entry = decode_text(field(t, "entry"));
    let dependencies = decode_deps(field(t, "dependencies"));
    let targets = decode_texts(field(t, "targets"));
    let capabilities = decode_texts(field(t, "capabilities"));
    match (name, version, entry, dependencies, targets, capabilities) {
        (Some(name), Some(version), Some(entry), Some(dependencies), Some(targets), Some(capabilities)) => {
            Some(ProjectWire { name, version, entry, dependencies, targets, capabilities })
        },
        _ => None,
    }
}

/// Reads the optional project table.
fn decode_project_field(t: &Vec<(String, TomlValue)>) -> (out: Option<Option<ProjectWire>>)
    ensures
        match out {
            Some(o) => read_project_field(entry_views(t@)) == Some(match o {
                Some(p) => Some(p@),
                None => None,
            }),
            None => read_project_field(entry_views(t@)) is None,
        },
{
    let project = field(t, "project");
    let package = field(t, "package");
    if project.is_some() && package.is_some() {
        return None;
    }
    let v = if project.is_some() { project } else { package };
    match v {
        None => Some(None),
        Some(TomlValue::Table(p)) => {
            assert(toml_view(*v.unwrap()) == toml_view(TomlValue::Table(*p)));
            assert(toml_view(TomlValue::Table(*p))->Table_0 =~= entry_views(p@));
            match decode_project(p) {
                Some(p) => Some(Some(p)),
                None => None,
            }
        },
        Some(_) => None,
    }
}

/// Reads the fields of a manifest document.
pub fn decode_wire(doc: &TomlValue) -> (out: Option<ManifestWire>)
    ensures
        match out {
            Some(w) => read_wire(toml_view(*doc)) == Some(w@),
            None => read_wire(toml_view(*doc)) is None,
        },
{
    match doc {
        TomlValue::Table(t) => {
            assert(toml_view(*doc)->Table_0 =~= entry_views(t@));
            let name = decode_id(field(t, "name"));
            let version = decode_text(field(t, "version"));
            let entry = decode_text(field(t, "entry"));
            let project = decode_project_field(t);
            let dependencies = decode_deps(field(t, "dependencies"));
            let targets = decode_texts(field(t, "targets"));
            let capabilities = decode_texts(field(t, "capabilities"));
            match (name, version, entry, project, dependencies, targets, capabilities) {
                (Some(name), Some(version), Some(entry), Some(project), Some(dependencies), Some(targets), Some(capabilities)) => {
                    Some(ManifestWire { name, version, entry, project, dependencies, targets, capabilities })
                },
                _ => None,
            }
        },
        _ => None,
    }
}

} // verus!
