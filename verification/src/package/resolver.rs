//! Deterministic resolution of in-memory package stores.
//!
//! Inputs are registered into a store keyed by coordinate; the graph is then walked from
//! the root, dependencies in canonical order, and every reachable package is listed after
//! its dependencies.
use vstd::prelude::*;

use crate::host::capability::{
    allows_seq, canonical, covers, law_covers_reflexive, law_covers_transitive, CapabilityError, CapabilitySet,
};
use crate::package::capabilities::{
    first_capability_error, first_outside_bound, normalizes, parse_capabilities, union_capabilities,
};
use crate::package::coordinate::PackageId;
use crate::package::digest::{package_digest, ContentDigest};
use crate::package::json::{manifest_json_bytes, utf8, utf8_bytes};
use crate::package::lock::{
    any_empty_segment, has_backslash, has_empty_segment, has_segment, id_views, is_absolute_path, is_dot,
    is_dot_dot, starts_absolute, LockedPackage, LockedView,
};
use crate::package::manifest::canonical_manifest;
use crate::package::walk::{is_loop, is_walk, reaches, walk_edge, walk_from, walk_graph, WalkOutcome};
use crate::text::{chars_of, has_char, split, split_str, views};
use crate::package::lockfile::{lock_outcome, Lockfile};
use crate::package::error::{LockfileError, ManifestError, ResolveError, problem_pairs};
use crate::package::lock::{PackageSource, SourceView, source_location, source_problems};
use crate::package::manifest::{Dependency, DependencyView, Manifest, ManifestView, manifest_problems};
use crate::package::order::text_equal;
use crate::text::string_views;
use vstd::string::*;

verus! {

/// Bytes and metadata for one package supplied by a caller.
#[derive(Debug)]
pub struct PackageInput {
    /// Validated package manifest.
    pub manifest: Manifest,
    /// Original manifest bytes when the input came from a file or caller.
    pub manifest_bytes: Vec<u8>,
    /// Relative entry path used for the package digest.
    pub entry: String,
    /// Entry file bytes.
    pub entry_bytes: Vec<u8>,
    /// Relative source location for the lockfile.
    pub source: PackageSource,
}

/// The value reading of a package input.
pub ghost struct InputView {
    /// The manifest.
    pub manifest: ManifestView,
    /// The manifest's original bytes.
    pub manifest_bytes: Seq<u8>,
    /// The entry path.
    pub entry: Seq<char>,
    /// The entry bytes.
    pub entry_bytes: Seq<u8>,
    /// The source.
    pub source: SourceView,
}

impl View for PackageInput {
    type V = InputView;

    open spec fn view(&self) -> InputView {
        InputView {
            manifest: self.manifest@,
            manifest_bytes: self.manifest_bytes@,
            entry: self.entry@,
            entry_bytes: self.entry_bytes@,
            source: self.source@,
        }
    }
}

/// A copy of a byte vector.
fn copy_bytes(bytes: &Vec<u8>) -> (copy: Vec<u8>)
    ensures
        copy@ == bytes@,
{
    let mut copy: Vec<u8> = Vec::new();
    let mut i: usize = 0;
    while i < bytes.len()
        invariant
            i <= bytes@.len(),
            copy@ == bytes@.take(i as int),
        decreases bytes.len() - i,
    {
        copy.push(bytes[i]);
        assert(bytes@.take(i + 1) =~= bytes@.take(i as int).push(bytes@[i as int]));
        i = i + 1;
    }
    assert(bytes@.take(i as int) =~= bytes@);
    copy
}

/// Whether two byte vectors are equal.
fn bytes_equal(a: &Vec<u8>, b: &Vec<u8>) -> (same: bool)
    ensures
        same == (a@ == b@),
{
    if a.len() != b.len() {
        return false;
    }
    let mut i: usize = 0;
    while i < a.len()
        invariant
            a@.len() == b@.len(),
            i <= a@.len(),
            forall|k: int| 0 <= k < i ==> a@[k] == b@[k],
        decreases a.len() - i,
    {
        if a[i] != b[i] {
            return false;
        }
        i = i + 1;
    }
    assert(a@ =~= b@);
    true
}

/// Whether two string lists are equal as text.
fn strings_equal(a: &Vec<String>, b: &Vec<String>) -> (same: bool)
    ensures
        same == (string_views(a@) == string_views(b@)),
{
    if a.len() != b.len() {
        assert(string_views(a@).len() != string_views(b@).len());
        return false;
    }
    let mut i: usize = 0;
    while i < a.len()
        invariant
            a@.len() == b@.len(),
            i <= a@.len(),
            forall|k: int| 0 <= k < i ==> (#[trigger] a@[k])@ == b@[k]@,
        decreases a.len() - i,
    {
        if !text_equal(a[i].as_str(), b[i].as_str()) {
            assert(string_views(a@)[i as int] != string_views(b@)[i as int]);
            return false;
        }
        i = i + 1;
    }
    assert(string_views(a@) =~= string_views(b@));
    true
}

/// Whether two optional strings are equal as text.
fn optional_equal(a: &Option<String>, b: &Option<String>) -> (same: bool)
    ensures
        same == (crate::package::manifest::opt_view(*a) == crate::package::manifest::opt_view(*b)),
{
    match (a, b) {
        (Some(x), Some(y)) => text_equal(x.as_str(), y.as_str()),
        (None, None) => true,
        _ => false,
    }
}

/// Whether two dependencies read the same.
fn dependency_equal(a: &Dependency, b: &Dependency) -> (same: bool)
    ensures
        same == (a@ == b@),
{
    text_equal(a.name.as_str(), b.name.as_str()) && optional_equal(&a.version, &b.version) && a.source == b.source
}

/// Whether two manifests read the same.
pub(crate) fn manifest_equal(a: &Manifest, b: &Manifest) -> (same: bool)
    ensures
        same == (a@ == b@),
{
    if !text_equal(a.name.as_str(), b.name.as_str()) || !text_equal(a.version.as_str(), b.version.as_str())
        || !text_equal(a.entry.as_str(), b.entry.as_str()) || !strings_equal(&a.targets, &b.targets)
        || !strings_equal(&a.capabilities, &b.capabilities) {
        return false;
    }
    let ghost da = crate::package::manifest::dependency_views(a.dependencies@);
    let ghost db = crate::package::manifest::dependency_views(b.dependencies@);
    if a.dependencies.len() != b.dependencies.len() {
        assert(da.len() != db.len());
        return false;
    }
    let mut i: usize = 0;
    while i < a.dependencies.len()
        invariant
            da == crate::package::manifest::dependency_views(a.dependencies@),
            db == crate::package::manifest::dependency_views(b.dependencies@),
            a.dependencies@.len() == b.dependencies@.len(),
            i <= a.dependencies@.len(),
            forall|k: int| 0 <= k < i ==> da[k] == db[k],
        decreases a.dependencies.len() - i,
    {
        if !dependency_equal(&a.dependencies[i], &b.dependencies[i]) {
            assert(da[i as int] != db[i as int]);
            return false;
        }
        i = i + 1;
    }
    assert(da =~= db);
    true
}

impl PackageInput {
    /// Creates an input from a validated manifest and entry bytes: the entry path is the
    /// manifest's, the source the package's own directory `.`, and there are no original
    /// manifest bytes.
    pub fn from_manifest(manifest: Manifest, entry_bytes: Vec<u8>) -> (result: Result<PackageInput, ManifestError>)
        ensures
            match result {
                Ok(input) => manifest_problems(manifest@).len() == 0 && input@ == (InputView {
                    manifest: manifest@,
                    manifest_bytes: Seq::empty(),
                    entry: manifest@.entry,
                    entry_bytes: entry_bytes@,
                    source: SourceView::Path("."@),
                }),
                Err(ManifestError::Invalid { problems }) => manifest_problems(manifest@).len() > 0
                    && problem_pairs(problems@) == manifest_problems(manifest@),
                Err(_) => false,
            },
    {
        match manifest.validate() {
            Ok(()) => {},
            Err(error) => return Err(error),
        }
        let entry = manifest.entry.clone();
        let input = PackageInput {
            manifest,
            manifest_bytes: Vec::new(),
            entry,
            entry_bytes,
            source: PackageSource::Path { path: String::from_str(".") },
        };
        assert(input@.manifest_bytes =~= Seq::<u8>::empty());
        Ok(input)
    }

    /// Creates an input by parsing manifest bytes; the entry path is the manifest's.
    pub fn from_manifest_bytes(manifest_bytes: &[u8], entry_bytes: Vec<u8>, source: PackageSource) -> (result: Result<PackageInput, ManifestError>)
        ensures
            match result {
                Ok(input) => Manifest::from_bytes_outcome(manifest_bytes@, Ok(input.manifest)) && input@.manifest_bytes
                    == manifest_bytes@ && input@.entry == input@.manifest.entry && input@.entry_bytes == entry_bytes@
                    && input@.source == source@,
                Err(e) => Manifest::from_bytes_outcome(manifest_bytes@, Err(e)),
            },
    {
        let manifest = match Manifest::from_bytes(manifest_bytes) {
            Ok(m) => m,
            Err(e) => return Err(e),
        };
        let entry = manifest.entry.clone();
        let mut bytes: Vec<u8> = Vec::new();
        let mut i: usize = 0;
        while i < manifest_bytes.len()
            invariant
                i <= manifest_bytes@.len(),
                bytes@ == manifest_bytes@.take(i as int),
            decreases manifest_bytes.len() - i,
        {
            bytes.push(manifest_bytes[i]);
            assert(manifest_bytes@.take(i + 1) =~= manifest_bytes@.take(i as int).push(manifest_bytes@[i as int]));
            i = i + 1;
        }
        assert(manifest_bytes@.take(i as int) =~= manifest_bytes@);
        Ok(PackageInput { manifest, manifest_bytes: bytes, entry, entry_bytes, source })
    }

    /// This input with another source.
    pub fn with_source(self, source: PackageSource) -> (input: PackageInput)
        ensures
            input@ == (InputView { source: source@, ..self@ }),
    {
        let mut input = self;
        input.source = source;
        input
    }

    /// This input with another entry path.
    pub fn with_entry(self, entry: &str) -> (input: PackageInput)
        ensures
            input@ == (InputView { entry: entry@, ..self@ }),
    {
        let mut input = self;
        input.entry = String::from_str(entry);
        input
    }

    /// A copy of this input.
    pub fn duplicate(&self) -> (copy: PackageInput)
        ensures
            copy@ == self@,
    {
        PackageInput {
            manifest: self.manifest.duplicate(),
            manifest_bytes: copy_bytes(&self.manifest_bytes),
            entry: self.entry.clone(),
            entry_bytes: copy_bytes(&self.entry_bytes),
            source: self.source.duplicate(),
        }
    }

    /// Whether two inputs agree on source, manifest, entry path and entry bytes.
    fn same_as(&self, other: &PackageInput) -> (same: bool)
        ensures
            same == same_input(self@, other@),
    {
        self.source == other.source && manifest_equal(&self.manifest, &other.manifest)
            && text_equal(self.entry.as_str(), other.entry.as_str()) && bytes_equal(&self.entry_bytes, &other.entry_bytes)
    }
}

/// Two inputs agree on source, manifest, entry path and entry bytes (the original manifest
/// bytes do not count).
pub open spec fn same_input(a: InputView, b: InputView) -> bool {
    &&& a.source == b.source
    &&& a.manifest == b.manifest
    &&& a.entry == b.entry
    &&& a.entry_bytes == b.entry_bytes
}

/// The coordinate an input claims.
pub open spec fn input_key(s: Seq<InputView>, i: int) -> Seq<char> {
    s[i].manifest.name
}

/// No two inputs of the store claim one coordinate.
pub open spec fn keys_distinct(s: Seq<InputView>) -> bool {
    forall|i: int, j: int| 0 <= i < s.len() && 0 <= j < s.len() && input_key(s, i) == input_key(s, j) ==> i == j
}

/// A store of validated inputs, one per coordinate.
pub open spec fn store_ok(s: Seq<InputView>) -> bool {
    &&& keys_distinct(s)
    &&& forall|i: int| 0 <= i < s.len() ==> manifest_problems((#[trigger] s[i]).manifest).len() == 0
    &&& forall|i: int| 0 <= i < s.len() ==> source_problems((#[trigger] s[i]).source, "source"@).len() == 0
}

/// Where in the store the input claiming `name` stands.
pub open spec fn store_has(s: Seq<InputView>, name: Seq<char>) -> bool {
    exists|i: int| 0 <= i < s.len() && #[trigger] input_key(s, i) == name
}

/// Registering an input, as far as the store goes: an invalid input, or one that claims a
/// registered coordinate with a different input, is refused (`None`); an identical input
/// leaves the store as it is; any other is added.
pub open spec fn register_step(s: Seq<InputView>, x: InputView) -> Option<Seq<InputView>> {
    if manifest_problems(x.manifest).len() > 0 || source_problems(x.source, "source"@).len() > 0 {
        None
    } else if store_has(s, x.manifest.name) {
        let i = choose|i: int| 0 <= i < s.len() && #[trigger] input_key(s, i) == x.manifest.name;
        if same_input(s[i], x) {
            Some(s)
        } else {
            None
        }
    } else {
        Some(s.push(x))
    }
}

/// Registering every input in turn.
pub open spec fn register_all(s: Seq<InputView>, xs: Seq<InputView>) -> Option<Seq<InputView>>
    decreases xs.len(),
{
    if xs.len() == 0 {
        Some(s)
    } else {
        match register_all(s, xs.drop_last()) {
            Some(t) => register_step(t, xs.last()),
            None => None,
        }
    }
}

/// The error that refusing `x` reports.
pub open spec fn register_error(s: Seq<InputView>, x: InputView, e: ResolveError) -> bool {
    if manifest_problems(x.manifest).len() > 0 {
        e matches ResolveError::Manifest { path, error: ManifestError::Invalid { problems } } && path@ == source_location(
            x.source,
        ) && problem_pairs(problems@) == manifest_problems(x.manifest)
    } else if source_problems(x.source, "source"@).len() > 0 {
        e matches ResolveError::Lockfile(LockfileError::Invalid { problems }) && problem_pairs(problems@) == source_problems(
            x.source,
            "source"@,
        )
    } else {
        let i = choose|i: int| 0 <= i < s.len() && #[trigger] input_key(s, i) == x.manifest.name;
        if s[i].source != x.source {
            e matches ResolveError::DuplicateCoordinate { coordinate, first_source, second_source }
                && coordinate@ == x.manifest.name && first_source@ == source_location(s[i].source)
                && second_source@ == source_location(x.source)
        } else if s[i].manifest.version != x.manifest.version {
            e matches ResolveError::VersionConflict { coordinate, expected, actual, dependent } && coordinate@
                == x.manifest.name && expected@ == s[i].manifest.version && actual@ == x.manifest.version
                && dependent@ == x.manifest.name
        } else {
            e matches ResolveError::InvalidInput { context, detail } && context@ == x.manifest.name && detail@
                == "the same source produced different package inputs"@
        }
    }
}

/// Registers an input into the store.
fn register_input(store: &mut Vec<PackageInput>, input: PackageInput) -> (result: Result<(), ResolveError>)
    requires
        store_ok(old(store)@.map_values(|p: PackageInput| p@)),
    ensures
        store_ok(final(store)@.map_values(|p: PackageInput| p@)),
        match register_step(old(store)@.map_values(|p: PackageInput| p@), input@) {
            Some(s) => result is Ok && final(store)@.map_values(|p: PackageInput| p@) == s,
            None => result matches Err(e) && register_error(old(store)@.map_values(|p: PackageInput| p@), input@, e),
        },
{
    let ghost s = store@.map_values(|p: PackageInput| p@);
    match input.manifest.validate() {
        Ok(()) => {},
        Err(error) => return Err(ResolveError::Manifest { path: input.source.location(), error }),
    }
    match input.source.validate() {
        Ok(()) => {},
        Err(error) => return Err(ResolveError::Lockfile(error)),
    }
    let mut i: usize = 0;
    while i < store.len()
        invariant
            s == store@.map_values(|p: PackageInput| p@),
            store_ok(s),
            manifest_problems(input@.manifest).len() == 0,
            source_problems(input@.source, "source"@).len() == 0,
            i <= store@.len(),
            forall|j: int| 0 <= j < i ==> input_key(s, j) != input@.manifest.name,
        decreases store.len() - i,
    {
        if text_equal(store[i].manifest.name.as_str(), input.manifest.name.as_str()) {
            let existing = &store[i];
            assert(input_key(s, i as int) == input@.manifest.name);
            proof {
                let c = choose|c: int| 0 <= c < s.len() && #[trigger] input_key(s, c) == input@.manifest.name;
                assert(c == i);
            }
            if existing.same_as(&input) {
                return Ok(());
            }
            if existing.source != input.source {
                return Err(ResolveError::DuplicateCoordinate {
                    coordinate: input.manifest.name.duplicate(),
                    first_source: existing.source.location(),
                    second_source: input.source.location(),
                });
            }
            if !text_equal(existing.manifest.version.as_str(), input.manifest.version.as_str()) {
                let coordinate = input.manifest.name.duplicate();
                let dependent = input.manifest.name.duplicate();
                return Err(ResolveError::VersionConflict {
                    coordinate,
                    expected: existing.manifest.version.clone(),
                    actual: input.manifest.version,
                    dependent,
                });
            }
            return Err(ResolveError::InvalidInput {
                context: input.manifest.name.to_string(),
                detail: String::from_str("the same source produced different package inputs"),
            });
        }
        i = i + 1;
    }
    assert(!store_has(s, input@.manifest.name));
    let ghost x = input@;
    store.push(input);
    assert(store@.map_values(|p: PackageInput| p@) =~= s.push(x));
    proof {
        let t = s.push(x);
        assert forall|a: int, b: int| 0 <= a < t.len() && 0 <= b < t.len() && input_key(t, a) == input_key(t, b) implies a == b by {
            if a < s.len() && b < s.len() {
                assert(input_key(t, a) == input_key(s, a) && input_key(t, b) == input_key(s, b));
            } else if a < s.len() {
                assert(input_key(t, a) == input_key(s, a));
            } else if b < s.len() {
                assert(input_key(t, b) == input_key(s, b));
            }
        }
        assert forall|a: int| 0 <= a < t.len() implies manifest_problems((#[trigger] t[a]).manifest).len() == 0 by {
            if a < s.len() {
                assert(t[a] == s[a]);
            }
        }
        assert forall|a: int| 0 <= a < t.len() implies source_problems((#[trigger] t[a]).source, "source"@).len() == 0 by {
            if a < s.len() {
                assert(t[a] == s[a]);
            }
        }
    }
    Ok(())
}


/// One package node in a resolved graph.
#[derive(Debug)]
pub struct ResolvedPackage {
    /// Canonical package coordinate.
    pub coordinate: PackageId,
    /// Exact manifest SemVer version.
    pub version: String,
    /// Relative source path.
    pub source: PackageSource,
    /// SHA-256 digest of canonical manifest and entry content.
    pub digest: ContentDigest,
    /// Direct dependency coordinates in canonical order.
    pub dependencies: Vec<PackageId>,
    /// Normalized package capabilities.
    pub capabilities: Vec<String>,
    /// Normalized compilation targets.
    pub targets: Vec<String>,
    /// Discovered relative entry path.
    pub entry: String,
}

/// The value reading of a resolved package.
pub ghost struct ResolvedView {
    /// Coordinate text.
    pub coordinate: Seq<char>,
    /// Version text.
    pub version: Seq<char>,
    /// Source.
    pub source: SourceView,
    /// Digest text.
    pub digest: Seq<char>,
    /// Dependency coordinates.
    pub dependencies: Seq<Seq<char>>,
    /// Capabilities.
    pub capabilities: Seq<Seq<char>>,
    /// Targets.
    pub targets: Seq<Seq<char>>,
    /// Entry path.
    pub entry: Seq<char>,
}

impl View for ResolvedPackage {
    type V = ResolvedView;

    open spec fn view(&self) -> ResolvedView {
        ResolvedView {
            coordinate: self.coordinate@,
            version: self.version@,
            source: self.source@,
            digest: self.digest@,
            dependencies: id_views(self.dependencies@),
            capabilities: string_views(self.capabilities@),
            targets: string_views(self.targets@),
            entry: self.entry@,
        }
    }
}

/// The names of a dependency list.
pub open spec fn dependency_names(ds: Seq<DependencyView>) -> Seq<Seq<char>> {
    ds.map_values(|d: DependencyView| d.name)
}

/// The record resolution makes of input `x` whose manifest in canonical form is `c`.
pub open spec fn resolved_record(c: ManifestView, x: InputView) -> ResolvedView {
    ResolvedView {
        coordinate: c.name,
        version: c.version,
        source: x.source,
        digest: package_digest(c, utf8(x.entry), x.entry_bytes),
        dependencies: dependency_names(c.dependencies),
        capabilities: c.capabilities,
        targets: c.targets,
        entry: x.entry,
    }
}

/// The lockfile record of a resolved package.
pub open spec fn locked_record(r: ResolvedView) -> LockedView {
    LockedView {
        coordinate: r.coordinate,
        version: r.version,
        source: r.source,
        digest: r.digest,
        dependencies: r.dependencies,
        capabilities: r.capabilities,
        targets: r.targets,
    }
}

/// A copy of each coordinate.
fn copy_ids(ids: &Vec<PackageId>) -> (copy: Vec<PackageId>)
    ensures
        id_views(copy@) == id_views(ids@),
{
    let mut copy: Vec<PackageId> = Vec::new();
    let mut i: usize = 0;
    while i < ids.len()
        invariant
            i <= ids@.len(),
            copy@.len() == i,
            forall|k: int| 0 <= k < i ==> (#[trigger] copy@[k])@ == ids@[k]@,
        decreases ids.len() - i,
    {
        copy.push(ids[i].duplicate());
        i = i + 1;
    }
    assert(id_views(copy@) =~= id_views(ids@));
    copy
}

/// A copy of each string.
fn copy_strings(items: &Vec<String>) -> (copy: Vec<String>)
    ensures
        string_views(copy@) == string_views(items@),
{
    let mut copy: Vec<String> = Vec::new();
    let mut i: usize = 0;
    while i < items.len()
        invariant
            i <= items@.len(),
            copy@.len() == i,
            forall|k: int| 0 <= k < i ==> (#[trigger] copy@[k])@ == items@[k]@,
        decreases items.len() - i,
    {
        copy.push(items[i].clone());
        i = i + 1;
    }
    assert(string_views(copy@) =~= string_views(items@));
    copy
}

impl ResolvedPackage {
    /// This graph node as a lockfile record.
    pub fn to_locked_package(&self) -> (package: LockedPackage)
        ensures
            package@ == locked_record(self@),
    {
        LockedPackage::new(
            self.coordinate.duplicate(),
            self.version.as_str(),
            self.source.duplicate(),
            self.digest.duplicate(),
            copy_ids(&self.dependencies),
            copy_strings(&self.capabilities),
        ).with_targets(copy_strings(&self.targets))
    }
}

/// A resolved record of an input whose manifest is in canonical form.
fn record_of(c: &Manifest, input: &PackageInput) -> (record: ResolvedPackage)
    ensures
        record@ == resolved_record(c@, input@),
{
    let json = manifest_json_bytes(c);
    let path = utf8_bytes(input.entry.as_str());
    let parts: [(&str, &[u8]); 3] = [
        ("manifest", json.as_slice()),
        ("entry-path", path.as_slice()),
        ("entry", input.entry_bytes.as_slice()),
    ];
    let slice = parts.as_slice();
    assert(crate::package::digest::parts_bytes(slice@) =~= seq![
        ("manifest".spec_bytes(), crate::package::json::manifest_json(c@)),
        ("entry-path".spec_bytes(), utf8(input@.entry)),
        ("entry".spec_bytes(), input@.entry_bytes),
    ]);
    let digest = ContentDigest::from_parts(slice);
    let mut dependencies: Vec<PackageId> = Vec::new();
    let mut i: usize = 0;
    while i < c.dependencies.len()
        invariant
            i <= c.dependencies@.len(),
            dependencies@.len() == i,
            forall|k: int| 0 <= k < i ==> (#[trigger] dependencies@[k])@ == c.dependencies@[k]@.name,
        decreases c.dependencies.len() - i,
    {
        dependencies.push(c.dependencies[i].name.duplicate());
        i = i + 1;
    }
    assert(id_views(dependencies@) =~= dependency_names(c@.dependencies));
    ResolvedPackage {
        coordinate: c.name.duplicate(),
        version: c.version.clone(),
        source: input.source.duplicate(),
        digest,
        dependencies,
        capabilities: copy_strings(&c.capabilities),
        targets: copy_strings(&c.targets),
        entry: input.entry.clone(),
    }
}


/// The readings of resolved packages.
pub open spec fn resolved_views(ps: Seq<ResolvedPackage>) -> Seq<ResolvedView> {
    ps.map_values(|r: ResolvedPackage| r@)
}

/// The lockfile records of resolved packages.
pub open spec fn locked_records(ps: Seq<ResolvedView>) -> Seq<LockedView> {
    ps.map_values(|r: ResolvedView| locked_record(r))
}

/// `r` is the first position of the package `root`.
pub open spec fn root_at(ps: Seq<ResolvedView>, root: Seq<char>, r: int) -> bool {
    &&& 0 <= r < ps.len()
    &&& ps[r].coordinate == root
    &&& forall|t: int| 0 <= t < r ==> (#[trigger] ps[t]).coordinate != root
}

/// Some package's capabilities cover `x`.
pub open spec fn graph_covers(ps: Seq<ResolvedView>, x: Seq<char>) -> bool {
    exists|t: int, k: int| 0 <= t < ps.len() && 0 <= k < ps[t].capabilities.len() && covers(#[trigger] ps[t].capabilities[k], x)
}

/// What assembling a graph from `ps` under `root` yields: the root package's capabilities
/// bound every package's, the effective capabilities cover what some package's cover, and
/// the lock projection is valid; otherwise the first failure.
pub open spec fn graph_outcome(ps: Seq<ResolvedView>, root: Seq<char>, result: Result<ResolvedPackageGraph, ResolveError>) -> bool {
    match result {
        Ok(g) => exists|r: int| {
            &&& root_at(ps, root, r)
            &&& g.root@ == root
            &&& resolved_views(g.packages@) == ps
            &&& forall|t: int| 0 <= t < ps.len() ==> first_capability_error((#[trigger] ps[t]).capabilities) is None
            &&& forall|t: int, k: int| 0 <= t < ps.len() && 0 <= k < ps[t].capabilities.len() ==> allows_seq(
                ps[r].capabilities,
                #[trigger] ps[t].capabilities[k],
            )
            &&& normalizes(string_views(g.root_capabilities@), ps[r].capabilities)
            &&& canonical(string_views(g.capabilities@))
            &&& forall|x: Seq<char>| allows_seq(string_views(g.capabilities@), x) == graph_covers(ps, x)
            &&& exists|l: Lockfile| lock_outcome(locked_records(ps), Ok(l))
        },
        Err(ResolveError::InvalidInput { context, detail }) => (forall|t: int| 0 <= t < ps.len() ==> (#[trigger] ps[t]).coordinate != root)
            && context@ == root && detail@ == "resolved graph does not contain its root"@,
        Err(ResolveError::Capability(_)) => exists|t: int| 0 <= t < ps.len() && first_capability_error((#[trigger] ps[t]).capabilities) is Some,
        Err(ResolveError::CapabilityLimitExceeded { root: named, package, capability }) => exists|r: int, t: int| {
            &&& #[trigger] root_at(ps, root, r)
            &&& named@ == root
            &&& 0 <= t < ps.len()
            &&& (#[trigger] ps[t]).coordinate == package@
            &&& ps[t].capabilities.contains(capability@)
            &&& !allows_seq(ps[r].capabilities, capability@)
        },
        Err(ResolveError::Lockfile(e)) => lock_outcome(locked_records(ps), Err(e)),
        Err(_) => false,
    }
}

/// A deterministic resolved package graph.
#[derive(Debug)]
pub struct ResolvedPackageGraph {
    /// Root package coordinate.
    pub root: PackageId,
    /// Packages in dependency-first topological order.
    pub packages: Vec<ResolvedPackage>,
    /// Normalized capabilities used by the root after transitive computation.
    pub capabilities: Vec<String>,
    /// Normalized upper bound declared by the root manifest.
    pub root_capabilities: Vec<String>,
}

/// The names of a capability set, in its order.
fn capability_names(set: &CapabilitySet) -> (names: Vec<String>)
    ensures
        string_views(names@) == set@,
{
    let grants = set.as_slice();
    let mut names: Vec<String> = Vec::new();
    let mut i: usize = 0;
    while i < grants.len()
        invariant
            grants@.map_values(|c: crate::host::capability::Capability| c@) == set@,
            i <= grants@.len(),
            names@.len() == i,
            forall|k: int| 0 <= k < i ==> (#[trigger] names@[k])@ == grants@[k]@,
        decreases grants.len() - i,
    {
        names.push(grants[i].to_string());
        i = i + 1;
    }
    assert(string_views(names@) =~= set@);
    names
}

impl ResolvedPackageGraph {
    /// The first package with this coordinate.
    pub fn package(&self, coordinate: &PackageId) -> (found: Option<&ResolvedPackage>)
        ensures
            match found {
                Some(p) => exists|t: int| 0 <= t < self.packages@.len() && self.packages@[t] == *p && p@.coordinate == coordinate@
                    && forall|u: int| 0 <= u < t ==> (#[trigger] self.packages@[u])@.coordinate != coordinate@,
                None => forall|t: int| 0 <= t < self.packages@.len() ==> (#[trigger] self.packages@[t])@.coordinate != coordinate@,
            },
    {
        let mut t: usize = 0;
        while t < self.packages.len()
            invariant
                t <= self.packages@.len(),
                forall|u: int| 0 <= u < t ==> (#[trigger] self.packages@[u])@.coordinate != coordinate@,
            decreases self.packages.len() - t,
        {
            if text_equal(self.packages[t].coordinate.as_str(), coordinate.as_str()) {
                return Some(&self.packages[t]);
            }
            t = t + 1;
        }
        None
    }

    /// The dependency-first coordinate order.
    pub fn topological_order(&self) -> (order: Vec<PackageId>)
        ensures
            id_views(order@) == resolved_views(self.packages@).map_values(|r: ResolvedView| r.coordinate),
    {
        let mut order: Vec<PackageId> = Vec::new();
        let mut t: usize = 0;
        while t < self.packages.len()
            invariant
                t <= self.packages@.len(),
                order@.len() == t,
                forall|u: int| 0 <= u < t ==> (#[trigger] order@[u])@ == self.packages@[u]@.coordinate,
            decreases self.packages.len() - t,
        {
            order.push(self.packages[t].coordinate.duplicate());
            t = t + 1;
        }
        assert(id_views(order@) =~= resolved_views(self.packages@).map_values(|r: ResolvedView| r.coordinate));
        order
    }

    /// The effective capability set.
    pub fn capability_set(&self) -> (result: Result<CapabilitySet, CapabilityError>)
        ensures
            match result {
                Ok(set) => first_capability_error(string_views(self.capabilities@)) is None && normalizes(
                    set@,
                    string_views(self.capabilities@),
                ),
                Err(_) => first_capability_error(string_views(self.capabilities@)) is Some,
            },
    {
        let names = self.capabilities.as_slice();
        assert(names@ == self.capabilities@);
        parse_capabilities(names)
    }

    /// The canonical lockfile of this graph.
    pub fn to_lockfile(&self) -> (result: Result<Lockfile, ResolveError>)
        ensures
            match result {
                Ok(l) => lock_outcome(locked_records(resolved_views(self.packages@)), Ok(l)),
                Err(ResolveError::Lockfile(e)) => lock_outcome(locked_records(resolved_views(self.packages@)), Err(e)),
                Err(_) => false,
            },
    {
        let mut records: Vec<LockedPackage> = Vec::new();
        let mut t: usize = 0;
        while t < self.packages.len()
            invariant
                t <= self.packages@.len(),
                records@.len() == t,
                forall|u: int| 0 <= u < t ==> (#[trigger] records@[u])@ == locked_record(self.packages@[u]@),
            decreases self.packages.len() - t,
        {
            records.push(self.packages[t].to_locked_package());
            t = t + 1;
        }
        assert(crate::package::lockfile::locked_views(records@) =~= locked_records(resolved_views(self.packages@)));
        match Lockfile::new(records) {
            Ok(l) => Ok(l),
            Err(e) => Err(ResolveError::Lockfile(e)),
        }
    }

    /// Validates the graph's lock projection.
    pub fn validate(&self) -> (result: Result<(), ResolveError>)
        ensures
            match result {
                Ok(_) => exists|l: Lockfile| lock_outcome(locked_records(resolved_views(self.packages@)), Ok(l)),
                Err(ResolveError::Lockfile(e)) => lock_outcome(locked_records(resolved_views(self.packages@)), Err(e)),
                Err(_) => false,
            },
    {
        match self.to_lockfile() {
            Ok(_) => Ok(()),
            Err(e) => Err(e),
        }
    }
}


/// Assembles a graph from resolved packages under `root`: every package's capabilities
/// must lie within the root package's, the effective capabilities are their union, and
/// the lock projection must be valid.
fn build_graph(root: PackageId, packages: Vec<ResolvedPackage>) -> (result: Result<ResolvedPackageGraph, ResolveError>)
    ensures
        graph_outcome(resolved_views(packages@), root@, result),
{
    let ghost ps = resolved_views(packages@);
    let n = packages.len();
    let mut r: usize = 0;
    while r < n && !text_equal(packages[r].coordinate.as_str(), root.as_str())
        invariant
            n == packages@.len(),
            ps == resolved_views(packages@),
            r <= n,
            forall|t: int| 0 <= t < r ==> (#[trigger] ps[t]).coordinate != root@,
        decreases n - r,
    {
        r = r + 1;
    }
    if r == n {
        return Err(ResolveError::InvalidInput {
            context: root.to_string(),
            detail: String::from_str("resolved graph does not contain its root"),
        });
    }
    assert(root_at(ps, root@, r as int));
    let root_names = packages[r].capabilities.as_slice();
    let root_set = match parse_capabilities(root_names) {
        Ok(set) => set,
        Err(e) => {
            assert(first_capability_error(ps[r as int].capabilities) is Some);
            return Err(ResolveError::Capability(e));
        },
    };
    let ghost rcaps = ps[r as int].capabilities;
    let first: [&CapabilitySet; 1] = [&root_set];
    let mut effective = union_capabilities(first.as_slice());
    assert forall|x: Seq<char>| allows_seq(effective@, x) == allows_seq(rcaps, x) by {
        if allows_seq(effective@, x) {
            let k = choose|k: int| 0 <= k < first@.len() && allows_seq(#[trigger] first@[k]@, x);
            assert(k == 0);
        }
        if allows_seq(rcaps, x) {
            assert(allows_seq(first@[0]@, x));
        }
    }
    let mut t: usize = 0;
    while t < n
        invariant
            n == packages@.len(),
            ps == resolved_views(packages@),
            root_at(ps, root@, r as int),
            rcaps == ps[r as int].capabilities,
            normalizes(root_set@, rcaps),
            t <= n,
            canonical(effective@),
            forall|u: int| 0 <= u < t ==> first_capability_error((#[trigger] ps[u]).capabilities) is None,
            forall|u: int, k: int| 0 <= u < t && 0 <= k < ps[u].capabilities.len() ==> allows_seq(
                rcaps,
                #[trigger] ps[u].capabilities[k],
            ),
            forall|x: Seq<char>| #![trigger allows_seq(effective@, x)] allows_seq(effective@, x) == (allows_seq(rcaps, x) || exists|u: int, k: int|
                0 <= u < t && 0 <= k < ps[u].capabilities.len() && covers(#[trigger] ps[u].capabilities[k], x)),
        decreases n - t,
    {
        let names = packages[t].capabilities.as_slice();
        let set = match parse_capabilities(names) {
            Ok(set) => set,
            Err(e) => {
                assert(first_capability_error(ps[t as int].capabilities) is Some);
                return Err(ResolveError::Capability(e));
            },
        };
        let ghost caps = ps[t as int].capabilities;
        match first_outside_bound(&root_set, &set) {
            Some(c) => {
                proof {
                    let k = choose|k: int| 0 <= k < set@.len() && set@[k] == c@ && !allows_seq(root_set@, c@)
                        && forall|j: int| 0 <= j < k ==> allows_seq(root_set@, #[trigger] set@[j]);
                    assert(set@.contains(set@[k]));
                    assert(caps.contains(c@));
                    assert(!allows_seq(rcaps, c@));
                    assert(root_at(ps, root@, r as int));
                }
                return Err(ResolveError::CapabilityLimitExceeded {
                    root: root.duplicate(),
                    package: packages[t].coordinate.duplicate(),
                    capability: c.to_string(),
                });
            },
            None => {},
        }
        proof {
            assert forall|k: int| 0 <= k < caps.len() implies allows_seq(rcaps, #[trigger] caps[k]) by {
                law_covers_reflexive(caps[k]);
                assert(covers(caps[k], caps[k]));
                assert(allows_seq(set@, caps[k]));
                let j = choose|j: int| 0 <= j < set@.len() && covers(#[trigger] set@[j], caps[k]);
                assert(allows_seq(root_set@, set@[j]));
                let i = choose|i: int| 0 <= i < root_set@.len() && covers(#[trigger] root_set@[i], set@[j]);
                law_covers_transitive(root_set@[i], set@[j], caps[k]);
                assert(allows_seq(root_set@, caps[k]));
            }
        }
        let pair: [&CapabilitySet; 2] = [&effective, &set];
        let next = union_capabilities(pair.as_slice());
        proof {
            assert forall|x: Seq<char>| #![trigger allows_seq(next@, x)] allows_seq(next@, x) == (allows_seq(rcaps, x) || exists|u: int, k: int|
                0 <= u < t + 1 && 0 <= k < ps[u].capabilities.len() && covers(#[trigger] ps[u].capabilities[k], x)) by {
                if allows_seq(next@, x) {
                    let k = choose|k: int| 0 <= k < pair@.len() && allows_seq(#[trigger] pair@[k]@, x);
                    if k == 1 {
                        assert(allows_seq(set@, x));
                        let m = choose|m: int| 0 <= m < caps.len() && covers(#[trigger] caps[m], x);
                        assert(covers(ps[t as int].capabilities[m], x));
                    } else {
                        assert(allows_seq(effective@, x));
                        if !allows_seq(rcaps, x) {
                            let (u, m) = choose|u: int, m: int|
                                0 <= u < t && 0 <= m < ps[u].capabilities.len() && covers(#[trigger] ps[u].capabilities[m], x);
                            assert(covers(ps[u].capabilities[m], x));
                        }
                    }
                }
                if allows_seq(rcaps, x) {
                    assert(allows_seq(effective@, x));
                    assert(allows_seq(pair@[0]@, x));
                }
                if exists|u: int, k: int| 0 <= u < t + 1 && 0 <= k < ps[u].capabilities.len() && covers(#[trigger] ps[u].capabilities[k], x) {
                    let (u, m) = choose|u: int, m: int|
                        0 <= u < t + 1 && 0 <= m < ps[u].capabilities.len() && covers(#[trigger] ps[u].capabilities[m], x);
                    if u < t {
                        assert(allows_seq(effective@, x));
                        assert(allows_seq(pair@[0]@, x));
                    } else {
                        assert(covers(caps[m], x));
                        assert(allows_seq(set@, x));
                        assert(allows_seq(pair@[1]@, x));
                    }
                }
            }
        }
        effective = next;
        t = t + 1;
    }
    let capabilities = capability_names(&effective);
    let root_capabilities = capability_names(&root_set);
    let graph = ResolvedPackageGraph { root, packages, capabilities, root_capabilities };
    proof {
        assert forall|x: Seq<char>| allows_seq(string_views(graph.capabilities@), x) == graph_covers(ps, x) by {
            if allows_seq(rcaps, x) {
                let i = choose|i: int| 0 <= i < rcaps.len() && covers(#[trigger] rcaps[i], x);
                assert(covers(ps[r as int].capabilities[i], x));
            }
            if graph_covers(ps, x) {
                let (u, m) = choose|u: int, m: int| 0 <= u < ps.len() && 0 <= m < ps[u].capabilities.len() && covers(#[trigger] ps[u].capabilities[m], x);
                assert(covers(ps[u].capabilities[m], x));
            }
        }
    }
    match graph.to_lockfile() {
        Ok(l) => {
            assert(resolved_views(graph.packages@) == ps);
            Ok(graph)
        },
        Err(e) => Err(e),
    }
}


/// A portable relative entry path: not empty, no backslash, not absolute, and no empty,
/// `.` or `..` segment between slashes.
pub open spec fn safe_entry_path(v: Seq<char>) -> bool {
    &&& v.len() > 0
    &&& !has_char(v, '\\')
    &&& !is_absolute_path(v)
    &&& !has_empty_segment(split(v, '/'))
    &&& !has_segment(split(v, '/'), "."@)
    &&& !has_segment(split(v, '/'), ".."@)
}

/// Whether `value` is a portable relative entry path.
pub fn is_safe_entry_path(value: &str) -> (ok: bool)
    ensures
        ok == safe_entry_path(value@),
{
    let chars = chars_of(value);
    if chars.len() == 0 || has_backslash(&chars) || starts_absolute(&chars) {
        return false;
    }
    let segments = split_str(value, '/');
    if any_empty_segment(&segments) {
        return false;
    }
    let ghost segs = views(segments@);
    let mut k: usize = 0;
    while k < segments.len()
        invariant
            segs == views(segments@),
            segs == split(value@, '/'),
            k <= segments@.len(),
            forall|j: int| 0 <= j < k ==> (#[trigger] segs[j]) != "."@ && segs[j] != ".."@,
        decreases segments.len() - k,
    {
        assert(segs[k as int] == segments@[k as int]@);
        if is_dot(segments[k]) || is_dot_dot(segments[k]) {
            return false;
        }
        k = k + 1;
    }
    true
}

/// `m` declares a dependency named `b`.
pub open spec fn declares(m: ManifestView, b: Seq<char>) -> bool {
    exists|k: int| 0 <= k < m.dependencies.len() && #[trigger] m.dependencies[k].name == b
}

/// The package registered under `a` declares a dependency named `b`.
pub open spec fn store_edge(s: Seq<InputView>, a: Seq<char>, b: Seq<char>) -> bool {
    exists|i: int| 0 <= i < s.len() && #[trigger] input_key(s, i) == a && declares(s[i].manifest, b)
}

/// A chain of dependencies from `root` through registered packages.
pub open spec fn store_chain(s: Seq<InputView>, root: Seq<char>, c: Seq<Seq<char>>) -> bool {
    &&& c.len() >= 1
    &&& c[0] == root
    &&& forall|t: int| 0 <= t < c.len() ==> store_has(s, #[trigger] c[t])
    &&& forall|t: int| 0 <= t < c.len() - 1 ==> store_edge(s, #[trigger] c[t], c[t + 1])
}

/// Some chain of dependencies leads from `root` to the registered package `x`.
pub open spec fn store_reaches(s: Seq<InputView>, root: Seq<char>, x: Seq<char>) -> bool {
    exists|c: Seq<Seq<char>>| #[trigger] store_chain(s, root, c) && c[c.len() - 1] == x
}

/// A closed chain of dependencies through registered packages.
pub open spec fn store_cycle(s: Seq<InputView>, c: Seq<Seq<char>>) -> bool {
    &&& c.len() >= 2
    &&& c[0] == c[c.len() - 1]
    &&& forall|t: int| 0 <= t < c.len() ==> store_has(s, #[trigger] c[t])
    &&& forall|t: int| 0 <= t < c.len() - 1 ==> store_edge(s, #[trigger] c[t], c[t + 1])
}

/// `r` is what resolution records for input `x`, its manifest taken in canonical form.
pub open spec fn resolves_input(r: ResolvedView, x: InputView) -> bool {
    exists|c: ManifestView| #[trigger] canonical_manifest(c, x.manifest) && r == resolved_record(c, x)
}

/// The resolved record `r` stems from the registered input of its coordinate.
pub open spec fn from_store(s: Seq<InputView>, r: ResolvedView) -> bool {
    exists|i: int| 0 <= i < s.len() && #[trigger] input_key(s, i) == r.coordinate && resolves_input(r, s[i])
}

/// Some package before position `t` has coordinate `d`.
pub open spec fn listed_before(ps: Seq<ResolvedView>, t: int, d: Seq<char>) -> bool {
    exists|u: int| 0 <= u < t && (#[trigger] ps[u]).coordinate == d
}

/// `ps` lists every package reachable from `root` once, each after its dependencies,
/// as resolution records them.
pub open spec fn resolved_list(s: Seq<InputView>, root: Seq<char>, ps: Seq<ResolvedView>) -> bool {
    &&& forall|t: int| 0 <= t < ps.len() ==> from_store(s, #[trigger] ps[t])
    &&& forall|a: int, b: int| 0 <= a < b < ps.len() ==> (#[trigger] ps[a]).coordinate != (#[trigger] ps[b]).coordinate
    &&& forall|x: Seq<char>| store_reaches(s, root, x) == exists|t: int| 0 <= t < ps.len() && (#[trigger] ps[t]).coordinate == x
    &&& forall|t: int, k: int| 0 <= t < ps.len() && 0 <= k < ps[t].dependencies.len() ==> listed_before(ps, t, #[trigger] ps[t].dependencies[k])
}

/// The registered package `dependent` declares `coordinate` at version `expected`, and
/// the package registered under `coordinate` has version `actual`, another text.
pub open spec fn version_mismatch(s: Seq<InputView>, dependent: Seq<char>, coordinate: Seq<char>, expected: Seq<char>, actual: Seq<char>) -> bool {
    &&& exists|i: int, k: int| 0 <= i < s.len() && #[trigger] input_key(s, i) == dependent && 0 <= k < s[i].manifest.dependencies.len()
        && #[trigger] s[i].manifest.dependencies[k].name == coordinate && s[i].manifest.dependencies[k].version == Some(expected)
    &&& exists|j: int| 0 <= j < s.len() && #[trigger] input_key(s, j) == coordinate && s[j].manifest.version == actual
    &&& actual != expected
}

/// What resolving the store from `root` reports: the resolved graph of every reachable
/// package, or a failure that one of them shows.
pub open spec fn resolution_holds(s: Seq<InputView>, root: Seq<char>, result: Result<ResolvedPackageGraph, ResolveError>) -> bool {
    match result {
        Err(ResolveError::MissingDependency { dependent, dependency }) => store_reaches(s, root, dependent@)
            && store_edge(s, dependent@, dependency@) && !store_has(s, dependency@),
        Err(ResolveError::VersionConflict { coordinate, expected, actual, dependent }) => store_reaches(s, root, dependent@)
            && version_mismatch(s, dependent@, coordinate@, expected@, actual@),
        Err(ResolveError::DependencyCycle { cycle }) => store_cycle(s, id_views(cycle@)) && store_reaches(s, root, cycle@[0]@),
        Err(ResolveError::InvalidInput { context, detail }) => {
            ||| (!store_has(s, root) && context@ == root && detail@ == "root package is not present in the input store"@)
            ||| (store_reaches(s, root, context@) && detail@ == "entry path must be relative and portable"@
                && exists|i: int| 0 <= i < s.len() && #[trigger] input_key(s, i) == context@ && !safe_entry_path(s[i].entry))
            ||| (exists|ps: Seq<ResolvedView>| resolved_list(s, root, ps) && graph_outcome(ps, root, result))
        },
        _ => store_has(s, root) && exists|ps: Seq<ResolvedView>| resolved_list(s, root, ps) && graph_outcome(ps, root, result),
    }
}


/// The readings of the inputs of a store.
pub open spec fn input_views(store: Seq<PackageInput>) -> Seq<InputView> {
    store.map_values(|p: PackageInput| p@)
}

/// `targets` and `conflict` describe the canonical dependencies of the store: each names
/// the position of the input it refers to, or the store's size where none is registered;
/// a conflict marks a dependency requiring a version the input does not have.
pub open spec fn targets_of(s: Seq<InputView>, canon: Seq<ManifestView>, targets: Seq<Seq<usize>>, conflict: Seq<Seq<bool>>) -> bool {
    &&& targets.len() == s.len()
    &&& conflict.len() == s.len()
    &&& canon.len() == s.len()
    &&& forall|i: int| 0 <= i < s.len() ==> (#[trigger] targets[i]).len() == canon[i].dependencies.len() && conflict[i].len() == canon[i].dependencies.len()
    &&& forall|i: int, k: int| 0 <= i < s.len() && 0 <= k < targets[i].len() ==> {
        let d = canon[i].dependencies[k];
        let t = #[trigger] targets[i][k];
        &&& t <= s.len()
        &&& (t < s.len() ==> input_key(s, t as int) == d.name)
        &&& (t == s.len() ==> !store_has(s, d.name))
        &&& conflict[i][k] == (t < s.len() && d.version is Some && d.version->0 != s[t as int].manifest.version)
    }
}

/// Each input's manifest in canonical form.
pub open spec fn canonical_forms(s: Seq<InputView>, canon: Seq<ManifestView>) -> bool {
    &&& canon.len() == s.len()
    &&& forall|i: int| 0 <= i < s.len() ==> canonical_manifest(#[trigger] canon[i], s[i].manifest)
}

proof fn lemma_same_dependencies(c: ManifestView, m: ManifestView, d: DependencyView)
    requires
        canonical_manifest(c, m),
    ensures
        c.dependencies.contains(d) == m.dependencies.contains(d),
{
    broadcast use vstd::seq_lib::to_multiset_contains;
    assert(c.dependencies.to_multiset().count(d) == m.dependencies.to_multiset().count(d));
}

proof fn lemma_declares(c: ManifestView, m: ManifestView, b: Seq<char>)
    requires
        canonical_manifest(c, m),
    ensures
        declares(c, b) == declares(m, b),
{
    if declares(c, b) {
        let k = choose|k: int| 0 <= k < c.dependencies.len() && #[trigger] c.dependencies[k].name == b;
        lemma_same_dependencies(c, m, c.dependencies[k]);
        assert(c.dependencies.contains(c.dependencies[k]));
        let j = choose|j: int| 0 <= j < m.dependencies.len() && m.dependencies[j] == c.dependencies[k];
        assert(m.dependencies[j].name == b);
    }
    if declares(m, b) {
        let k = choose|k: int| 0 <= k < m.dependencies.len() && #[trigger] m.dependencies[k].name == b;
        lemma_same_dependencies(c, m, m.dependencies[k]);
        assert(m.dependencies.contains(m.dependencies[k]));
        let j = choose|j: int| 0 <= j < c.dependencies.len() && c.dependencies[j] == m.dependencies[k];
        assert(c.dependencies[j].name == b);
    }
}

/// A dependency edge between positions is one between the coordinates.
proof fn lemma_edge_names(s: Seq<InputView>, canon: Seq<ManifestView>, targets: Seq<Seq<usize>>, conflict: Seq<Seq<bool>>, u: int, v: int)
    requires
        keys_distinct(s),
        canonical_forms(s, canon),
        targets_of(s, canon, targets, conflict),
        0 <= u < s.len(),
        0 <= v < s.len(),
    ensures
        walk_edge(targets, u, v) == store_edge(s, input_key(s, u), input_key(s, v)),
{
    lemma_declares(canon[u], s[u].manifest, input_key(s, v));
    if walk_edge(targets, u, v) {
        let k = choose|k: int| 0 <= k < targets[u].len() && #[trigger] targets[u][k] == v;
        assert(canon[u].dependencies[k].name == input_key(s, v));
        assert(declares(canon[u], input_key(s, v)));
    }
    if store_edge(s, input_key(s, u), input_key(s, v)) {
        let i = choose|i: int| 0 <= i < s.len() && #[trigger] input_key(s, i) == input_key(s, u) && declares(s[i].manifest, input_key(s, v));
        assert(i == u);
        let k = choose|k: int| 0 <= k < canon[u].dependencies.len() && #[trigger] canon[u].dependencies[k].name == input_key(s, v);
        let t = targets[u][k];
        if t == s.len() {
            assert(!store_has(s, input_key(s, v)));
        }
        assert(input_key(s, t as int) == input_key(s, v));
        assert(t == v);
    }
}

/// A walk between positions is a chain between the coordinates.
proof fn lemma_walk_chain(s: Seq<InputView>, canon: Seq<ManifestView>, targets: Seq<Seq<usize>>, conflict: Seq<Seq<bool>>, r: int, p: Seq<usize>)
    requires
        keys_distinct(s),
        canonical_forms(s, canon),
        targets_of(s, canon, targets, conflict),
        0 <= r < s.len(),
        is_walk(targets, r, p),
        p[p.len() - 1] < s.len(),
    ensures
        store_chain(s, input_key(s, r), p.map_values(|v: usize| input_key(s, v as int))),
        forall|i: int| 0 <= i < p.len() ==> #[trigger] p[i] < s.len(),
{
    let c = p.map_values(|v: usize| input_key(s, v as int));
    assert forall|i: int| 0 <= i < p.len() implies #[trigger] p[i] < s.len() by {
        if i < p.len() - 1 {
            assert(walk_edge(targets, p[i] as int, p[i + 1] as int));
        }
    }
    assert forall|t: int| 0 <= t < c.len() implies store_has(s, #[trigger] c[t]) by {
        assert(p[t] < s.len());
        assert(input_key(s, p[t] as int) == c[t]);
    }
    assert forall|t: int| 0 <= t < c.len() - 1 implies store_edge(s, #[trigger] c[t], c[t + 1]) by {
        assert(p[t] < s.len() && p[t + 1] < s.len());
        assert(walk_edge(targets, p[t] as int, p[t + 1] as int));
        lemma_edge_names(s, canon, targets, conflict, p[t] as int, p[t + 1] as int);
    }
}

/// The position of a registered coordinate.
pub open spec fn key_position(s: Seq<InputView>, x: Seq<char>) -> int {
    choose|i: int| 0 <= i < s.len() && #[trigger] input_key(s, i) == x
}

/// A chain between coordinates is a walk between their positions.
proof fn lemma_chain_walk(s: Seq<InputView>, canon: Seq<ManifestView>, targets: Seq<Seq<usize>>, conflict: Seq<Seq<bool>>, r: int, c: Seq<Seq<char>>)
    requires
        keys_distinct(s),
        canonical_forms(s, canon),
        targets_of(s, canon, targets, conflict),
        s.len() <= usize::MAX,
        0 <= r < s.len(),
        store_chain(s, input_key(s, r), c),
    ensures
        is_walk(targets, r, c.map_values(|x: Seq<char>| key_position(s, x) as usize)),
        reaches(targets, r, key_position(s, c[c.len() - 1])),
        0 <= key_position(s, c[c.len() - 1]) < s.len(),
        input_key(s, key_position(s, c[c.len() - 1])) == c[c.len() - 1],
{
    let p = c.map_values(|x: Seq<char>| key_position(s, x) as usize);
    assert forall|t: int| 0 <= t < c.len() implies 0 <= key_position(s, #[trigger] c[t]) < s.len() && input_key(s, key_position(s, c[t])) == c[t] by {
        assert(store_has(s, c[t]));
    }
    assert(p[0] == r) by {
        assert(input_key(s, key_position(s, c[0])) == input_key(s, r));
    }
    assert forall|i: int| 0 <= i < p.len() - 1 implies walk_edge(targets, #[trigger] p[i] as int, p[i + 1] as int) by {
        let a = key_position(s, c[i]);
        let b = key_position(s, c[i + 1]);
        assert(0 <= a < s.len() && input_key(s, a) == c[i]);
        assert(0 <= b < s.len() && input_key(s, b) == c[i + 1]);
        assert(store_edge(s, c[i], c[i + 1]));
        lemma_edge_names(s, canon, targets, conflict, a, b);
        assert(p[i] == a && p[i + 1] == b);
    }
    assert(is_walk(targets, r, p));
    assert(p[p.len() - 1] == key_position(s, c[c.len() - 1]));
}

/// Each input's manifest, in canonical form.
fn canonical_manifests(store: &Vec<PackageInput>) -> (canon: Vec<Manifest>)
    requires
        store_ok(input_views(store@)),
    ensures
        canonical_forms(input_views(store@), canon@.map_values(|m: Manifest| m@)),
{
    let ghost s = input_views(store@);
    let mut canon: Vec<Manifest> = Vec::new();
    let mut i: usize = 0;
    while i < store.len()
        invariant
            s == input_views(store@),
            store_ok(s),
            i <= store@.len(),
            canon@.len() == i,
            forall|k: int| 0 <= k < i ==> canonical_manifest((#[trigger] canon@[k])@, s[k].manifest),
        decreases store.len() - i,
    {
        let mut m = store[i].manifest.duplicate();
        assert(manifest_problems(s[i as int].manifest).len() == 0);
        match m.canonicalize() {
            Ok(()) => {},
            Err(_) => {
                assert(false);
            },
        }
        canon.push(m);
        i = i + 1;
    }
    canon
}

/// The position of the input registered under `name`.
fn store_position(store: &Vec<PackageInput>, name: &str) -> (found: Option<usize>)
    ensures
        match found {
            Some(i) => i < store@.len() && input_key(input_views(store@), i as int) == name@,
            None => !store_has(input_views(store@), name@),
        },
{
    let ghost s = input_views(store@);
    let mut i: usize = 0;
    while i < store.len()
        invariant
            s == input_views(store@),
            i <= store@.len(),
            forall|j: int| 0 <= j < i ==> input_key(s, j) != name@,
        decreases store.len() - i,
    {
        if text_equal(store[i].manifest.name.as_str(), name) {
            return Some(i);
        }
        i = i + 1;
    }
    None
}

/// The dependency positions and version conflicts of the canonical manifests.
#[verifier::spinoff_prover]
fn dependency_targets(store: &Vec<PackageInput>, canon: &Vec<Manifest>) -> (out: (Vec<Vec<usize>>, Vec<Vec<bool>>))
    requires
        canon@.len() == store@.len(),
    ensures
        targets_of(input_views(store@), canon@.map_values(|m: Manifest| m@), out.0.deep_view(), out.1.deep_view()),
        walk_graph(out.0.deep_view(), out.1.deep_view()),
{
    let ghost s = input_views(store@);
    let ghost cv = canon@.map_values(|m: Manifest| m@);
    let n = store.len();
    let mut targets: Vec<Vec<usize>> = Vec::new();
    let mut conflict: Vec<Vec<bool>> = Vec::new();
    let mut i: usize = 0;
    while i < n
        invariant
            s == input_views(store@),
            cv == canon@.map_values(|m: Manifest| m@),
            n == s.len(),
            cv.len() == n,
            i <= n,
            targets@.len() == i,
            conflict@.len() == i,
            forall|a: int| 0 <= a < i ==> (#[trigger] targets@[a])@.len() == cv[a].dependencies.len() && conflict@[a]@.len() == cv[a].dependencies.len(),
            forall|a: int, k: int| 0 <= a < i && 0 <= k < targets@[a]@.len() ==> {
                let d = cv[a].dependencies[k];
                let t = #[trigger] targets@[a]@[k];
                &&& t <= n
                &&& (t < n ==> input_key(s, t as int) == d.name)
                &&& (t == n ==> !store_has(s, d.name))
                &&& conflict@[a]@[k] == (t < n && d.version is Some && d.version->0 != s[t as int].manifest.version)
            },
        decreases n - i,
    {
        let deps = &canon[i].dependencies;
        let mut row: Vec<usize> = Vec::new();
        let mut flags: Vec<bool> = Vec::new();
        let mut k: usize = 0;
        while k < deps.len()
            invariant
                s == input_views(store@),
                cv == canon@.map_values(|m: Manifest| m@),
                n == s.len(),
                cv.len() == n,
                i < n,
                deps@ == canon@[i as int].dependencies@,
                k <= deps@.len(),
                row@.len() == k,
                flags@.len() == k,
                forall|q: int| 0 <= q < k ==> {
                    let d = cv[i as int].dependencies[q];
                    let t = #[trigger] row@[q];
                    &&& t <= n
                    &&& (t < n ==> input_key(s, t as int) == d.name)
                    &&& (t == n ==> !store_has(s, d.name))
                    &&& flags@[q] == (t < n && d.version is Some && d.version->0 != s[t as int].manifest.version)
                },
            decreases deps.len() - k,
        {
            let dep = &deps[k];
            assert(cv[i as int].dependencies[k as int] == dep@);
            match store_position(store, dep.name.as_str()) {
                Some(t) => {
                    let clash = match &dep.version {
                        Some(v) => !text_equal(v.as_str(), store[t].manifest.version.as_str()),
                        None => false,
                    };
                    row.push(t);
                    flags.push(clash);
                },
                None => {
                    row.push(n);
                    flags.push(false);
                },
            }
            k = k + 1;
        }
        assert(cv[i as int].dependencies.len() == deps@.len());
        let ghost rows_before = targets@;
        let ghost flags_before = conflict@;
        targets.push(row);
        conflict.push(flags);
        proof {
            assert forall|a: int| 0 <= a < i + 1 implies (#[trigger] targets@[a])@.len() == cv[a].dependencies.len()
                && conflict@[a]@.len() == cv[a].dependencies.len() by {
                if a < i {
                    assert(targets@[a] == rows_before[a] && conflict@[a] == flags_before[a]);
                }
            }
        }
        i = i + 1;
    }
    proof {
        let tv = targets.deep_view();
        let fv = conflict.deep_view();
        assert forall|a: int| 0 <= a < n implies (#[trigger] tv[a]).len() == cv[a].dependencies.len() && fv[a].len() == cv[a].dependencies.len() by {
            assert(tv[a] == targets@[a]@);
            assert(fv[a] == conflict@[a]@);
        }
        assert forall|a: int, k: int| 0 <= a < n && 0 <= k < tv[a].len() implies #[trigger] tv[a][k] <= tv.len() by {
            assert(tv[a] == targets@[a]@);
        }
        assert(targets_of(s, cv, tv, fv)) by {
            assert forall|a: int, k: int| 0 <= a < s.len() && 0 <= k < tv[a].len() implies {
                let d = cv[a].dependencies[k];
                let t = #[trigger] tv[a][k];
                &&& t <= s.len()
                &&& (t < s.len() ==> input_key(s, t as int) == d.name)
                &&& (t == s.len() ==> !store_has(s, d.name))
                &&& fv[a][k] == (t < s.len() && d.version is Some && d.version->0 != s[t as int].manifest.version)
            } by {
                assert(tv[a] == targets@[a]@);
                assert(fv[a] == conflict@[a]@);
            }
        }
    }
    (targets, conflict)
}


/// A node the walk reaches is a coordinate reachable from the root.
proof fn lemma_reached(s: Seq<InputView>, cv: Seq<ManifestView>, tv: Seq<Seq<usize>>, fv: Seq<Seq<bool>>, r: int, v: int)
    requires
        keys_distinct(s),
        canonical_forms(s, cv),
        targets_of(s, cv, tv, fv),
        0 <= r < s.len(),
        0 <= v < s.len(),
        reaches(tv, r, v),
    ensures
        store_reaches(s, input_key(s, r), input_key(s, v)),
{
    let p = choose|p: Seq<usize>| #[trigger] is_walk(tv, r, p) && p[p.len() - 1] == v;
    lemma_walk_chain(s, cv, tv, fv, r, p);
    let ch = p.map_values(|w: usize| input_key(s, w as int));
    assert(ch[ch.len() - 1] == input_key(s, v));
    assert(store_chain(s, input_key(s, r), ch));
}

proof fn lemma_missing(s: Seq<InputView>, cv: Seq<ManifestView>, tv: Seq<Seq<usize>>, fv: Seq<Seq<bool>>, r: int, u: int, k: int)
    requires
        keys_distinct(s),
        canonical_forms(s, cv),
        targets_of(s, cv, tv, fv),
        0 <= r < s.len(),
        reaches(tv, r, u),
        0 <= u < s.len(),
        0 <= k < tv[u].len(),
        tv[u][k] == s.len(),
    ensures
        store_reaches(s, input_key(s, r), input_key(s, u)),
        store_edge(s, input_key(s, u), cv[u].dependencies[k].name),
        !store_has(s, cv[u].dependencies[k].name),
{
    lemma_reached(s, cv, tv, fv, r, u);
    let d = cv[u].dependencies[k].name;
    assert(declares(cv[u], d));
    lemma_declares(cv[u], s[u].manifest, d);
}

proof fn lemma_conflict(s: Seq<InputView>, cv: Seq<ManifestView>, tv: Seq<Seq<usize>>, fv: Seq<Seq<bool>>, r: int, u: int, k: int)
    requires
        keys_distinct(s),
        canonical_forms(s, cv),
        targets_of(s, cv, tv, fv),
        0 <= r < s.len(),
        reaches(tv, r, u),
        0 <= u < s.len(),
        0 <= k < tv[u].len(),
        fv[u][k],
    ensures
        store_reaches(s, input_key(s, r), input_key(s, u)),
        tv[u][k] < s.len(),
        cv[u].dependencies[k].version is Some,
        version_mismatch(
            s,
            input_key(s, u),
            cv[u].dependencies[k].name,
            cv[u].dependencies[k].version->0,
            s[tv[u][k] as int].manifest.version,
        ),
{
    lemma_reached(s, cv, tv, fv, r, u);
    let dv = cv[u].dependencies[k];
    assert(cv[u].dependencies.contains(dv));
    lemma_same_dependencies(cv[u], s[u].manifest, dv);
    let j = choose|j: int| 0 <= j < s[u].manifest.dependencies.len() && s[u].manifest.dependencies[j] == dv;
    assert(s[u].manifest.dependencies[j].name == dv.name);
    let t = tv[u][k] as int;
    assert(input_key(s, t) == dv.name);
}

proof fn lemma_loop(s: Seq<InputView>, cv: Seq<ManifestView>, tv: Seq<Seq<usize>>, fv: Seq<Seq<bool>>, r: int, c: Seq<usize>, names: Seq<Seq<char>>)
    requires
        keys_distinct(s),
        canonical_forms(s, cv),
        targets_of(s, cv, tv, fv),
        0 <= r < s.len(),
        is_loop(tv, c),
        reaches(tv, r, c[0] as int),
        names.len() == c.len(),
        forall|q: int| 0 <= q < c.len() ==> #[trigger] c[q] < s.len() && names[q] == input_key(s, c[q] as int),
    ensures
        store_cycle(s, names),
        store_reaches(s, input_key(s, r), names[0]),
{
    assert forall|q: int| 0 <= q < names.len() implies store_has(s, #[trigger] names[q]) by {
        assert(c[q] < s.len());
    }
    assert forall|q: int| 0 <= q < names.len() - 1 implies store_edge(s, #[trigger] names[q], names[q + 1]) by {
        assert(c[q] < s.len() && c[q + 1] < s.len());
        assert(walk_edge(tv, c[q] as int, c[q + 1] as int));
        lemma_edge_names(s, cv, tv, fv, c[q] as int, c[q + 1] as int);
    }
    assert(c[0] < s.len());
    lemma_reached(s, cv, tv, fv, r, c[0] as int);
}

/// The records of a finished walk form the resolved list.
#[verifier::spinoff_prover]
proof fn lemma_finished_list(
    s: Seq<InputView>,
    cv: Seq<ManifestView>,
    tv: Seq<Seq<usize>>,
    fv: Seq<Seq<bool>>,
    r: int,
    post: Seq<usize>,
    ps: Seq<ResolvedView>,
)
    requires
        keys_distinct(s),
        canonical_forms(s, cv),
        targets_of(s, cv, tv, fv),
        s.len() <= usize::MAX,
        0 <= r < s.len(),
        forall|a: int, b: int| 0 <= a < b < post.len() ==> #[trigger] post[a] != #[trigger] post[b],
        forall|a: int| 0 <= a < post.len() ==> #[trigger] crate::package::walk::finished_well(tv, fv, post, a),
        forall|v: int| 0 <= v < tv.len() ==> (reaches(tv, r, v) == post.contains(v as usize)),
        ps.len() == post.len(),
        forall|a: int| 0 <= a < post.len() ==> #[trigger] post[a] < s.len() && ps[a] == resolved_record(cv[post[a] as int], s[post[a] as int]),
    ensures
        resolved_list(s, input_key(s, r), ps),
{
    let root = input_key(s, r);
    assert forall|a: int| 0 <= a < ps.len() implies from_store(s, #[trigger] ps[a]) by {
        let i = post[a] as int;
        assert(post[a] < s.len());
        assert(canonical_manifest(cv[i], s[i].manifest));
        assert(input_key(s, i) == ps[a].coordinate);
    }
    assert forall|a: int, b: int| 0 <= a < b < ps.len() implies (#[trigger] ps[a]).coordinate != (#[trigger] ps[b]).coordinate by {
        assert(post[a] != post[b]);
        assert(post[a] < s.len() && post[b] < s.len());
        assert(ps[a].coordinate == input_key(s, post[a] as int));
        assert(ps[b].coordinate == input_key(s, post[b] as int));
    }
    assert forall|x: Seq<char>| store_reaches(s, root, x) == exists|a: int| 0 <= a < ps.len() && (#[trigger] ps[a]).coordinate == x by {
        if store_reaches(s, root, x) {
            let ch = choose|ch: Seq<Seq<char>>| #[trigger] store_chain(s, root, ch) && ch[ch.len() - 1] == x;
            lemma_chain_walk(s, cv, tv, fv, r, ch);
            let v = key_position(s, x);
            assert(post.contains(v as usize));
            let a = choose|a: int| 0 <= a < post.len() && post[a] == v as usize;
            assert(post[a] < s.len());
            assert(ps[a].coordinate == input_key(s, v));
        }
        if exists|a: int| 0 <= a < ps.len() && (#[trigger] ps[a]).coordinate == x {
            let a = choose|a: int| 0 <= a < ps.len() && (#[trigger] ps[a]).coordinate == x;
            let v = post[a];
            assert(post[a] < s.len());
            assert(post.contains(v));
            lemma_reached(s, cv, tv, fv, r, v as int);
        }
    }
    assert forall|a: int, k: int| 0 <= a < ps.len() && 0 <= k < ps[a].dependencies.len() implies listed_before(ps, a, #[trigger] ps[a].dependencies[k]) by {
        let i = post[a] as int;
        assert(post[a] < s.len());
        assert(crate::package::walk::finished_well(tv, fv, post, a));
        let target = tv[i][k];
        assert(crate::package::walk::earlier(post, a, target));
        let b = choose|b: int| 0 <= b < a && #[trigger] post[b] == target;
        assert(post[b] < s.len());
        assert(ps[b].coordinate == input_key(s, target as int));
        assert(ps[a].dependencies[k] == cv[i].dependencies[k].name);
    }
}


/// The records of the finished packages, in order; fails on the first whose entry path is
/// not portable.
fn records_in_order(
    store: &Vec<PackageInput>,
    canon: &Vec<Manifest>,
    post: &Vec<usize>,
) -> (result: Result<Vec<ResolvedPackage>, usize>)
    requires
        canon@.len() == store@.len(),
        forall|a: int| 0 <= a < post@.len() ==> #[trigger] post@[a] < store@.len(),
    ensures
        match result {
            Ok(packages) => packages@.len() == post@.len() && forall|a: int| 0 <= a < post@.len() ==> (#[trigger] packages@[a])@
                == resolved_record(canon@[post@[a] as int]@, store@[post@[a] as int]@),
            Err(i) => i < store@.len() && post@.contains(i) && !safe_entry_path(store@[i as int]@.entry),
        },
{
    let mut packages: Vec<ResolvedPackage> = Vec::new();
    let mut t: usize = 0;
    while t < post.len()
        invariant
            canon@.len() == store@.len(),
            forall|a: int| 0 <= a < post@.len() ==> #[trigger] post@[a] < store@.len(),
            t <= post@.len(),
            packages@.len() == t,
            forall|a: int| 0 <= a < t ==> (#[trigger] packages@[a])@ == resolved_record(canon@[post@[a] as int]@, store@[post@[a] as int]@),
        decreases post.len() - t,
    {
        let i = post[t];
        assert(i < store@.len());
        if !is_safe_entry_path(store[i].entry.as_str()) {
            assert(post@[t as int] == i);
            return Err(i);
        }
        packages.push(record_of(&canon[i], &store[i]));
        t = t + 1;
    }
    Ok(packages)
}

/// Resolves the store from `root`.
#[verifier::spinoff_prover]
fn resolve_from_inputs(store: &Vec<PackageInput>, root: &PackageId) -> (result: Result<ResolvedPackageGraph, ResolveError>)
    requires
        store_ok(input_views(store@)),
    ensures
        resolution_holds(input_views(store@), root@, result),
{
    let ghost s = input_views(store@);
    let r = match store_position(store, root.as_str()) {
        Some(r) => r,
        None => {
            return Err(ResolveError::InvalidInput {
                context: root.to_string(),
                detail: String::from_str("root package is not present in the input store"),
            });
        },
    };
    let canon = canonical_manifests(store);
    let ghost cv = canon@.map_values(|m: Manifest| m@);
    let (targets, conflict) = dependency_targets(store, &canon);
    let ghost tv = targets.deep_view();
    let ghost fv = conflict.deep_view();
    let n = store.len();
    assert(s.len() == n);
    assert(store_has(s, root@));
    match walk_from(&targets, &conflict, r) {
        WalkOutcome::Missing(u, k) => {
            assert(canon@[u as int]@ == cv[u as int]);
            proof {
                lemma_missing(s, cv, tv, fv, r as int, u as int, k as int);
            }
            Err(ResolveError::MissingDependency {
                dependent: store[u].manifest.name.duplicate(),
                dependency: canon[u].dependencies[k].name.duplicate(),
            })
        },
        WalkOutcome::Conflict(u, k) => {
            assert(canon@[u as int]@ == cv[u as int]);
            proof {
                lemma_conflict(s, cv, tv, fv, r as int, u as int, k as int);
            }
            let t = targets[u][k];
            assert(t == tv[u as int][k as int]);
            let dep = &canon[u].dependencies[k];
            let expected = match &dep.version {
                Some(v) => v.clone(),
                None => {
                    assert(false);
                    String::new()
                },
            };
            Err(ResolveError::VersionConflict {
                coordinate: dep.name.duplicate(),
                expected,
                actual: store[t].manifest.version.clone(),
                dependent: store[u].manifest.name.duplicate(),
            })
        },
        WalkOutcome::Loop(c) => {
            proof {
                assert forall|q: int| 0 <= q < c@.len() implies #[trigger] c@[q] < n by {
                    if q < c@.len() - 1 {
                        assert(walk_edge(tv, c@[q] as int, c@[q + 1] as int));
                    } else {
                        assert(walk_edge(tv, c@[0] as int, c@[1] as int));
                    }
                }
            }
            let mut cycle: Vec<PackageId> = Vec::new();
            let mut t: usize = 0;
            while t < c.len()
                invariant
                    s == input_views(store@),
                    n == s.len(),
                    forall|q: int| 0 <= q < c@.len() ==> #[trigger] c@[q] < n,
                    t <= c@.len(),
                    cycle@.len() == t,
                    forall|q: int| 0 <= q < t ==> (#[trigger] cycle@[q])@ == input_key(s, c@[q] as int),
                decreases c.len() - t,
            {
                assert(c@[t as int] < n);
                cycle.push(store[c[t]].manifest.name.duplicate());
                t = t + 1;
            }
            proof {
                lemma_loop(s, cv, tv, fv, r as int, c@, id_views(cycle@));
            }
            Err(ResolveError::DependencyCycle { cycle })
        },
        WalkOutcome::Finished(post) => {
            proof {
                assert forall|a: int| 0 <= a < post@.len() implies #[trigger] post@[a] < store@.len() by {
                    assert(crate::package::walk::finished_well(tv, fv, post@, a));
                }
            }
            match records_in_order(store, &canon, &post) {
                Err(i) => {
                    proof {
                        assert(reaches(tv, r as int, i as int));
                        lemma_reached(s, cv, tv, fv, r as int, i as int);
                        assert(s[i as int].entry == store@[i as int]@.entry);
                    }
                    Err(ResolveError::InvalidInput {
                        context: store[i].manifest.name.to_string(),
                        detail: String::from_str("entry path must be relative and portable"),
                    })
                },
                Ok(packages) => {
                    proof {
                        let ps = resolved_views(packages@);
                        assert forall|a: int| 0 <= a < post@.len() implies #[trigger] post@[a] < s.len()
                            && ps[a] == resolved_record(cv[post@[a] as int], s[post@[a] as int]) by {
                            assert(crate::package::walk::finished_well(tv, fv, post@, a));
                            assert(canon@[post@[a] as int]@ == cv[post@[a] as int]);
                        }
                        lemma_finished_list(s, cv, tv, fv, r as int, post@, ps);
                    }
                    build_graph(root.duplicate(), packages)
                },
            }
        },
    }
}


/// Everything before position `i` registers, and the input at `i` is refused with `e`.
pub open spec fn fails_at(xs: Seq<InputView>, i: int, e: ResolveError) -> bool {
    register_all(Seq::empty(), xs.take(i)) matches Some(t) && register_step(t, xs[i]) is None && register_error(t, xs[i], e)
}

/// Registering `xs` into an empty store fails at some input with error `e`: everything
/// before it registers, and it is refused with `e`.
pub open spec fn registration_fails(xs: Seq<InputView>, e: ResolveError) -> bool {
    exists|i: int| 0 <= i < xs.len() && #[trigger] fails_at(xs, i, e)
}

/// What resolving `xs` (the root input first) reports: when every input registers, the
/// resolution of the resulting store from the root's coordinate; otherwise the error of
/// the first input refused.
pub open spec fn resolve_outcome(xs: Seq<InputView>, result: Result<ResolvedPackageGraph, ResolveError>) -> bool {
    match register_all(Seq::empty(), xs) {
        Some(store) => resolution_holds(store, xs[0].manifest.name, result),
        None => result matches Err(e) && registration_fails(xs, e),
    }
}

/// Registers every input, then resolves from the first input's coordinate.
fn register_and_resolve(inputs: Vec<PackageInput>) -> (result: Result<ResolvedPackageGraph, ResolveError>)
    requires
        inputs@.len() > 0,
    ensures
        resolve_outcome(input_views(inputs@), result),
{
    let ghost xs = input_views(inputs@);
    let total = inputs.len();
    let root = inputs[0].manifest.name.duplicate();
    let mut store: Vec<PackageInput> = Vec::new();
    let mut rest = inputs;
    let mut i: usize = 0;
    assert(input_views(store@) =~= Seq::<InputView>::empty());
    assert(xs.take(0) =~= Seq::<InputView>::empty());
    while rest.len() > 0
        invariant
            xs == input_views(inputs@),
            xs.len() > 0,
            xs.len() == total,
            root@ == xs[0].manifest.name,
            i + rest@.len() == xs.len(),
            forall|q: int| 0 <= q < rest@.len() ==> #[trigger] rest@[q]@ == xs[i + q],
            store_ok(input_views(store@)),
            register_all(Seq::empty(), xs.take(i as int)) == Some(input_views(store@)),
        decreases rest.len(),
    {
        let ghost before = input_views(store@);
        assert(rest@[0]@ == xs[i as int]);
        let input = rest.remove(0);
        assert forall|q: int| 0 <= q < rest@.len() implies #[trigger] rest@[q]@ == xs[i + 1 + q] by {
            assert(rest@[q]@ == xs[i + (q + 1)]);
        }
        assert(input@ == xs[i as int]);
        assert(xs.take(i + 1).drop_last() =~= xs.take(i as int));
        assert(xs.take(i + 1).last() == xs[i as int]);
        match register_input(&mut store, input) {
            Ok(()) => {},
            Err(e) => {
                assert(fails_at(xs, i as int, e));
                assert(register_all(Seq::empty(), xs.take(i + 1)) is None);
                proof {
                    lemma_register_stays_failed(xs, i + 1);
                }
                return Err(e);
            },
        }
        i = i + 1;
    }
    assert(xs.take(i as int) =~= xs);
    resolve_from_inputs(&store, &root)
}

/// Once registration fails, registering more inputs does not recover.
proof fn lemma_register_stays_failed(xs: Seq<InputView>, i: int)
    requires
        0 <= i <= xs.len(),
        register_all(Seq::empty(), xs.take(i)) is None,
    ensures
        register_all(Seq::empty(), xs) is None,
    decreases xs.len() - i,
{
    if i < xs.len() {
        assert(xs.take(i + 1).drop_last() =~= xs.take(i));
        lemma_register_stays_failed(xs, i + 1);
    } else {
        assert(xs.take(i) =~= xs);
    }
}

/// Resolves an in-memory store: the root input and the other packages, registered in
/// the given order.
pub fn resolve_manifests(root_input: PackageInput, packages: &Vec<PackageInput>) -> (result: Result<ResolvedPackageGraph, ResolveError>)
    ensures
        resolve_outcome(seq![root_input@] + input_views(packages@), result),
{
    let mut inputs: Vec<PackageInput> = Vec::new();
    inputs.push(root_input);
    let mut k: usize = 0;
    while k < packages.len()
        invariant
            inputs@.len() == k + 1,
            inputs@[0]@ == root_input@,
            k <= packages@.len(),
            forall|q: int| 0 <= q < k ==> (#[trigger] inputs@[q + 1])@ == packages@[q]@,
        decreases packages.len() - k,
    {
        inputs.push(packages[k].duplicate());
        k = k + 1;
    }
    proof {
        let pv = input_views(packages@);
        let want = seq![root_input@] + pv;
        assert forall|q: int| 0 <= q < want.len() implies input_views(inputs@)[q] == #[trigger] want[q] by {
            if q > 0 {
                assert(inputs@[(q - 1) + 1]@ == packages@[q - 1]@);
                assert(want[q] == pv[q - 1]);
            }
        }
        assert(input_views(inputs@) =~= want);
    }
    register_and_resolve(inputs)
}

/// Resolves an arbitrary sequence of in-memory package inputs, the root input first.
pub fn resolve_package_inputs(root_input: PackageInput, inputs: Vec<PackageInput>) -> (result: Result<ResolvedPackageGraph, ResolveError>)
    ensures
        resolve_outcome(seq![root_input@] + input_views(inputs@), result),
{
    let ghost tail = input_views(inputs@);
    let mut all: Vec<PackageInput> = Vec::new();
    all.push(root_input);
    let mut rest = inputs;
    all.append(&mut rest);
    assert(input_views(all@) =~= seq![root_input@] + tail);
    register_and_resolve(all)
}

} // verus!
