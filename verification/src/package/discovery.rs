//! The decisions of local path discovery.
//!
//! Discovery walks a package directory and the path dependencies it declares, depth first.
//! Reading manifests and entry files, and turning relative paths into directories, is the
//! caller's; what each manifest read means is decided here: a package that is not the one
//! its edge asked for, a cycle through the packages being visited, a coordinate found in
//! two directories, a directory that changed its manifest, a remote dependency with no
//! remote loader, and a version other than the one an edge requires.
use vstd::prelude::*;

use crate::package::coordinate::PackageId;
use crate::package::error::ResolveError;
use crate::package::lock::{id_views, source_location, PackageSource, SourceView};
use crate::package::manifest::{opt_view, DependencyView, Manifest, ManifestView};
use crate::package::order::text_equal;
use crate::package::resolver::{manifest_equal, InputView, PackageInput};
use crate::text::{chars_of, push_char, string_views};
use vstd::string::*;

verus! {

/// A package already discovered: its coordinate, the directory it was read from, and its
/// input.
pub type DiscoveredPackage = (PackageId, String, PackageInput);

/// The value reading of the packages discovered so far.
pub open spec fn discovered_views(d: Seq<DiscoveredPackage>) -> Seq<(Seq<char>, Seq<char>, InputView)> {
    d.map_values(|e: DiscoveredPackage| (e.0@, e.1@, e.2@))
}

/// The value reading of an optional coordinate.
pub open spec fn opt_id(id: Option<&PackageId>) -> Option<Seq<char>> {
    match id {
        Some(i) => Some(i@),
        None => None,
    }
}

/// What to do with one dependency of a newly discovered package.
#[derive(Debug)]
pub enum DependencyPlan {
    /// Visit the package directory at `path`, which must declare `name`, and at `version`
    /// when one is required.
    Local {
        /// Coordinate the dependency names.
        name: PackageId,
        /// Relative path of the dependency's directory.
        path: String,
        /// Exact version the edge requires, if any.
        version: Option<String>,
    },
    /// A remote dependency, left to a remote loader.
    Remote,
    /// A remote dependency refused because there is no remote loader.
    Refused(ResolveError),
}

/// What a manifest read during discovery means.
#[derive(Debug)]
pub enum DiscoveryStep {
    /// The package was discovered before, from the same directory with the same manifest.
    Known(PackageInput),
    /// A new package: what to do with each of its dependencies, in declared order.
    Visit(Vec<DependencyPlan>),
}

/// `plan` is what discovery does with dependency `d` of the package `dependent`: a path
/// dependency is visited, a remote one is left alone when remote edges are allowed and
/// refused otherwise.
pub open spec fn plans_dependency(dependent: Seq<char>, d: DependencyView, allow_remote: bool, plan: DependencyPlan) -> bool {
    match d.source {
        SourceView::Path(path) => match plan {
            DependencyPlan::Local { name, path: p, version } => name@ == d.name && p@ == path
                && opt_view(version) == d.version,
            _ => false,
        },
        SourceView::GitHub(_, _, _) => if allow_remote {
            plan is Remote
        } else {
            match plan {
                DependencyPlan::Refused(ResolveError::RemoteDependencyUnsupported { dependent: x, dependency, source }) =>
                    x@ == dependent && dependency@ == d.name && source@ == source_location(d.source),
                _ => false,
            }
        },
    }
}

/// The edge asked for a coordinate other than `c`.
pub open spec fn mismatched(expected: Option<Seq<char>>, c: Seq<char>) -> bool {
    match expected {
        Some(e) => e != c,
        None => false,
    }
}

/// `p` is the first position of `c` on the stack of packages being visited.
pub open spec fn first_active(active: Seq<Seq<char>>, c: Seq<char>, p: int) -> bool {
    &&& 0 <= p < active.len()
    &&& active[p] == c
    &&& forall|q: int| 0 <= q < p ==> active[q] != c
}

/// `k` is the first discovered package with coordinate `c`.
pub open spec fn first_discovered(d: Seq<(Seq<char>, Seq<char>, InputView)>, c: Seq<char>, k: int) -> bool {
    &&& 0 <= k < d.len()
    &&& d[k].0 == c
    &&& forall|q: int| 0 <= q < k ==> d[q].0 != c
}

/// `step` reports the cycle that closes at position `p` of the stack: the stack from
/// there, then `c` again.
pub open spec fn cycle_at(active: Seq<Seq<char>>, c: Seq<char>, p: int, step: Result<DiscoveryStep, ResolveError>) -> bool {
    &&& first_active(active, c, p)
    &&& match step {
        Err(ResolveError::DependencyCycle { cycle }) => id_views(cycle@) == active.subrange(p, active.len() as int).push(c),
        _ => false,
    }
}

/// `step` is what finding coordinate `c` again, as discovered package `k`, gives: another
/// directory is a duplicate coordinate, the same directory with another manifest is
/// invalid, and otherwise the package is known.
pub open spec fn known_at(
    d: Seq<(Seq<char>, Seq<char>, InputView)>,
    c: Seq<char>,
    k: int,
    m: ManifestView,
    directory: Seq<char>,
    source_path: Seq<char>,
    step: Result<DiscoveryStep, ResolveError>,
) -> bool {
    &&& first_discovered(d, c, k)
    &&& if d[k].1 != directory {
        match step {
            Err(ResolveError::DuplicateCoordinate { coordinate, first_source, second_source }) => coordinate@ == c
                && first_source@ == source_location(d[k].2.source) && second_source@ == source_path,
            _ => false,
        }
    } else if d[k].2.manifest != m {
        match step {
            Err(ResolveError::InvalidInput { context, detail }) => context@ == c
                && detail@ == "the same package path produced different manifests"@,
            _ => false,
        }
    } else {
        match step {
            Ok(DiscoveryStep::Known(x)) => x@ == d[k].2,
            _ => false,
        }
    }
}

/// `step` visits a new package with manifest `m`, one plan per dependency.
pub open spec fn visits(m: ManifestView, allow_remote: bool, step: Result<DiscoveryStep, ResolveError>) -> bool {
    match step {
        Ok(DiscoveryStep::Visit(plans)) => plans@.len() == m.dependencies.len() && forall|j: int|
            0 <= j < m.dependencies.len() ==> plans_dependency(m.name, #[trigger] m.dependencies[j], allow_remote, plans@[j]),
        _ => false,
    }
}

/// What reading manifest `m` from `directory` (reached as `source_path`) means, for an edge
/// that expects coordinate `expected`, with the packages in `active` being visited and those
/// in `discovered` done. In order: a coordinate other than the expected one is a mismatch; a
/// coordinate on the stack closes a cycle; a coordinate discovered before is checked
/// against that discovery; otherwise the package is new and its dependencies are planned.
pub open spec fn discovery_outcome(
    m: ManifestView,
    directory: Seq<char>,
    source_path: Seq<char>,
    expected: Option<Seq<char>>,
    allow_remote: bool,
    active: Seq<Seq<char>>,
    discovered: Seq<(Seq<char>, Seq<char>, InputView)>,
    step: Result<DiscoveryStep, ResolveError>,
) -> bool {
    let c = m.name;
    if mismatched(expected, c) {
        match step {
            Err(ResolveError::CoordinateMismatch { expected: e, actual }) => Some(e@) == expected && actual@ == c,
            _ => false,
        }
    } else if exists|p: int| first_active(active, c, p) {
        exists|p: int| #[trigger] cycle_at(active, c, p, step)
    } else if exists|k: int| first_discovered(discovered, c, k) {
        exists|k: int| #[trigger] known_at(discovered, c, k, m, directory, source_path, step)
    } else {
        visits(m, allow_remote, step)
    }
}

/// Decides what a manifest read during discovery means.
pub fn discovery_step(
    manifest: &Manifest,
    directory: &str,
    source_path: &str,
    expected: Option<&PackageId>,
    allow_remote: bool,
    active: &Vec<PackageId>,
    discovered: &Vec<DiscoveredPackage>,
) -> (step: Result<DiscoveryStep, ResolveError>)
    ensures
        discovery_outcome(manifest@, directory@, source_path@, opt_id(expected), allow_remote, id_views(active@),
            discovered_views(discovered@), step),
{
    let coordinate = &manifest.name;
    let ghost c = manifest@.name;
    let ghost av = id_views(active@);
    let ghost dv = discovered_views(discovered@);
    match expected {
        Some(e) => {
            if !text_equal(e.as_str(), coordinate.as_str()) {
                return Err(ResolveError::CoordinateMismatch { expected: e.duplicate(), actual: coordinate.duplicate() });
            }
        },
        None => {},
    }
    let mut p: usize = 0;
    while p < active.len()
        invariant
            av == id_views(active@),
            c == coordinate@,
            c == manifest@.name,
            !mismatched(opt_id(expected), c),
            p <= active@.len(),
            forall|q: int| 0 <= q < p ==> av[q] != c,
        decreases active.len() - p,
    {
        if text_equal(active[p].as_str(), coordinate.as_str()) {
            let mut cycle: Vec<PackageId> = Vec::new();
            let mut q: usize = p;
            assert(av.subrange(p as int, p as int) =~= Seq::<Seq<char>>::empty());
            assert(id_views(cycle@) =~= Seq::<Seq<char>>::empty());
            while q < active.len()
                invariant
                    av == id_views(active@),
                    p <= q <= active@.len(),
                    cycle@.len() == q - p,
                    id_views(cycle@) == av.subrange(p as int, q as int),
                decreases active.len() - q,
            {
                let ghost old_cycle = cycle@;
                cycle.push(active[q].duplicate());
                assert(cycle@ == old_cycle.push(cycle@[q - p]));
                assert(id_views(cycle@) =~= av.subrange(p as int, q + 1));
                q = q + 1;
            }
            let ghost before = cycle@;
            cycle.push(coordinate.duplicate());
            assert(id_views(cycle@) =~= id_views(before).push(c));
            let step: Result<DiscoveryStep, ResolveError> = Err(ResolveError::DependencyCycle { cycle });
            assert(cycle_at(av, c, p as int, step));
            return step;
        }
        p = p + 1;
    }
    assert(!exists|p: int| first_active(av, c, p));
    let mut k: usize = 0;
    while k < discovered.len()
        invariant
            dv == discovered_views(discovered@),
            c == coordinate@,
            c == manifest@.name,
            av == id_views(active@),
            !mismatched(opt_id(expected), c),
            !exists|p: int| first_active(av, c, p),
            k <= discovered@.len(),
            forall|q: int| 0 <= q < k ==> dv[q].0 != c,
        decreases discovered.len() - k,
    {
        let entry = &discovered[k];
        assert(dv[k as int] == (entry.0@, entry.1@, entry.2@));
        if text_equal(entry.0.as_str(), coordinate.as_str()) {
            let step: Result<DiscoveryStep, ResolveError> = if !text_equal(entry.1.as_str(), directory) {
                Err(ResolveError::DuplicateCoordinate {
                    coordinate: coordinate.duplicate(),
                    first_source: entry.2.source.location(),
                    second_source: String::from_str(source_path),
                })
            } else if !manifest_equal(&entry.2.manifest, manifest) {
                Err(ResolveError::InvalidInput {
                    context: coordinate.to_string(),
                    detail: String::from_str("the same package path produced different manifests"),
                })
            } else {
                Ok(DiscoveryStep::Known(entry.2.duplicate()))
            };
            assert(known_at(dv, c, k as int, manifest@, directory@, source_path@, step));
            return step;
        }
        k = k + 1;
    }
    assert(!exists|k: int| first_discovered(dv, c, k));
    let mut plans: Vec<DependencyPlan> = Vec::new();
    let mut j: usize = 0;
    while j < manifest.dependencies.len()
        invariant
            c == coordinate@,
            c == manifest@.name,
            av == id_views(active@),
            dv == discovered_views(discovered@),
            !mismatched(opt_id(expected), c),
            !exists|p: int| first_active(av, c, p),
            !exists|k: int| first_discovered(dv, c, k),
            j <= manifest@.dependencies.len(),
            plans@.len() == j,
            forall|i: int| 0 <= i < j ==> plans_dependency(c, #[trigger] manifest@.dependencies[i], allow_remote, plans@[i]),
        decreases manifest.dependencies.len() - j,
    {
        let d = &manifest.dependencies[j];
        assert(d@ == manifest@.dependencies[j as int]);
        let plan = match &d.source {
            PackageSource::Path { path } => {
                let version = match &d.version {
                    Some(v) => Some(v.clone()),
                    None => None,
                };
                DependencyPlan::Local { name: d.name.duplicate(), path: path.clone(), version }
            },
            PackageSource::GitHub { .. } => {
                if allow_remote {
                    DependencyPlan::Remote
                } else {
                    DependencyPlan::Refused(ResolveError::RemoteDependencyUnsupported {
                        dependent: coordinate.duplicate(),
                        dependency: d.name.duplicate(),
                        source: d.source.location(),
                    })
                }
            },
        };
        assert(plans_dependency(c, d@, allow_remote, plan));
        plans.push(plan);
        j = j + 1;
    }
    Ok(DiscoveryStep::Visit(plans))
}

/// What checking the version a dependency was found at gives: an edge that requires
/// another version than the package declares is a conflict.
pub open spec fn found_version_outcome(
    dependent: Seq<char>,
    name: Seq<char>,
    required: Option<Seq<char>>,
    found: Seq<char>,
    result: Result<(), ResolveError>,
) -> bool {
    match required {
        Some(v) => if v != found {
            match result {
                Err(ResolveError::VersionConflict { coordinate, expected, actual, dependent: x }) => coordinate@ == name
                    && expected@ == v && actual@ == found && x@ == dependent,
                _ => false,
            }
        } else {
            result is Ok
        },
        None => result is Ok,
    }
}

/// Checks the version a dependency was discovered at against the one its edge requires.
pub fn check_found_version(dependent: &PackageId, name: &PackageId, required: &Option<String>, found: &PackageInput) -> (result: Result<(), ResolveError>)
    ensures
        found_version_outcome(dependent@, name@, opt_view(*required), found@.manifest.version, result),
{
    match required {
        Some(version) => {
            if !text_equal(version.as_str(), found.manifest.version.as_str()) {
                return Err(ResolveError::VersionConflict {
                    coordinate: name.duplicate(),
                    expected: version.clone(),
                    actual: found.manifest.version.clone(),
                    dependent: dependent.duplicate(),
                });
            }
            Ok(())
        },
        None => Ok(()),
    }
}

/// The file name at the end of `entry` has an extension: a `.` after its first character.
pub open spec fn has_extension(entry: Seq<char>) -> bool {
    exists|i: int| 1 <= i < entry.len() && #[trigger] entry[i] == '.' && entry[i - 1] != '/'
        && forall|j: int| i < j < entry.len() ==> entry[j] != '/'
}

/// `entry` without one trailing `.aipo`.
pub open spec fn entry_stem(entry: Seq<char>) -> Seq<char> {
    if entry.len() >= 5 && entry.subrange(entry.len() - 5, entry.len() as int) == ".aipo"@ {
        entry.subrange(0, entry.len() - 5)
    } else {
        entry
    }
}

/// The entry files discovery tries, in order: the entry itself; for an entry without an
/// extension, also the entry with `.aipo` (one trailing `.aipo` replaced), and that under
/// `src/` unless it is already there. The extension is that of the entry's file name, the
/// part after its last `/`, as for a relative path whose last segment names a file.
pub open spec fn entry_candidate_list(entry: Seq<char>) -> Seq<Seq<char>> {
    if has_extension(entry) {
        seq![entry]
    } else {
        let with = entry_stem(entry) + ".aipo"@;
        if entry_stem(entry).len() >= 4 && entry_stem(entry).subrange(0, 4) == "src/"@ {
            seq![entry, with]
        } else {
            seq![entry, with, "src/"@ + with]
        }
    }
}

/// Whether the file name at the end of the entry has an extension.
fn entry_has_extension(chars: &Vec<char>) -> (found: bool)
    ensures
        found == has_extension(chars@),
{
    let ghost s = chars@;
    let mut k: usize = chars.len();
    let mut found = false;
    while k > 0 && chars[k - 1] != '/'
        invariant
            s == chars@,
            k <= s.len(),
            forall|j: int| k <= j < s.len() ==> s[j] != '/',
            found == exists|i: int| k <= i < s.len() && 1 <= i && #[trigger] s[i] == '.' && s[i - 1] != '/',
        decreases k,
    {
        k = k - 1;
        if chars[k] == '.' && k >= 1 && chars[k - 1] != '/' {
            found = true;
        }
        assert(found == exists|i: int| k <= i < s.len() && 1 <= i && #[trigger] s[i] == '.' && s[i - 1] != '/') by {
            if chars[k as int] == '.' && k >= 1 && chars[k - 1] != '/' {
                assert(s[k as int] == '.');
            }
        }
    }
    assert(found == has_extension(s)) by {
        if found {
            let i = choose|i: int| k <= i < s.len() && 1 <= i && #[trigger] s[i] == '.' && s[i - 1] != '/';
            assert(forall|j: int| i < j < s.len() ==> s[j] != '/');
        }
        if has_extension(s) {
            let i = choose|i: int| 1 <= i < s.len() && #[trigger] s[i] == '.' && s[i - 1] != '/'
                && forall|j: int| i < j < s.len() ==> s[j] != '/';
            if i < k {
                assert(s[k - 1] == '/' || k == 0);
                assert(false);
            }
        }
    }
    found
}

/// The text of `chars[from..to]`.
fn text_between(chars: &Vec<char>, from: usize, to: usize) -> (text: String)
    requires
        from <= to <= chars@.len(),
    ensures
        text@ == chars@.subrange(from as int, to as int),
{
    let mut text = String::new();
    let mut i: usize = from;
    proof {
        assert(text@ =~= chars@.subrange(from as int, from as int));
    }
    while i < to
        invariant
            from <= i <= to <= chars@.len(),
            text@ == chars@.subrange(from as int, i as int),
        decreases to - i,
    {
        push_char(&mut text, chars[i]);
        assert(text@ =~= chars@.subrange(from as int, i + 1));
        i = i + 1;
    }
    text
}

/// The entry files discovery tries for the manifest entry `entry`, in order.
pub fn entry_candidates(entry: &str) -> (candidates: Vec<String>)
    ensures
        string_views(candidates@) == entry_candidate_list(entry@),
{
    let chars = chars_of(entry);
    let mut candidates: Vec<String> = Vec::new();
    candidates.push(String::from_str(entry));
    if entry_has_extension(&chars) {
        assert(string_views(candidates@) =~= entry_candidate_list(entry@));
        return candidates;
    }
    let n = chars.len();
    let suffix = n >= 5 && chars[n - 5] == '.' && chars[n - 4] == 'a' && chars[n - 3] == 'i' && chars[n - 2] == 'p'
        && chars[n - 1] == 'o';
    proof {
        reveal_strlit(".aipo");
        if n >= 5 {
            assert(suffix == (chars@.subrange(n - 5, n as int) == ".aipo"@)) by {
                if chars@.subrange(n - 5, n as int) == ".aipo"@ {
                    assert(chars@.subrange(n - 5, n as int)[0] == chars@[n - 5]);
                    assert(chars@.subrange(n - 5, n as int)[1] == chars@[n - 4]);
                    assert(chars@.subrange(n - 5, n as int)[2] == chars@[n - 3]);
                    assert(chars@.subrange(n - 5, n as int)[3] == chars@[n - 2]);
                    assert(chars@.subrange(n - 5, n as int)[4] == chars@[n - 1]);
                }
                if suffix {
                    assert(chars@.subrange(n - 5, n as int) =~= ".aipo"@);
                }
            }
        }
    }
    let stem_end = if suffix { n - 5 } else { n };
    let stem = text_between(&chars, 0, stem_end);
    assert(stem@ == entry_stem(entry@)) by {
        if !suffix {
            assert(chars@.subrange(0, n as int) =~= chars@);
        }
    }
    let stem_chars = chars_of(stem.as_str());
    let with = stem.concat(".aipo");
    candidates.push(with.clone());
    let under_src = stem_chars.len() >= 4 && stem_chars[0] == 's' && stem_chars[1] == 'r' && stem_chars[2] == 'c'
        && stem_chars[3] == '/';
    proof {
        reveal_strlit("src/");
        let sv = stem@;
        if sv.len() >= 4 {
            assert(under_src == (sv.subrange(0, 4) == "src/"@)) by {
                if sv.subrange(0, 4) == "src/"@ {
                    assert(sv.subrange(0, 4)[0] == sv[0] && sv.subrange(0, 4)[1] == sv[1]);
                    assert(sv.subrange(0, 4)[2] == sv[2] && sv.subrange(0, 4)[3] == sv[3]);
                }
                if under_src {
                    assert(sv.subrange(0, 4) =~= "src/"@);
                }
            }
        }
    }
    if !under_src {
        let nested = String::from_str("src/").concat(with.as_str());
        candidates.push(nested);
    }
    assert(string_views(candidates@) =~= entry_candidate_list(entry@));
    candidates
}

/// What failing to find the directory of a path dependency gives: a directory that does
/// not exist is a missing dependency, any other failure an I/O error on the path.
pub fn dependency_directory_error(dependent: &PackageId, name: &PackageId, path: &str, not_found: bool, detail: &str) -> (error: ResolveError)
    ensures
        not_found ==> (error matches ResolveError::MissingDependency { dependent: x, dependency }
            && x@ == dependent@ && dependency@ == name@),
        !not_found ==> (error matches ResolveError::Io { path: p, detail: d } && p@ == path@ && d@ == detail@),
{
    if not_found {
        ResolveError::MissingDependency { dependent: dependent.duplicate(), dependency: name.duplicate() }
    } else {
        ResolveError::Io { path: String::from_str(path), detail: String::from_str(detail) }
    }
}

} // verus!
