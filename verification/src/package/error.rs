//! Typed errors and validation problems for package operations.
use vstd::prelude::*;

use crate::host::capability::{capability_error_text, CapabilityError};
use crate::package::coordinate::PackageId;
use crate::package::digest::{digest_error_text, DigestError};
use crate::package::lock::id_views;
use crate::text::string_views;
use vstd::string::*;

verus! {

/// A deterministic path/message pair describing one invalid model value.
#[derive(Debug, Clone, PartialEq, Eq)]
pub struct ValidationProblem {
    /// Location of the invalid value in the model.
    pub path: String,
    /// Human-readable reason.
    pub message: String,
}

/// The (path, message) reading of a list of problems.
pub open spec fn problem_pairs(problems: Seq<ValidationProblem>) -> Seq<(Seq<char>, Seq<char>)> {
    problems.map_values(|p: ValidationProblem| (p.path@, p.message@))
}

/// `path: message` entries joined with `"; "`.
pub open spec fn joined_problems(pairs: Seq<(Seq<char>, Seq<char>)>) -> Seq<char>
    decreases pairs.len(),
{
    if pairs.len() == 0 {
        Seq::empty()
    } else if pairs.len() == 1 {
        pairs[0].0 + ": "@ + pairs[0].1
    } else {
        joined_problems(pairs.drop_last()) + "; "@ + pairs.last().0 + ": "@ + pairs.last().1
    }
}

impl ValidationProblem {
    /// Creates a validation problem.
    pub fn new(path: &str, message: &str) -> (problem: ValidationProblem)
        ensures
            problem.path@ == path@,
            problem.message@ == message@,
    {
        ValidationProblem { path: String::from_str(path), message: String::from_str(message) }
    }

    /// `path: message`, as the problem is displayed.
    pub fn to_string(&self) -> (text: String)
        ensures
            text@ == self.path@ + ": "@ + self.message@,
    {
        let text = self.path.clone();
        let text = text.concat(": ");
        text.concat(self.message.as_str())
    }
}

/// Records a problem at the end of `problems`.
pub fn push_problem(problems: &mut Vec<ValidationProblem>, path: &str, message: &str)
    ensures
        problem_pairs(final(problems)@) == problem_pairs(old(problems)@).push((path@, message@)),
{
    problems.push(ValidationProblem::new(path, message));
    assert(problem_pairs(problems@) =~= problem_pairs(old(problems)@).push((path@, message@)));
}

/// The problems joined with `"; "`.
pub fn join_problems(problems: &Vec<ValidationProblem>) -> (text: String)
    ensures
        text@ == joined_problems(problem_pairs(problems@)),
{
    let mut text = String::new();
    let mut i: usize = 0;
    while i < problems.len()
        invariant
            i <= problems@.len(),
            text@ == joined_problems(problem_pairs(problems@.take(i as int))),
        decreases problems.len() - i,
    {
        assert(problem_pairs(problems@.take(i + 1)).drop_last() =~= problem_pairs(problems@.take(i as int)));
        assert(problem_pairs(problems@.take(i + 1)).last() == (problems@[i as int].path@, problems@[i as int].message@));
        let item = problems[i].to_string();
        if i == 0 {
            text = item;
        } else {
            text = text.concat("; ");
            text = text.concat(item.as_str());
        }
        i = i + 1;
    }
    assert(problems@.take(i as int) =~= problems@);
    text
}

/// An error produced while loading, decoding, or validating a manifest.
#[derive(Debug, Clone, PartialEq, Eq)]
pub enum ManifestError {
    /// Manifest bytes were not valid UTF-8.
    InvalidUtf8 {
        /// Decoder detail.
        detail: String,
    },
    /// TOML or serde decoding failed.
    Parse {
        /// Decoder detail.
        detail: String,
    },
    /// The decoded model is structurally or semantically invalid.
    Invalid {
        /// All detected validation problems in deterministic order.
        problems: Vec<ValidationProblem>,
    },
    /// TOML or JSON encoding failed.
    Serialize {
        /// Encoder detail.
        detail: String,
    },
}

/// The message of an invalid-model error: `<what> is invalid` and the joined problems.
pub open spec fn invalid_text(what: Seq<char>, problems: Seq<ValidationProblem>) -> Seq<char> {
    if problems.len() == 0 {
        what + " is invalid"@
    } else {
        what + " is invalid: "@ + joined_problems(problem_pairs(problems))
    }
}

/// The message of a manifest error.
pub open spec fn manifest_error_text(error: ManifestError) -> Seq<char> {
    match error {
        ManifestError::InvalidUtf8 { detail } => "manifest is not valid UTF-8: "@ + detail@,
        ManifestError::Parse { detail } => "manifest could not be parsed: "@ + detail@,
        ManifestError::Invalid { problems } => invalid_text("manifest"@, problems@),
        ManifestError::Serialize { detail } => "manifest could not be serialized: "@ + detail@,
    }
}

fn invalid_message(what: &str, problems: &Vec<ValidationProblem>) -> (text: String)
    ensures
        text@ == invalid_text(what@, problems@),
{
    let text = String::from_str(what);
    if problems.len() == 0 {
        text.concat(" is invalid")
    } else {
        let text = text.concat(" is invalid: ");
        let joined = join_problems(problems);
        text.concat(joined.as_str())
    }
}

impl ManifestError {
    /// The human-readable message of the error.
    pub fn to_string(&self) -> (text: String)
        ensures
            text@ == manifest_error_text(*self),
    {
        match self {
            ManifestError::InvalidUtf8 { detail } => String::from_str("manifest is not valid UTF-8: ").concat(detail.as_str()),
            ManifestError::Parse { detail } => String::from_str("manifest could not be parsed: ").concat(detail.as_str()),
            ManifestError::Invalid { problems } => invalid_message("manifest", problems),
            ManifestError::Serialize { detail } => String::from_str("manifest could not be serialized: ").concat(detail.as_str()),
        }
    }
}

/// An error produced while decoding, canonicalizing, or validating a lockfile.
#[derive(Debug, Clone, PartialEq, Eq)]
pub enum LockfileError {
    /// Lockfile bytes were not valid UTF-8.
    InvalidUtf8 {
        /// Decoder detail.
        detail: String,
    },
    /// TOML or serde decoding failed.
    Parse {
        /// Decoder detail.
        detail: String,
    },
    /// The lockfile violates its model invariants.
    Invalid {
        /// All detected validation problems in deterministic order.
        problems: Vec<ValidationProblem>,
    },
    /// TOML or JSON encoding failed.
    Serialize {
        /// Encoder detail.
        detail: String,
    },
}

/// The message of a lockfile error.
pub open spec fn lockfile_error_text(error: LockfileError) -> Seq<char> {
    match error {
        LockfileError::InvalidUtf8 { detail } => "lockfile is not valid UTF-8: "@ + detail@,
        LockfileError::Parse { detail } => "lockfile could not be parsed: "@ + detail@,
        LockfileError::Invalid { problems } => invalid_text("lockfile"@, problems@),
        LockfileError::Serialize { detail } => "lockfile could not be serialized: "@ + detail@,
    }
}

impl LockfileError {
    /// The human-readable message of the error.
    pub fn to_string(&self) -> (text: String)
        ensures
            text@ == lockfile_error_text(*self),
    {
        match self {
            LockfileError::InvalidUtf8 { detail } => String::from_str("lockfile is not valid UTF-8: ").concat(detail.as_str()),
            LockfileError::Parse { detail } => String::from_str("lockfile could not be parsed: ").concat(detail.as_str()),
            LockfileError::Invalid { problems } => invalid_message("lockfile", problems),
            LockfileError::Serialize { detail } => String::from_str("lockfile could not be serialized: ").concat(detail.as_str()),
        }
    }
}

/// An error produced while discovering or resolving packages.
#[derive(Debug, PartialEq, Eq)]
pub enum ResolveError {
    /// A manifest could not be loaded or validated.
    Manifest {
        /// Relative or caller-provided source path.
        path: String,
        /// Manifest failure.
        error: ManifestError,
    },
    /// A local file could not be read.
    Io {
        /// Relative or caller-provided path.
        path: String,
        /// I/O detail.
        detail: String,
    },
    /// A dependency coordinate was not present in the package store.
    MissingDependency {
        /// Coordinate of the package that declared the edge.
        dependent: PackageId,
        /// Coordinate that could not be found.
        dependency: PackageId,
    },
    /// A local resolver encountered a remote dependency without a remote loader.
    RemoteDependencyUnsupported {
        /// Coordinate of the package that declared the edge.
        dependent: PackageId,
        /// Coordinate requested by the edge.
        dependency: PackageId,
        /// Pinned remote source label.
        source: String,
    },
    /// A dependency graph contains a cycle.
    DependencyCycle {
        /// Ordered cycle, with the first coordinate repeated at the end.
        cycle: Vec<PackageId>,
    },
    /// Two distinct package inputs claimed the same coordinate.
    DuplicateCoordinate {
        /// Conflicting coordinate.
        coordinate: PackageId,
        /// Source already associated with the coordinate.
        first_source: String,
        /// New source associated with the coordinate.
        second_source: String,
    },
    /// A dependency path resolved to a manifest with another coordinate.
    CoordinateMismatch {
        /// Coordinate requested by the dependency edge.
        expected: PackageId,
        /// Coordinate declared by the loaded manifest.
        actual: PackageId,
    },
    /// An exact dependency SemVer string did not match the package version string.
    VersionConflict {
        /// Coordinate with the conflicting version.
        coordinate: PackageId,
        /// Exact SemVer text required by the dependent edge.
        expected: String,
        /// Exact SemVer text declared by the loaded package.
        actual: String,
        /// Coordinate that declared the requirement.
        dependent: PackageId,
    },
    /// The package entry could not be discovered.
    EntryNotFound {
        /// Package whose entry is missing.
        coordinate: PackageId,
        /// Entry value from the manifest.
        entry: String,
        /// Relative paths tried by the local discovery helper.
        candidates: Vec<String>,
    },
    /// A capability declaration was not valid under the host grammar.
    Capability(CapabilityError),
    /// A transitive package capability exceeded the root declaration.
    CapabilityLimitExceeded {
        /// Root package coordinate.
        root: PackageId,
        /// Package that declared the excess capability.
        package: PackageId,
        /// Capability that was outside the root bound.
        capability: String,
    },
    /// A generated lockfile failed validation.
    Lockfile(LockfileError),
    /// A package content digest could not be computed.
    Digest(DigestError),
    /// A caller-provided package input is inconsistent.
    InvalidInput {
        /// Coordinate or source path associated with the input.
        context: String,
        /// Reason the input was rejected.
        detail: String,
    },
}

/// `parts` joined with `sep` between consecutive parts.
pub open spec fn joined_with(parts: Seq<Seq<char>>, sep: Seq<char>) -> Seq<char>
    decreases parts.len(),
{
    if parts.len() == 0 {
        Seq::empty()
    } else if parts.len() == 1 {
        parts[0]
    } else {
        joined_with(parts.drop_last(), sep) + sep + parts.last()
    }
}

/// The message of a resolution error.
pub open spec fn resolve_error_text(error: ResolveError) -> Seq<char> {
    match error {
        ResolveError::Manifest { path, error } => "manifest '"@ + path@ + "': "@ + manifest_error_text(error),
        ResolveError::Io { path, detail } => "package file '"@ + path@ + "': "@ + detail@,
        ResolveError::MissingDependency { dependent, dependency } => "package '"@ + dependent@
            + "' requires missing dependency '"@ + dependency@ + "'"@,
        ResolveError::RemoteDependencyUnsupported { dependent, dependency, source } => "package '"@ + dependent@
            + "' requires remote dependency '"@ + dependency@ + "' from '"@ + source@
            + "', but no remote loader is active"@,
        ResolveError::DependencyCycle { cycle } => "package dependency cycle: "@ + joined_with(id_views(cycle@), " -> "@),
        ResolveError::DuplicateCoordinate { coordinate, first_source, second_source } => "package coordinate '"@
            + coordinate@ + "' is provided by both '"@ + first_source@ + "' and '"@ + second_source@ + "'"@,
        ResolveError::CoordinateMismatch { expected, actual } => "dependency expected coordinate '"@ + expected@
            + "', but its manifest declares '"@ + actual@ + "'"@,
        ResolveError::VersionConflict { coordinate, expected, actual, dependent } => "package '"@ + dependent@
            + "' requires '"@ + coordinate@ + "' version '"@ + expected@ + "', but '"@ + actual@ + "' was found"@,
        ResolveError::EntryNotFound { coordinate, entry, candidates } => "package '"@ + coordinate@ + "' entry '"@
            + entry@ + "' was not found (tried "@ + joined_with(string_views(candidates@), ", "@) + ")"@,
        ResolveError::Capability(error) => "invalid package capability: "@ + capability_error_text(error),
        ResolveError::CapabilityLimitExceeded { root, package, capability } => "package '"@ + package@
            + "' capability '"@ + capability@ + "' exceeds root '"@ + root@ + "' upper bound"@,
        ResolveError::Lockfile(error) => "generated lockfile is invalid: "@ + lockfile_error_text(error),
        ResolveError::Digest(error) => "package digest failed: "@ + digest_error_text(error),
        ResolveError::InvalidInput { context, detail } => "invalid package input '"@ + context@ + "': "@ + detail@,
    }
}

/// The coordinates joined with `" -> "`.
fn join_ids(ids: &Vec<PackageId>) -> (text: String)
    ensures
        text@ == joined_with(id_views(ids@), " -> "@),
{
    let mut text = String::new();
    let mut i: usize = 0;
    while i < ids.len()
        invariant
            i <= ids@.len(),
            text@ == joined_with(id_views(ids@.take(i as int)), " -> "@),
        decreases ids.len() - i,
    {
        assert(id_views(ids@.take(i + 1)).drop_last() =~= id_views(ids@.take(i as int)));
        assert(id_views(ids@.take(i + 1)).last() == ids@[i as int]@);
        let item = ids[i].to_string();
        if i == 0 {
            text = item;
        } else {
            text = text.concat(" -> ");
            text = text.concat(item.as_str());
        }
        i = i + 1;
    }
    assert(ids@.take(i as int) =~= ids@);
    text
}

/// The texts joined with `", "`.
fn join_texts(parts: &Vec<String>) -> (text: String)
    ensures
        text@ == joined_with(string_views(parts@), ", "@),
{
    let mut text = String::new();
    let mut i: usize = 0;
    while i < parts.len()
        invariant
            i <= parts@.len(),
            text@ == joined_with(string_views(parts@.take(i as int)), ", "@),
        decreases parts.len() - i,
    {
        assert(string_views(parts@.take(i + 1)).drop_last() =~= string_views(parts@.take(i as int)));
        assert(string_views(parts@.take(i + 1)).last() == parts@[i as int]@);
        if i == 0 {
            text = parts[i].clone();
        } else {
            text = text.concat(", ");
            text = text.concat(parts[i].as_str());
        }
        i = i + 1;
    }
    assert(parts@.take(i as int) =~= parts@);
    text
}

/// `a`, then `b`, then `c`.
fn text3(a: &str, b: &str, c: &str) -> (text: String)
    ensures
        text@ == a@ + b@ + c@,
{
    String::from_str(a).concat(b).concat(c)
}

impl ResolveError {
    /// The human-readable message of the error.
    pub fn to_string(&self) -> (text: String)
        ensures
            text@ == resolve_error_text(*self),
    {
        let text = match self {
            ResolveError::Manifest { path, error } => {
                let detail = error.to_string();
                text3("manifest '", path.as_str(), "': ").concat(detail.as_str())
            },
            ResolveError::Io { path, detail } => text3("package file '", path.as_str(), "': ").concat(detail.as_str()),
            ResolveError::MissingDependency { dependent, dependency } => {
                text3("package '", dependent.as_str(), "' requires missing dependency '").concat(dependency.as_str()).concat("'")
            },
            ResolveError::RemoteDependencyUnsupported { dependent, dependency, source } => {
                let text = text3("package '", dependent.as_str(), "' requires remote dependency '");
                let text = text.concat(dependency.as_str()).concat("' from '").concat(source.as_str());
                text.concat("', but no remote loader is active")
            },
            ResolveError::DependencyCycle { cycle } => {
                let joined = join_ids(cycle);
                String::from_str("package dependency cycle: ").concat(joined.as_str())
            },
            ResolveError::DuplicateCoordinate { coordinate, first_source, second_source } => {
                let text = text3("package coordinate '", coordinate.as_str(), "' is provided by both '");
                let text = text.concat(first_source.as_str()).concat("' and '").concat(second_source.as_str());
                text.concat("'")
            },
            ResolveError::CoordinateMismatch { expected, actual } => {
                let text = text3("dependency expected coordinate '", expected.as_str(), "', but its manifest declares '");
                text.concat(actual.as_str()).concat("'")
            },
            ResolveError::VersionConflict { coordinate, expected, actual, dependent } => {
                let text = text3("package '", dependent.as_str(), "' requires '");
                let text = text.concat(coordinate.as_str()).concat("' version '").concat(expected.as_str());
                text.concat("', but '").concat(actual.as_str()).concat("' was found")
            },
            ResolveError::EntryNotFound { coordinate, entry, candidates } => {
                let joined = join_texts(candidates);
                let text = text3("package '", coordinate.as_str(), "' entry '");
                let text = text.concat(entry.as_str()).concat("' was not found (tried ").concat(joined.as_str());
                text.concat(")")
            },
            ResolveError::Capability(error) => {
                let detail = error.to_string();
                String::from_str("invalid package capability: ").concat(detail.as_str())
            },
            ResolveError::CapabilityLimitExceeded { root, package, capability } => {
                let text = text3("package '", package.as_str(), "' capability '");
                let text = text.concat(capability.as_str()).concat("' exceeds root '").concat(root.as_str());
                text.concat("' upper bound")
            },
            ResolveError::Lockfile(error) => {
                let detail = error.to_string();
                String::from_str("generated lockfile is invalid: ").concat(detail.as_str())
            },
            ResolveError::Digest(error) => {
                let detail = error.to_string();
                String::from_str("package digest failed: ").concat(detail.as_str())
            },
            ResolveError::InvalidInput { context, detail } => {
                text3("invalid package input '", context.as_str(), "': ").concat(detail.as_str())
            },
        };
        assert(text@ =~= resolve_error_text(*self));
        text
    }
}

} // verus!
