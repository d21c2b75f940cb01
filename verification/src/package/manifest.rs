//! Declarative `aipo.toml` models and validation.
//!
//! The canonical manifest places package identity under `[package]`; dependencies,
//! capabilities and targets remain at the document root. Decoding the TOML text is the
//! caller's part; this module validates and canonicalizes the decoded model.
use vstd::prelude::*;

use crate::host::capability::{capability_error_text, capability_kind_text, parse_capability_outcome, Capability};
use crate::package::error::{
    lockfile_error_text, problem_pairs, push_problem, ManifestError, ValidationProblem,
};
use crate::package::lock::{has_empty_segment, has_segment, is_absolute_path, one, problem_if};
use crate::text::{
    char_is_control, char_is_whitespace, chars_of, find_char, first_index, has_char,
    is_unicode_control, is_unicode_whitespace, lemma_first_index, split, split_str, views,
};
use vstd::string::*;

verus! {

/// `[0-9]`.
pub open spec fn is_ascii_digit(c: char) -> bool {
    '0' <= c && c <= '9'
}

/// `[A-Za-z0-9]`.
pub open spec fn is_alnum(c: char) -> bool {
    is_ascii_digit(c) || ('a' <= c && c <= 'z') || ('A' <= c && c <= 'Z')
}

/// `s` split at the first `c`, when there is one.
pub open spec fn split_once(s: Seq<char>, c: char) -> Option<(Seq<char>, Seq<char>)> {
    let i = first_index(s, c);
    if i < s.len() {
        Some((s.take(i), s.skip(i + 1)))
    } else {
        None
    }
}

/// A SemVer numeric identifier: digits without a leading zero (except `0` itself).
pub open spec fn numeric_identifier(v: Seq<char>) -> bool {
    &&& v.len() > 0
    &&& forall|i: int| 0 <= i < v.len() ==> is_ascii_digit(#[trigger] v[i])
    &&& (v.len() == 1 || v[0] != '0')
}

/// A SemVer numeric identifier is exactly a non-empty string of the digits `0-9` that does
/// not start with `0` unless it is `0` itself: `0`, `7`, `10` and `2024` are identifiers,
/// `01` and `` are not.
pub proof fn law_numeric_identifier(v: Seq<char>)
    ensures
        numeric_identifier(v) <==> (v.len() > 0 && (forall|i: int| 0 <= i < v.len() ==> 48 <= (#[trigger] v[i]) as int <= 57)
            && !(v.len() > 1 && v[0] as int == 48)),
{
}

/// Every character is a digit.
pub open spec fn all_digits(v: Seq<char>) -> bool {
    forall|i: int| 0 <= i < v.len() ==> is_ascii_digit(#[trigger] v[i])
}

/// A build or prerelease identifier character: `[0-9A-Za-z-]`.
pub open spec fn identifier_chars(v: Seq<char>) -> bool {
    forall|i: int| 0 <= i < v.len() ==> (is_alnum(#[trigger] v[i]) || v[i] == '-')
}

/// A prerelease identifier: non-empty, `[0-9A-Za-z-]`, numeric ones without leading zeros.
pub open spec fn prerelease_identifier(v: Seq<char>) -> bool {
    v.len() > 0 && identifier_chars(v) && (all_digits(v) ==> numeric_identifier(v))
}

/// A build identifier: non-empty, `[0-9A-Za-z-]`.
pub open spec fn build_identifier(v: Seq<char>) -> bool {
    v.len() > 0 && identifier_chars(v)
}

/// The version text before any `+build` part.
pub open spec fn without_build(v: Seq<char>) -> Seq<char> {
    match split_once(v, '+') {
        Some(parts) => parts.0,
        None => v,
    }
}

/// The `+build` part, after the first `+`.
pub open spec fn build_part(v: Seq<char>) -> Option<Seq<char>> {
    match split_once(v, '+') {
        Some(parts) => Some(parts.1),
        None => None,
    }
}

/// The `major.minor.patch` core, before the first `-` of the build-less text.
pub open spec fn core_part(v: Seq<char>) -> Seq<char> {
    match split_once(without_build(v), '-') {
        Some(parts) => parts.0,
        None => without_build(v),
    }
}

/// The `-prerelease` part.
pub open spec fn prerelease_part(v: Seq<char>) -> Option<Seq<char>> {
    match split_once(without_build(v), '-') {
        Some(parts) => Some(parts.1),
        None => None,
    }
}

/// An exact SemVer version: `major.minor.patch`, optional `-prerelease`, optional `+build`.
pub open spec fn valid_semver(v: Seq<char>) -> bool {
    let parts = split(core_part(v), '.');
    &&& parts.len() == 3
    &&& forall|k: int| 0 <= k < 3 ==> numeric_identifier(#[trigger] parts[k])
    &&& (prerelease_part(v) matches Some(p) ==> p.len() > 0 && forall|k: int| 0 <= k < split(p, '.').len() ==> prerelease_identifier(#[trigger] split(p, '.')[k]))
    &&& (build_part(v) matches Some(b) ==> b.len() > 0 && forall|k: int| 0 <= k < split(b, '.').len() ==> build_identifier(#[trigger] split(b, '.')[k]))
}

/// Problems of a version field.
pub open spec fn version_problems(v: Seq<char>, p: Seq<char>, required: bool) -> Seq<(Seq<char>, Seq<char>)> {
    if v.len() == 0 {
        problem_if(required, p, "version is empty"@)
    } else {
        problem_if(!valid_semver(v), p, "version must be an exact SemVer version: major.minor.patch with optional prerelease and build metadata"@)
    }
}

/// Problems of the manifest entry path (no `.` or `..` segments allowed).
pub open spec fn entry_path_problems(v: Seq<char>, p: Seq<char>, disallow_parent: bool) -> Seq<(Seq<char>, Seq<char>)> {
    if v.len() == 0 {
        one(p, "path is empty"@)
    } else {
        let base = problem_if(has_char(v, '\\'), p, "backslash separators are not portable"@)
            + problem_if(is_absolute_path(v), p, "absolute paths are not allowed"@);
        if has_empty_segment(split(v, '/')) {
            base + one(p, "path contains an empty segment"@)
        } else {
            base + problem_if(disallow_parent && (has_segment(split(v, '/'), "."@) || has_segment(split(v, '/'), ".."@)), p, "entry paths cannot contain '.' or '..' segments"@)
        }
    }
}

/// Problems of a target name.
pub open spec fn target_problems(v: Seq<char>, p: Seq<char>) -> Seq<(Seq<char>, Seq<char>)> {
    if v.len() == 0 {
        one(p, "target is empty"@)
    } else {
        problem_if(exists|i: int| 0 <= i < v.len() && (is_unicode_whitespace(#[trigger] v[i]) || is_unicode_control(v[i])), p,
            "target must not contain surrounding whitespace or control characters"@)
    }
}

fn all_digit_chars(v: &Vec<char>, from: usize, to: usize) -> (ok: bool)
    requires
        from <= to <= v@.len(),
    ensures
        ok == all_digits(v@.subrange(from as int, to as int)),
{
    let mut i = from;
    while i < to
        invariant
            from <= i <= to <= v@.len(),
            forall|j: int| from <= j < i ==> is_ascii_digit(#[trigger] v@[j]),
        decreases to - i,
    {
        if !(v[i] >= '0' && v[i] <= '9') {
            assert(!is_ascii_digit(v@.subrange(from as int, to as int)[i - from]));
            return false;
        }
        i = i + 1;
    }
    assert forall|j: int| 0 <= j < to - from implies is_ascii_digit(#[trigger] v@.subrange(from as int, to as int)[j]) by {
        assert(v@.subrange(from as int, to as int)[j] == v@[from + j]);
    }
    true
}

fn is_numeric_identifier(value: &str) -> (ok: bool)
    ensures
        ok == numeric_identifier(value@),
{
    let v = chars_of(value);
    if v.len() == 0 {
        return false;
    }
    let digits = all_digit_chars(&v, 0, v.len());
    assert(v@.subrange(0, v@.len() as int) =~= v@);
    digits && (v.len() == 1 || v[0] != '0')
}

fn has_identifier_chars(v: &Vec<char>) -> (ok: bool)
    ensures
        ok == identifier_chars(v@),
{
    let mut i: usize = 0;
    while i < v.len()
        invariant
            i <= v@.len(),
            forall|j: int| 0 <= j < i ==> (is_alnum(#[trigger] v@[j]) || v@[j] == '-'),
        decreases v.len() - i,
    {
        let c = v[i];
        if !((c >= '0' && c <= '9') || (c >= 'a' && c <= 'z') || (c >= 'A' && c <= 'Z') || c == '-') {
            return false;
        }
        i = i + 1;
    }
    true
}

fn is_prerelease_identifier(value: &str) -> (ok: bool)
    ensures
        ok == prerelease_identifier(value@),
{
    let v = chars_of(value);
    let numeric = all_digit_chars(&v, 0, v.len());
    assert(v@.subrange(0, v@.len() as int) =~= v@);
    v.len() > 0 && has_identifier_chars(&v) && (!numeric || is_numeric_identifier(value))
}

fn is_build_identifier(value: &str) -> (ok: bool)
    ensures
        ok == build_identifier(value@),
{
    let v = chars_of(value);
    v.len() > 0 && has_identifier_chars(&v)
}

fn all_identifiers(value: &str, prerelease: bool) -> (ok: bool)
    ensures
        prerelease ==> ok == forall|k: int| 0 <= k < split(value@, '.').len() ==> prerelease_identifier(#[trigger] split(value@, '.')[k]),
        !prerelease ==> ok == forall|k: int| 0 <= k < split(value@, '.').len() ==> build_identifier(#[trigger] split(value@, '.')[k]),
{
    let parts = split_str(value, '.');
    let mut k: usize = 0;
    while k < parts.len()
        invariant
            views(parts@) == split(value@, '.'),
            k <= parts@.len(),
            prerelease ==> forall|j: int| 0 <= j < k ==> prerelease_identifier(#[trigger] split(value@, '.')[j]),
            !prerelease ==> forall|j: int| 0 <= j < k ==> build_identifier(#[trigger] split(value@, '.')[j]),
        decreases parts.len() - k,
    {
        assert(views(parts@)[k as int] == parts@[k as int]@);
        let ok = if prerelease { is_prerelease_identifier(parts[k]) } else { is_build_identifier(parts[k]) };
        if !ok {
            return false;
        }
        k = k + 1;
    }
    true
}

/// Whether `value` is an exact SemVer version.
pub fn is_valid_semver(value: &str) -> (ok: bool)
    ensures
        ok == valid_semver(value@),
{
    let chars = chars_of(value);
    let n = chars.len();
    proof {
        lemma_first_index(value@, '+');
    }
    let (without_build, build) = match find_char(&chars, '+') {
        Some(i) => {
            let a = value.substring_char(0, i);
            let b = value.substring_char(i + 1, n);
            assert(a@ =~= value@.take(i as int));
            assert(b@ =~= value@.skip(i + 1));
            (a, Some(b))
        },
        None => (value, None),
    };
    assert(without_build@ == crate::package::manifest::without_build(value@));
    assert(match build { Some(bb) => build_part(value@) == Some(bb@), None => build_part(value@) is None });
    let inner = chars_of(without_build);
    let m = inner.len();
    proof {
        lemma_first_index(without_build@, '-');
    }
    let (core, prerelease) = match find_char(&inner, '-') {
        Some(i) => {
            let a = without_build.substring_char(0, i);
            let b = without_build.substring_char(i + 1, m);
            assert(a@ =~= without_build@.take(i as int));
            assert(b@ =~= without_build@.skip(i + 1));
            (a, Some(b))
        },
        None => (without_build, None),
    };
    assert(core@ == core_part(value@));
    assert(match prerelease { Some(pp) => prerelease_part(value@) == Some(pp@), None => prerelease_part(value@) is None });
    let parts = split_str(core, '.');
    if parts.len() != 3 {
        return false;
    }
    assert(views(parts@)[0] == parts@[0]@);
    assert(views(parts@)[1] == parts@[1]@);
    assert(views(parts@)[2] == parts@[2]@);
    if !(is_numeric_identifier(parts[0]) && is_numeric_identifier(parts[1]) && is_numeric_identifier(parts[2])) {
        return false;
    }
    match prerelease {
        Some(p) => {
            if p.is_empty() || !all_identifiers(p, true) {
                return false;
            }
        },
        None => {},
    }
    match build {
        Some(b) => {
            if b.is_empty() || !all_identifiers(b, false) {
                return false;
            }
        },
        None => {},
    }
    proof {
        assert forall|k: int| 0 <= k < 3 implies numeric_identifier(#[trigger] split(core@, '.')[k]) by {
            if k == 0 {} else if k == 1 {} else {}
        }
    }
    true
}

/// Records the problems of a version field.
pub(crate) fn check_version(value: &str, path: &str, problems: &mut Vec<ValidationProblem>, required: bool)
    ensures
        problem_pairs(final(problems)@) == problem_pairs(old(problems)@) + version_problems(value@, path@, required),
{
    let ghost start = problem_pairs(problems@);
    if value.is_empty() {
        if required {
            push_problem(problems, path, "version is empty");
        }
        assert(problem_pairs(problems@) =~= start + version_problems(value@, path@, required));
        return;
    }
    if !is_valid_semver(value) {
        push_problem(problems, path, "version must be an exact SemVer version: major.minor.patch with optional prerelease and build metadata");
    }
    assert(problem_pairs(problems@) =~= start + version_problems(value@, path@, required));
}

fn segment_matches(segments: &Vec<&str>, dots: bool) -> (found: bool)
    ensures
        dots ==> found == (has_segment(views(segments@), "."@) || has_segment(views(segments@), ".."@)),
        !dots ==> found == has_empty_segment(views(segments@)),
{
    let mut k: usize = 0;
    while k < segments.len()
        invariant
            k <= segments@.len(),
            dots ==> forall|j: int| 0 <= j < k ==> (#[trigger] views(segments@)[j] != "."@ && views(segments@)[j] != ".."@),
            !dots ==> forall|j: int| 0 <= j < k ==> (#[trigger] views(segments@)[j]).len() != 0,
        decreases segments.len() - k,
    {
        let seg = chars_of(segments[k]);
        proof {
            reveal_strlit(".");
            reveal_strlit("..");
        }
        assert(views(segments@)[k as int] == seg@);
        if dots {
            if (seg.len() == 1 && seg[0] == '.') || (seg.len() == 2 && seg[0] == '.' && seg[1] == '.') {
                proof {
                    if seg@.len() == 1 {
                        assert(seg@ =~= "."@);
                    } else {
                        assert(seg@ =~= ".."@);
                    }
                }
                return true;
            }
            proof {
                assert(seg@ != "."@ && seg@ != ".."@) by {
                    if seg@ == "."@ {
                        assert(seg@.len() == 1);
                    }
                    if seg@ == ".."@ {
                        assert(seg@.len() == 2);
                    }
                }
            }
        } else if seg.len() == 0 {
            return true;
        }
        k = k + 1;
    }
    false
}

/// Records the problems of a relative path.
fn check_entry_path(value: &str, path: &str, disallow_parent: bool, problems: &mut Vec<ValidationProblem>)
    ensures
        problem_pairs(final(problems)@) == problem_pairs(old(problems)@) + entry_path_problems(value@, path@, disallow_parent),
{
    let ghost start = problem_pairs(problems@);
    if value.is_empty() {
        push_problem(problems, path, "path is empty");
        return;
    }
    let chars = chars_of(value);
    let mut backslash = false;
    let mut i: usize = 0;
    while i < chars.len()
        invariant
            chars@ == value@,
            i <= chars@.len(),
            backslash == exists|j: int| 0 <= j < i && chars@[j] == '\\',
        decreases chars.len() - i,
    {
        if chars[i] == '\\' {
            backslash = true;
        }
        i = i + 1;
    }
    if backslash {
        push_problem(problems, path, "backslash separators are not portable");
    }
    if (chars.len() > 0 && chars[0] == '/') || (chars.len() >= 2 && (chars[0] as u32) < 128 && chars[1] == ':') {
        push_problem(problems, path, "absolute paths are not allowed");
    }
    let ghost base = problem_pairs(problems@);
    assert(base =~= start + problem_if(has_char(value@, '\\'), path@, "backslash separators are not portable"@)
        + problem_if(is_absolute_path(value@), path@, "absolute paths are not allowed"@));
    let segments = split_str(value, '/');
    if segment_matches(&segments, false) {
        push_problem(problems, path, "path contains an empty segment");
        assert(problem_pairs(problems@) =~= start + entry_path_problems(value@, path@, disallow_parent));
        return;
    }
    if disallow_parent && segment_matches(&segments, true) {
        push_problem(problems, path, "entry paths cannot contain '.' or '..' segments");
    }
    assert(problem_pairs(problems@) =~= start + entry_path_problems(value@, path@, disallow_parent));
}

/// Records the problems of a target name.
pub(crate) fn check_target(value: &str, path: &str, problems: &mut Vec<ValidationProblem>)
    ensures
        problem_pairs(final(problems)@) == problem_pairs(old(problems)@) + target_problems(value@, path@),
{
    let ghost start = problem_pairs(problems@);
    if value.is_empty() {
        push_problem(problems, path, "target is empty");
        return;
    }
    let chars = chars_of(value);
    let mut bad = false;
    let mut i: usize = 0;
    while i < chars.len()
        invariant
            chars@ == value@,
            i <= chars@.len(),
            bad == exists|j: int| 0 <= j < i && (is_unicode_whitespace(#[trigger] chars@[j]) || is_unicode_control(chars@[j])),
        decreases chars.len() - i,
    {
        if char_is_whitespace(chars[i]) || char_is_control(chars[i]) {
            bad = true;
        }
        i = i + 1;
    }
    if bad {
        push_problem(problems, path, "target must not contain surrounding whitespace or control characters");
    }
    assert(problem_pairs(problems@) =~= start + target_problems(value@, path@));
}

} // verus!

verus! {

use crate::package::coordinate::PackageId;
use crate::package::lock::{PackageSource, SourceView, source_problems};
use crate::package::error::{joined_problems, LockfileError};

/// One local or pinned remote dependency declared by a manifest.
#[derive(Debug)]
pub struct Dependency {
    /// Canonical coordinate of the dependency package.
    pub name: PackageId,
    /// Exact SemVer version required by the dependency, when declared.
    pub version: Option<String>,
    /// Local path or exact pinned GitHub source.
    pub source: PackageSource,
}

/// The value reading of a dependency: coordinate, version, source.
pub ghost struct DependencyView {
    /// Coordinate text.
    pub name: Seq<char>,
    /// Version text, when declared.
    pub version: Option<Seq<char>>,
    /// Source.
    pub source: SourceView,
}

/// The reading of an optional string.
pub open spec fn opt_view(v: Option<String>) -> Option<Seq<char>> {
    match v {
        Some(s) => Some(s@),
        None => None,
    }
}

impl View for Dependency {
    type V = DependencyView;

    open spec fn view(&self) -> DependencyView {
        DependencyView { name: self.name@, version: opt_view(self.version), source: self.source@ }
    }
}

/// The message a dependency records for an invalid source.
pub open spec fn invalid_source_text(source: SourceView) -> Seq<char> {
    "lockfile is invalid: "@ + joined_problems(source_problems(source, "source"@))
}

/// Problems of one dependency under `prefix`.
pub open spec fn dependency_problems(d: DependencyView, prefix: Seq<char>) -> Seq<(Seq<char>, Seq<char>)> {
    version_problems(match d.version { Some(v) => v, None => Seq::empty() }, prefix + ".version"@, d.version is Some)
        + problem_if(d.source is GitHub && d.version is None, prefix + ".version"@, "GitHub dependencies require an exact SemVer version"@)
        + problem_if(source_problems(d.source, "source"@).len() > 0, prefix + ".source"@, invalid_source_text(d.source))
}

/// Records a source's problem message under `path`, when the source is invalid.
fn check_source(source: &PackageSource, path: &str, problems: &mut Vec<ValidationProblem>)
    ensures
        problem_pairs(final(problems)@) == problem_pairs(old(problems)@) + problem_if(source_problems(source@, "source"@).len() > 0, path@, invalid_source_text(source@)),
{
    let ghost start = problem_pairs(problems@);
    match source.validate() {
        Ok(()) => {},
        Err(error) => {
            let text = error.to_string();
            proof {
                reveal_strlit("lockfile");
                reveal_strlit(" is invalid: ");
                reveal_strlit("lockfile is invalid: ");
                match error {
                    LockfileError::Invalid { problems: found } => {
                        assert(problem_pairs(found@) == source_problems(source@, "source"@));
                        assert("lockfile"@ + " is invalid: "@ =~= "lockfile is invalid: "@);
                        assert(text@ =~= invalid_source_text(source@));
                    },
                    _ => {},
                }
            }
            push_problem(problems, path, text.as_str());
        },
    }
    assert(problem_pairs(problems@) =~= start + problem_if(source_problems(source@, "source"@).len() > 0, path@, invalid_source_text(source@)));
}

impl Dependency {
    /// A copy of this dependency.
    pub fn duplicate(&self) -> (copy: Dependency)
        ensures
            copy@ == self@,
    {
        let version = match &self.version {
            Some(v) => Some(v.clone()),
            None => None,
        };
        Dependency { name: self.name.duplicate(), version, source: self.source.duplicate() }
    }

    /// Returns the canonical dependency coordinate.
    pub fn coordinate(&self) -> (name: &PackageId)
        ensures
            name@ == self.name@,
    {
        &self.name
    }

    /// Creates a path dependency without a version constraint.
    pub fn new(name: PackageId, path: &str) -> (dependency: Dependency)
        ensures
            dependency@ == (DependencyView { name: name@, version: None, source: SourceView::Path(path@) }),
    {
        Dependency { name, version: None, source: PackageSource::Path { path: String::from_str(path) } }
    }

    /// Adds an exact SemVer version requirement; range constraints are not supported.
    pub fn with_version(self, version: &str) -> (dependency: Dependency)
        ensures
            dependency@ == (DependencyView { version: Some(version@), ..self@ }),
    {
        Dependency { name: self.name, version: Some(String::from_str(version)), source: self.source }
    }

    /// Records the problems of this dependency under `prefix`.
    pub fn validate_at(&self, prefix: &str, problems: &mut Vec<ValidationProblem>)
        ensures
            problem_pairs(final(problems)@) == problem_pairs(old(problems)@) + dependency_problems(self@, prefix@),
    {
        let ghost start = problem_pairs(problems@);
        let label = String::from_str(prefix).concat(".version");
        match &self.version {
            Some(v) => check_version(v.as_str(), label.as_str(), problems, true),
            None => check_version("", label.as_str(), problems, false),
        }
        let is_github = match &self.source {
            PackageSource::GitHub { .. } => true,
            PackageSource::Path { .. } => false,
        };
        if is_github && self.version.is_none() {
            push_problem(problems, label.as_str(), "GitHub dependencies require an exact SemVer version");
        }
        let source_label = String::from_str(prefix).concat(".source");
        check_source(&self.source, source_label.as_str(), problems);
        proof {
            reveal_strlit("");
        }
        assert(problem_pairs(problems@) =~= start + dependency_problems(self@, prefix@));
    }

    /// Validates this dependency in isolation.
    pub fn validate(&self) -> (result: Result<(), ManifestError>)
        ensures
            match result {
                Ok(_) => dependency_problems(self@, "dependency"@).len() == 0,
                Err(ManifestError::Invalid { problems }) => dependency_problems(self@, "dependency"@).len() > 0
                    && problem_pairs(problems@) == dependency_problems(self@, "dependency"@),
                Err(_) => false,
            },
    {
        let mut problems: Vec<ValidationProblem> = Vec::new();
        assert(problem_pairs(problems@) =~= Seq::<(Seq<char>, Seq<char>)>::empty());
        self.validate_at("dependency", &mut problems);
        assert(problem_pairs(problems@) =~= dependency_problems(self@, "dependency"@));
        if problems.len() == 0 {
            Ok(())
        } else {
            Err(ManifestError::Invalid { problems })
        }
    }

    /// Creates a pinned GitHub dependency with an exact package version.
    pub fn github(name: PackageId, version: &str, repository: &str, revision: &str, subpath: &str) -> (result: Result<Dependency, ManifestError>)
        ensures
            match result {
                Ok(d) => d@ == (DependencyView { name: name@, version: Some(version@), source: SourceView::GitHub(repository@, revision@, subpath@) })
                    && dependency_problems(d@, "dependency"@).len() == 0,
                Err(ManifestError::Invalid { problems }) => problems@.len() > 0,
                Err(_) => false,
            },
    {
        let source = match PackageSource::github_at(repository, revision, subpath) {
            Ok(source) => source,
            Err(error) => {
                let text = error.to_string();
                let mut problems: Vec<ValidationProblem> = Vec::new();
                problems.push(ValidationProblem::new("dependency.source", text.as_str()));
                return Err(ManifestError::Invalid { problems });
            },
        };
        let dependency = Dependency { name, version: Some(String::from_str(version)), source };
        match dependency.validate() {
            Ok(()) => Ok(dependency),
            Err(error) => Err(error),
        }
    }
}

} // verus!

verus! {

use crate::host::capability::{lemma_lex_total, lemma_lex_transitive, lex_lt};
use crate::package::lock::source_location;
use crate::package::order::{lemma_lex_strict, text_equal, text_less};

/// `a` orders before `b`: absent versions first, then by text.
pub open spec fn version_lt(a: Option<Seq<char>>, b: Option<Seq<char>>) -> bool {
    match (a, b) {
        (None, Some(_)) => true,
        (Some(x), Some(y)) => lex_lt(x, y),
        _ => false,
    }
}

/// The canonical dependency order: by coordinate, then source location, then version.
pub open spec fn dependency_lt(a: DependencyView, b: DependencyView) -> bool {
    if a.name != b.name {
        lex_lt(a.name, b.name)
    } else if source_location(a.source) != source_location(b.source) {
        lex_lt(source_location(a.source), source_location(b.source))
    } else {
        version_lt(a.version, b.version)
    }
}

/// No dependency orders before one that precedes it.
pub open spec fn dependencies_sorted(s: Seq<DependencyView>) -> bool {
    forall|i: int, j: int| 0 <= i < j < s.len() ==> !dependency_lt(#[trigger] s[j], #[trigger] s[i])
}

/// The value readings of a list of dependencies.
pub open spec fn dependency_views(s: Seq<Dependency>) -> Seq<DependencyView> {
    s.map_values(|d: Dependency| d@)
}

proof fn lemma_version_lt(a: Option<Seq<char>>, b: Option<Seq<char>>, c: Option<Seq<char>>)
    ensures
        !version_lt(a, a),
        version_lt(a, b) && version_lt(b, c) ==> version_lt(a, c),
        a != b ==> version_lt(a, b) || version_lt(b, a),
{
    match a {
        Some(x) => lemma_lex_strict(x, x),
        None => {},
    }
    if version_lt(a, b) && version_lt(b, c) {
        match (a, b, c) {
            (Some(x), Some(y), Some(z)) => lemma_lex_transitive(x, y, z),
            _ => {},
        }
    }
    if a != b {
        match (a, b) {
            (Some(x), Some(y)) => lemma_lex_total(x, y),
            _ => {},
        }
    }
}

/// The dependency order is a strict order, total on dependencies with different keys.
proof fn lemma_dependency_lt(a: DependencyView, b: DependencyView, c: DependencyView)
    ensures
        !dependency_lt(a, a),
        dependency_lt(a, b) && dependency_lt(b, c) ==> dependency_lt(a, c),
        !dependency_lt(a, b) && !dependency_lt(b, a) ==> a.name == b.name
            && source_location(a.source) == source_location(b.source) && a.version == b.version,
{
    let (la, lb, lc) = (source_location(a.source), source_location(b.source), source_location(c.source));
    lemma_lex_strict(a.name, a.name);
    lemma_lex_strict(la, la);
    lemma_version_lt(a.version, b.version, c.version);
    lemma_version_lt(b.version, a.version, c.version);
    if dependency_lt(a, b) && dependency_lt(b, c) {
        if a.name != b.name && b.name != c.name {
            lemma_lex_transitive(a.name, b.name, c.name);
            lemma_lex_strict(a.name, c.name);
            lemma_lex_strict(c.name, a.name);
        } else if a.name == b.name && b.name == c.name {
            if la != lb && lb != lc {
                lemma_lex_transitive(la, lb, lc);
                lemma_lex_strict(lc, la);
            } else if la == lb && lb == lc {
            } else if la == lb {
            } else {
            }
        } else if a.name == b.name {
        } else {
        }
    }
    if !dependency_lt(a, b) && !dependency_lt(b, a) {
        if a.name != b.name {
            lemma_lex_total(a.name, b.name);
        } else if la != lb {
            lemma_lex_total(la, lb);
        }
    }
}

/// Whether `a` orders before `b` in the canonical dependency order.
fn dependency_less(a: &Dependency, b: &Dependency) -> (less: bool)
    ensures
        less == dependency_lt(a@, b@),
{
    if !text_equal(a.name.as_str(), b.name.as_str()) {
        return text_less(a.name.as_str(), b.name.as_str());
    }
    let left = a.source.location();
    let right = b.source.location();
    if !text_equal(left.as_str(), right.as_str()) {
        return text_less(left.as_str(), right.as_str());
    }
    match (&a.version, &b.version) {
        (None, Some(_)) => true,
        (Some(x), Some(y)) => text_less(x.as_str(), y.as_str()),
        _ => false,
    }
}

/// Inserting `d` at `p`, after everything that orders before it and before the rest,
/// keeps the list sorted.
proof fn lemma_insert_dependency(s: Seq<DependencyView>, p: int, d: DependencyView)
    requires
        dependencies_sorted(s),
        0 <= p <= s.len(),
        forall|q: int| 0 <= q < p ==> dependency_lt(#[trigger] s[q], d),
        p < s.len() ==> !dependency_lt(s[p], d),
    ensures
        dependencies_sorted(s.insert(p, d)),
{
    let r = s.insert(p, d);
    assert forall|i: int, j: int| 0 <= i < j < r.len() implies !dependency_lt(#[trigger] r[j], #[trigger] r[i]) by {
        if j < p {
            assert(r[i] == s[i] && r[j] == s[j]);
        } else if j == p {
            assert(r[i] == s[i]);
            lemma_dependency_lt(s[i], d, s[i]);
        } else if i == p {
            assert(r[j] == s[j - 1]);
            if j - 1 > p {
                assert(!dependency_lt(s[j - 1], s[p]));
                lemma_dependency_lt(s[j - 1], d, s[p]);
                lemma_dependency_lt(s[j - 1], s[p], d);
                lemma_dependency_lt(s[p], d, s[j - 1]);
                lemma_dependency_lt(d, s[p], s[j - 1]);
            }
        } else if i < p {
            assert(r[j] == s[j - 1]);
        } else {
            assert(r[i] == s[i - 1] && r[j] == s[j - 1]);
        }
    }
}

/// The dependencies rearranged into the canonical order, keeping equal ones in their
/// relative order.
fn sort_dependencies(deps: Vec<Dependency>) -> (sorted: Vec<Dependency>)
    ensures
        dependency_views(sorted@).to_multiset() == dependency_views(deps@).to_multiset(),
        dependencies_sorted(dependency_views(sorted@)),
{
    broadcast use vstd::seq_lib::group_to_multiset_ensures;
    let ghost all = dependency_views(deps@).to_multiset();
    let mut rest = deps;
    let mut sorted: Vec<Dependency> = Vec::new();
    assert(dependency_views(sorted@) =~= Seq::<DependencyView>::empty());
    while rest.len() > 0
        invariant
            dependency_views(sorted@).to_multiset().add(dependency_views(rest@).to_multiset()) == all,
            dependencies_sorted(dependency_views(sorted@)),
        decreases rest.len(),
    {
        let ghost before = dependency_views(sorted@);
        let ghost remaining = dependency_views(rest@);
        let item = match rest.pop() {
            Some(item) => item,
            None => return sorted,
        };
        let ghost d = item@;
        assert(remaining =~= dependency_views(rest@).push(d));
        let mut p: usize = 0;
        while p < sorted.len() && dependency_less(&sorted[p], &item)
            invariant
                before == dependency_views(sorted@),
                p <= sorted@.len(),
                d == item@,
                forall|q: int| 0 <= q < p ==> dependency_lt(#[trigger] before[q], d),
            decreases sorted.len() - p,
        {
            p = p + 1;
        }
        proof {
            lemma_insert_dependency(before, p as int, d);
        }
        sorted.insert(p, item);
        assert(dependency_views(sorted@) =~= before.insert(p as int, d));
        proof {
            vstd::seq_lib::to_multiset_insert(before, p as int, d);
            vstd::seq_lib::to_multiset_build(dependency_views(rest@), d);
        }
        assert(dependency_views(sorted@).to_multiset() == before.to_multiset().insert(d));
        assert(remaining.to_multiset() == dependency_views(rest@).to_multiset().insert(d));
        assert(dependency_views(sorted@).to_multiset().add(dependency_views(rest@).to_multiset())
            =~= before.to_multiset().add(remaining.to_multiset()));
    }
    assert(dependency_views(rest@) =~= Seq::<DependencyView>::empty());
    assert(dependency_views(sorted@).to_multiset() =~= all);
    sorted
}

} // verus!

verus! {

use crate::package::capabilities::{first_capability_error, normalize_capabilities, normalizes};
use crate::package::order::{occurs, sorted_unique, strictly_sorted};
use crate::text::{decimal, push_decimal, string_views};

/// The validated contents of an `aipo.toml` file.
#[derive(Debug)]
pub struct Manifest {
    /// Canonical package coordinate.
    pub name: PackageId,
    /// Exact SemVer package version.
    pub version: String,
    /// Logical entry module or relative entry file.
    pub entry: String,
    /// Local path or exact pinned GitHub dependencies.
    pub dependencies: Vec<Dependency>,
    /// Declared compilation targets.
    pub targets: Vec<String>,
    /// Capabilities declared as the package's upper bound.
    pub capabilities: Vec<String>,
}

/// The value reading of a manifest.
pub ghost struct ManifestView {
    /// Coordinate text.
    pub name: Seq<char>,
    /// Version text.
    pub version: Seq<char>,
    /// Entry text.
    pub entry: Seq<char>,
    /// Dependencies, in declared order.
    pub dependencies: Seq<DependencyView>,
    /// Targets, in declared order.
    pub targets: Seq<Seq<char>>,
    /// Capabilities, in declared order.
    pub capabilities: Seq<Seq<char>>,
}

impl View for Manifest {
    type V = ManifestView;

    open spec fn view(&self) -> ManifestView {
        ManifestView {
            name: self.name@,
            version: self.version@,
            entry: self.entry@,
            dependencies: dependency_views(self.dependencies@),
            targets: string_views(self.targets@),
            capabilities: string_views(self.capabilities@),
        }
    }
}

/// `label[i]`.
pub open spec fn indexed(label: Seq<char>, i: nat) -> Seq<char> {
    label + "["@ + decimal(i) + "]"@
}

/// Whether the dependency at `i` repeats the coordinate of an earlier one.
pub open spec fn declared_before(deps: Seq<DependencyView>, i: int) -> bool {
    exists|j: int| 0 <= j < i && #[trigger] deps[j].name == deps[i].name
}

/// Problems of the first `n` dependencies.
pub open spec fn dependencies_problems(deps: Seq<DependencyView>, n: nat) -> Seq<(Seq<char>, Seq<char>)>
    decreases n,
{
    if n == 0 {
        Seq::empty()
    } else {
        let i = (n - 1) as nat;
        dependencies_problems(deps, i)
            + problem_if(declared_before(deps, i as int), indexed("dependencies"@, i) + ".name"@,
                "dependency is declared more than once"@)
            + dependency_problems(deps[i as int], indexed("dependencies"@, i))
    }
}

/// Problems of the first `n` targets.
pub open spec fn targets_problems(targets: Seq<Seq<char>>, n: nat) -> Seq<(Seq<char>, Seq<char>)>
    decreases n,
{
    if n == 0 {
        Seq::empty()
    } else {
        let i = (n - 1) as nat;
        targets_problems(targets, i) + target_problems(targets[i as int], indexed("targets"@, i))
    }
}

/// Problems of the first `n` capabilities.
pub open spec fn capabilities_problems(names: Seq<Seq<char>>, n: nat) -> Seq<(Seq<char>, Seq<char>)>
    decreases n,
{
    if n == 0 {
        Seq::empty()
    } else {
        let i = (n - 1) as nat;
        capabilities_problems(names, i) + match parse_capability_outcome(names[i as int]) {
            Ok(_) => Seq::empty(),
            Err(kind) => one(indexed("capabilities"@, i), capability_kind_text(kind)),
        }
    }
}

/// Every problem of a manifest, in the order validation reports them.
pub open spec fn manifest_problems(m: ManifestView) -> Seq<(Seq<char>, Seq<char>)> {
    version_problems(m.version, "version"@, true)
        + entry_path_problems(m.entry, "entry"@, true)
        + dependencies_problems(m.dependencies, m.dependencies.len())
        + targets_problems(m.targets, m.targets.len())
        + capabilities_problems(m.capabilities, m.capabilities.len())
}

/// `label[i]` as text.
pub(crate) fn index_label(label: &str, i: usize) -> (text: String)
    ensures
        text@ == indexed(label@, i as nat),
{
    let mut text = String::from_str(label).concat("[");
    push_decimal(&mut text, i as u64);
    text.concat("]")
}

/// A capability list without problems names only capabilities.
proof fn lemma_capabilities_parse(names: Seq<Seq<char>>, n: nat)
    requires
        n <= names.len(),
        capabilities_problems(names, n).len() == 0,
    ensures
        forall|k: int| 0 <= k < n ==> parse_capability_outcome(#[trigger] names[k]) is Ok,
    decreases n,
{
    if n > 0 {
        lemma_capabilities_parse(names, (n - 1) as nat);
    }
}

/// A list whose names all parse has no first capability error.
proof fn lemma_no_capability_error(names: Seq<Seq<char>>)
    requires
        forall|k: int| 0 <= k < names.len() ==> parse_capability_outcome(#[trigger] names[k]) is Ok,
    ensures
        first_capability_error(names) is None,
    decreases names.len(),
{
    if names.len() > 0 {
        assert forall|k: int| 0 <= k < names.drop_first().len() implies parse_capability_outcome(#[trigger] names.drop_first()[k]) is Ok by {
            assert(names.drop_first()[k] == names[k + 1]);
        }
        lemma_no_capability_error(names.drop_first());
    }
}

/// What canonicalizing `old` yields: the same identity, dependencies rearranged into the
/// canonical order, the distinct targets in order, and the minimal capability set.
pub open spec fn canonical_manifest(new: ManifestView, old: ManifestView) -> bool {
    &&& new.name == old.name
    &&& new.version == old.version
    &&& new.entry == old.entry
    &&& new.dependencies.to_multiset() == old.dependencies.to_multiset()
    &&& dependencies_sorted(new.dependencies)
    &&& strictly_sorted(new.targets)
    &&& forall|t: Seq<char>| occurs(new.targets, t) <==> occurs(old.targets, t)
    &&& normalizes(new.capabilities, old.capabilities)
}

} // verus!

verus! {

use crate::host::capability::CapabilityError;

/// Records the problems of a dependency list.
fn check_dependencies(dependencies: &Vec<Dependency>, problems: &mut Vec<ValidationProblem>)
    ensures
        problem_pairs(final(problems)@) == problem_pairs(old(problems)@)
            + dependencies_problems(dependency_views(dependencies@), dependencies@.len()),
{
    let ghost head = problem_pairs(problems@);
    let ghost deps = dependency_views(dependencies@);
    let mut i: usize = 0;
    while i < dependencies.len()
        invariant
            deps == dependency_views(dependencies@),
            i <= dependencies@.len(),
            problem_pairs(problems@) == head + dependencies_problems(deps, i as nat),
        decreases dependencies.len() - i,
    {
        let prefix = index_label("dependencies", i);
        let mut repeated = false;
        let mut j: usize = 0;
        while j < i
            invariant
                deps == dependency_views(dependencies@),
                i < dependencies@.len(),
                j <= i,
                repeated == exists|k: int| 0 <= k < j && #[trigger] deps[k].name == deps[i as int].name,
            decreases i - j,
        {
            let same = dependencies[j].name == dependencies[i].name;
            assert(same == (deps[j as int].name == deps[i as int].name));
            if same {
                repeated = true;
            }
            j = j + 1;
        }
        let name_label = String::from_str(prefix.as_str()).concat(".name");
        if repeated {
            push_problem(problems, name_label.as_str(), "dependency is declared more than once");
        }
        dependencies[i].validate_at(prefix.as_str(), problems);
        assert(deps[i as int] == dependencies@[i as int]@);
        i = i + 1;
    }
}

/// Records the problems of a target list.
fn check_targets(targets: &Vec<String>, problems: &mut Vec<ValidationProblem>)
    ensures
        problem_pairs(final(problems)@) == problem_pairs(old(problems)@)
            + targets_problems(string_views(targets@), targets@.len()),
{
    let ghost head = problem_pairs(problems@);
    let ghost names = string_views(targets@);
    let mut i: usize = 0;
    while i < targets.len()
        invariant
            names == string_views(targets@),
            i <= targets@.len(),
            problem_pairs(problems@) == head + targets_problems(names, i as nat),
        decreases targets.len() - i,
    {
        let label = index_label("targets", i);
        check_target(targets[i].as_str(), label.as_str(), problems);
        assert(names[i as int] == targets@[i as int]@);
        i = i + 1;
    }
}

/// Records the problems of a capability list.
fn check_capabilities(capabilities: &Vec<String>, problems: &mut Vec<ValidationProblem>)
    ensures
        problem_pairs(final(problems)@) == problem_pairs(old(problems)@)
            + capabilities_problems(string_views(capabilities@), capabilities@.len()),
{
    let ghost head = problem_pairs(problems@);
    let ghost names = string_views(capabilities@);
    let mut i: usize = 0;
    while i < capabilities.len()
        invariant
            names == string_views(capabilities@),
            i <= capabilities@.len(),
            problem_pairs(problems@) == head + capabilities_problems(names, i as nat),
        decreases capabilities.len() - i,
    {
        assert(names[i as int] == capabilities@[i as int]@);
        match Capability::parse(capabilities[i].as_str()) {
            Ok(_) => {},
            Err(error) => {
                let label = index_label("capabilities", i);
                let text = error.to_string();
                proof {
                    match error {
                        CapabilityError::Empty => {},
                        CapabilityError::InvalidSegment(segment) => {},
                    }
                }
                push_problem(problems, label.as_str(), text.as_str());
            },
        }
        assert(problem_pairs(problems@) =~= head + capabilities_problems(names, (i + 1) as nat));
        i = i + 1;
    }
}

/// A copy of each string.
fn copy_strings(items: &Vec<String>) -> (copy: Vec<String>)
    ensures
        string_views(copy@) == string_views(items@),
{
    let mut copy: Vec<String> = Vec::new();
    let mut i: usize = 0;
    while i < items.len()
        invariant
            i <= items@.len(),
            copy@.len() == i,
            forall|k: int| 0 <= k < i ==> (#[trigger] copy@[k])@ == items@[k]@,
        decreases items.len() - i,
    {
        copy.push(items[i].clone());
        i = i + 1;
    }
    assert(string_views(copy@) =~= string_views(items@));
    copy
}

impl Manifest {
    /// A copy of this manifest.
    pub fn duplicate(&self) -> (copy: Manifest)
        ensures
            copy@ == self@,
    {
        let mut dependencies: Vec<Dependency> = Vec::new();
        let mut i: usize = 0;
        while i < self.dependencies.len()
            invariant
                i <= self.dependencies@.len(),
                dependencies@.len() == i,
                forall|k: int| 0 <= k < i ==> (#[trigger] dependencies@[k])@ == self.dependencies@[k]@,
            decreases self.dependencies.len() - i,
        {
            dependencies.push(self.dependencies[i].duplicate());
            i = i + 1;
        }
        assert(dependency_views(dependencies@) =~= dependency_views(self.dependencies@));
        Manifest {
            name: self.name.duplicate(),
            version: self.version.clone(),
            entry: self.entry.clone(),
            dependencies,
            targets: copy_strings(&self.targets),
            capabilities: copy_strings(&self.capabilities),
        }
    }

    /// Returns the canonical package coordinate.
    pub fn coordinate(&self) -> (name: &PackageId)
        ensures
            name@ == self.name@,
    {
        &self.name
    }

    /// Records every problem of this manifest.
    #[verifier::spinoff_prover]
    #[verifier::rlimit(60)]
    fn validate_into(&self, problems: &mut Vec<ValidationProblem>)
        ensures
            problem_pairs(final(problems)@) == problem_pairs(old(problems)@) + manifest_problems(self@),
    {
        let ghost start = problem_pairs(problems@);
        check_version(self.version.as_str(), "version", problems, true);
        check_entry_path(self.entry.as_str(), "entry", true, problems);
        check_dependencies(&self.dependencies, problems);
        check_targets(&self.targets, problems);
        check_capabilities(&self.capabilities, problems);
        assert(problem_pairs(problems@) =~= start + manifest_problems(self@));
    }

    /// Validates all manifest invariants without changing ordering.
    pub fn validate(&self) -> (result: Result<(), ManifestError>)
        ensures
            match result {
                Ok(_) => manifest_problems(self@).len() == 0,
                Err(ManifestError::Invalid { problems }) => manifest_problems(self@).len() > 0
                    && problem_pairs(problems@) == manifest_problems(self@),
                Err(_) => false,
            },
    {
        let mut problems: Vec<ValidationProblem> = Vec::new();
        assert(problem_pairs(problems@) =~= Seq::<(Seq<char>, Seq<char>)>::empty());
        self.validate_into(&mut problems);
        assert(problem_pairs(problems@) =~= manifest_problems(self@));
        if problems.len() == 0 {
            Ok(())
        } else {
            Err(ManifestError::Invalid { problems })
        }
    }

    /// Creates a minimal manifest after validating its required fields.
    pub fn new(name: PackageId, version: &str, entry: &str) -> (result: Result<Manifest, ManifestError>)
        ensures
            ({
                let view = ManifestView {
                    name: name@,
                    version: version@,
                    entry: entry@,
                    dependencies: Seq::empty(),
                    targets: Seq::empty(),
                    capabilities: Seq::empty(),
                };
                match result {
                    Ok(manifest) => manifest@ == view && manifest_problems(view).len() == 0,
                    Err(ManifestError::Invalid { problems }) => manifest_problems(view).len() > 0
                        && problem_pairs(problems@) == manifest_problems(view),
                    Err(_) => false,
                }
            }),
    {
        let manifest = Manifest {
            name,
            version: String::from_str(version),
            entry: String::from_str(entry),
            dependencies: Vec::new(),
            targets: Vec::new(),
            capabilities: Vec::new(),
        };
        assert(manifest@.dependencies =~= Seq::<DependencyView>::empty());
        assert(manifest@.targets =~= Seq::<Seq<char>>::empty());
        assert(manifest@.capabilities =~= Seq::<Seq<char>>::empty());
        match manifest.validate() {
            Ok(()) => Ok(manifest),
            Err(error) => Err(error),
        }
    }

    /// Canonicalizes vectors and capabilities in place; an invalid manifest is left as it
    /// was.
    pub fn canonicalize(&mut self) -> (result: Result<(), ManifestError>)
        ensures
            match result {
                Ok(_) => manifest_problems(old(self)@).len() == 0 && canonical_manifest(final(self)@, old(self)@),
                Err(ManifestError::Invalid { problems }) => manifest_problems(old(self)@).len() > 0
                    && problem_pairs(problems@) == manifest_problems(old(self)@)
                    && final(self)@ == old(self)@,
                Err(_) => false,
            },
    {
        match self.validate() {
            Ok(()) => {},
            Err(error) => return Err(error),
        }
        let ghost before = self@;
        proof {
            let m = self@;
            let tail = capabilities_problems(m.capabilities, m.capabilities.len());
            assert(manifest_problems(m).len() >= tail.len());
            lemma_capabilities_parse(m.capabilities, m.capabilities.len());
            lemma_no_capability_error(m.capabilities);
        }
        let mut dependencies: Vec<Dependency> = Vec::new();
        std::mem::swap(&mut dependencies, &mut self.dependencies);
        self.dependencies = sort_dependencies(dependencies);
        self.targets = sorted_unique(&self.targets);
        match normalize_capabilities(self.capabilities.as_slice()) {
            Ok(capabilities) => {
                self.capabilities = capabilities;
                Ok(())
            },
            Err(error) => {
                let text = error.to_string();
                let mut problems: Vec<ValidationProblem> = Vec::new();
                problems.push(ValidationProblem::new("capabilities", text.as_str()));
                Err(ManifestError::Invalid { problems })
            },
        }
    }

    /// Returns a canonical copy of this manifest.
    pub fn canonicalized(self) -> (result: Result<Manifest, ManifestError>)
        ensures
            match result {
                Ok(manifest) => manifest_problems(self@).len() == 0 && canonical_manifest(manifest@, self@),
                Err(ManifestError::Invalid { problems }) => manifest_problems(self@).len() > 0
                    && problem_pairs(problems@) == manifest_problems(self@),
                Err(_) => false,
            },
    {
        let mut manifest = self;
        match manifest.canonicalize() {
            Ok(()) => Ok(manifest),
            Err(error) => Err(error),
        }
    }
}

} // verus!
