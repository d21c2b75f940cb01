//! Package sources and canonical `aipo.lock` models.
use vstd::prelude::*;

use crate::package::error::{problem_pairs, push_problem, LockfileError, ValidationProblem};
use crate::text::{chars_of, split, split_str, views};
use vstd::string::*;

verus! {

/// `[A-Za-z0-9]`.
pub open spec fn is_ascii_alnum(c: char) -> bool {
    ('0' <= c && c <= '9') || ('a' <= c && c <= 'z') || ('A' <= c && c <= 'Z')
}

/// `[A-Z]`.
pub open spec fn is_ascii_upper(c: char) -> bool {
    'A' <= c && c <= 'Z'
}

/// `[0-9a-f]`.
pub open spec fn is_lower_hex_char(c: char) -> bool {
    ('0' <= c && c <= '9') || ('a' <= c && c <= 'f')
}

/// A problem list with one entry.
pub open spec fn one(path: Seq<char>, message: Seq<char>) -> Seq<(Seq<char>, Seq<char>)> {
    seq![(path, message)]
}

/// A problem list with one entry when `cond` holds.
pub open spec fn problem_if(cond: bool, path: Seq<char>, message: Seq<char>) -> Seq<(Seq<char>, Seq<char>)> {
    if cond {
        seq![(path, message)]
    } else {
        Seq::empty()
    }
}

/// Whether a split holds an empty segment.
pub open spec fn has_empty_segment(segs: Seq<Seq<char>>) -> bool {
    exists|k: int| 0 <= k < segs.len() && (#[trigger] segs[k]).len() == 0
}

/// Whether a split holds the segment `seg`.
pub open spec fn has_segment(segs: Seq<Seq<char>>, seg: Seq<char>) -> bool {
    exists|k: int| 0 <= k < segs.len() && #[trigger] segs[k] == seg
}

/// A path starting with `/` or with a drive letter (`c:`).
pub open spec fn is_absolute_path(v: Seq<char>) -> bool {
    (v.len() > 0 && v[0] == '/') || (v.len() >= 2 && (v[0] as u32) < 128 && v[1] == ':')
}

/// Problems of a relative source path.
pub open spec fn source_path_problems(v: Seq<char>, p: Seq<char>) -> Seq<(Seq<char>, Seq<char>)> {
    if v.len() == 0 {
        one(p, "path is empty"@)
    } else {
        problem_if(crate::text::has_char(v, '\\'), p, "backslash separators are not portable"@)
            + problem_if(is_absolute_path(v), p, "absolute paths are not allowed"@)
            + problem_if(has_empty_segment(split(v, '/')), p, "path contains an empty segment"@)
    }
}

/// A GitHub owner or repository name.
pub open spec fn valid_repository_segment(seg: Seq<char>) -> bool {
    &&& seg.len() > 0
    &&& seg != "."@
    &&& seg != ".."@
    &&& is_ascii_alnum(seg[0])
    &&& forall|i: int| 0 <= i < seg.len() ==> !is_ascii_upper(#[trigger] seg[i])
    &&& forall|i: int| 0 <= i < seg.len() ==> (is_ascii_alnum(#[trigger] seg[i]) || seg[i] == '-' || seg[i] == '_' || seg[i] == '.')
}

/// A repository segment is valid exactly when it is neither empty nor `.` nor `..`, starts
/// with a lowercase letter or a digit, and is made of lowercase letters, digits, `-`, `_`
/// and `.` (so `aipo-lang`, `std_lib` and `x.y` are segments, `Aipo` and `a+b` are not).
pub proof fn law_repository_segment(seg: Seq<char>)
    ensures
        valid_repository_segment(seg) <==> {
            &&& seg.len() > 0
            &&& seg != "."@
            &&& seg != ".."@
            &&& (97 <= seg[0] as int <= 122 || 48 <= seg[0] as int <= 57)
            &&& forall|i: int| 0 <= i < seg.len() ==> (97 <= (#[trigger] seg[i]) as int <= 122 || 48 <= seg[i] as int <= 57
                || seg[i] as int == 45 || seg[i] as int == 95 || seg[i] as int == 46)
        },
{
}

/// Problems of a GitHub repository slug.
pub open spec fn repository_problems(v: Seq<char>, p: Seq<char>) -> Seq<(Seq<char>, Seq<char>)> {
    let segs = split(v, '/');
    if segs.len() != 2 {
        one(p, "GitHub repository must use owner/repository form"@)
    } else {
        problem_if(!valid_repository_segment(segs[0]), p + ".owner"@, "GitHub repository segment contains an invalid character"@)
            + problem_if(!valid_repository_segment(segs[1]), p + ".repository"@, "GitHub repository segment contains an invalid character"@)
    }
}

/// An exact lowercase 40-hex commit SHA.
pub open spec fn valid_revision(v: Seq<char>) -> bool {
    v.len() == 40 && forall|i: int| 0 <= i < v.len() ==> is_lower_hex_char(#[trigger] v[i])
}

/// A character allowed in a GitHub subpath.
pub open spec fn subpath_char_ok(c: char) -> bool {
    is_ascii_alnum(c) || c == '-' || c == '_' || c == '.' || c == '/'
}

/// Problems of a GitHub subpath.
pub open spec fn subpath_problems(v: Seq<char>, p: Seq<char>) -> Seq<(Seq<char>, Seq<char>)> {
    source_path_problems(v, p)
        + problem_if(has_segment(split(v, '/'), ".."@), p, "GitHub subpath cannot contain parent traversal"@)
        + problem_if(exists|i: int| 0 <= i < v.len() && !subpath_char_ok(#[trigger] v[i]), p, "GitHub subpath contains an unsupported character"@)
}

/// The source of a package dependency or locked package.
#[derive(Debug, Clone)]
pub enum PackageSource {
    /// A package resolved from a relative local directory.
    Path {
        /// Relative path from the package declaring the dependency.
        path: String,
    },
    /// A package resolved from an exact GitHub commit.
    GitHub {
        /// GitHub repository slug in `owner/repository` form.
        repository: String,
        /// Exact lowercase 40-character commit SHA.
        revision: String,
        /// Relative package directory inside the repository.
        subpath: String,
    },
}

/// Alias emphasizing that the source is a lockfile source.
pub type LockSource = PackageSource;

/// The value reading of a source.
pub ghost enum SourceView {
    /// A local path.
    Path(Seq<char>),
    /// A pinned GitHub directory: repository, revision, subpath.
    GitHub(Seq<char>, Seq<char>, Seq<char>),
}

impl View for PackageSource {
    type V = SourceView;

    open spec fn view(&self) -> SourceView {
        match self {
            PackageSource::Path { path } => SourceView::Path(path@),
            PackageSource::GitHub { repository, revision, subpath } => SourceView::GitHub(repository@, revision@, subpath@),
        }
    }
}

impl PartialEq for PackageSource {
    fn eq(&self, other: &Self) -> (same: bool) {
        match self {
            PackageSource::Path { path: a } => match other {
                PackageSource::Path { path: b } => *a == *b,
                PackageSource::GitHub { .. } => false,
            },
            PackageSource::GitHub { repository: r1, revision: v1, subpath: s1 } => match other {
                PackageSource::Path { .. } => false,
                PackageSource::GitHub { repository: r2, revision: v2, subpath: s2 } => {
                    let same_repository = *r1 == *r2;
                    let same_revision = *v1 == *v2;
                    let same_subpath = *s1 == *s2;
                    same_repository && same_revision && same_subpath
                },
            },
        }
    }
}

impl vstd::std_specs::cmp::PartialEqSpecImpl for PackageSource {
    open spec fn obeys_eq_spec() -> bool {
        true
    }

    open spec fn eq_spec(&self, other: &Self) -> bool {
        self@ == other@
    }
}

impl Eq for PackageSource {
}

/// Problems of a source, under `prefix`.
pub open spec fn source_problems(source: SourceView, prefix: Seq<char>) -> Seq<(Seq<char>, Seq<char>)> {
    match source {
        SourceView::Path(path) => source_path_problems(path, prefix + ".path"@),
        SourceView::GitHub(repository, revision, subpath) => repository_problems(repository, prefix + ".repository"@)
            + problem_if(!valid_revision(revision), prefix + ".revision"@, "GitHub revision must be an exact lowercase 40-hex commit SHA"@)
            + subpath_problems(subpath, prefix + ".subpath"@),
    }
}

/// The stable label of a source.
pub open spec fn source_location(source: SourceView) -> Seq<char> {
    match source {
        SourceView::Path(path) => path,
        SourceView::GitHub(repository, revision, subpath) => "github:"@ + repository + "@"@ + revision + "/"@ + subpath,
    }
}

/// `prefix` followed by `suffix`.
pub fn join_path(prefix: &str, suffix: &str) -> (text: String)
    ensures
        text@ == prefix@ + suffix@,
{
    String::from_str(prefix).concat(suffix)
}

pub(crate) fn any_empty_segment(segments: &Vec<&str>) -> (found: bool)
    ensures
        found == has_empty_segment(views(segments@)),
{
    let mut k: usize = 0;
    while k < segments.len()
        invariant
            k <= segments@.len(),
            forall|j: int| 0 <= j < k ==> (#[trigger] views(segments@)[j]).len() != 0,
        decreases segments.len() - k,
    {
        if segments[k].is_empty() {
            assert(views(segments@)[k as int].len() == 0);
            return true;
        }
        k = k + 1;
    }
    false
}

/// Whether a text equals `..`.
pub(crate) fn is_dot_dot(s: &str) -> (found: bool)
    ensures
        found == (s@ == ".."@),
{
    proof {
        reveal_strlit("..");
    }
    let chars = chars_of(s);
    chars.len() == 2 && chars[0] == '.' && chars[1] == '.' && {
        assert(s@ =~= ".."@);
        true
    }
}

/// Whether a text equals `.`.
pub(crate) fn is_dot(s: &str) -> (found: bool)
    ensures
        found == (s@ == "."@),
{
    proof {
        reveal_strlit(".");
    }
    let chars = chars_of(s);
    chars.len() == 1 && chars[0] == '.' && {
        assert(s@ =~= "."@);
        true
    }
}

fn any_dot_dot_segment(segments: &Vec<&str>) -> (found: bool)
    ensures
        found == has_segment(views(segments@), ".."@),
{
    let mut k: usize = 0;
    while k < segments.len()
        invariant
            k <= segments@.len(),
            forall|j: int| 0 <= j < k ==> #[trigger] views(segments@)[j] != ".."@,
        decreases segments.len() - k,
    {
        if is_dot_dot(segments[k]) {
            assert(views(segments@)[k as int] == ".."@);
            return true;
        }
        k = k + 1;
    }
    false
}

pub(crate) fn starts_absolute(chars: &Vec<char>) -> (found: bool)
    ensures
        found == is_absolute_path(chars@),
{
    (chars.len() > 0 && chars[0] == '/') || (chars.len() >= 2 && (chars[0] as u32) < 128 && chars[1] == ':')
}

pub(crate) fn has_backslash(chars: &Vec<char>) -> (found: bool)
    ensures
        found == crate::text::has_char(chars@, '\\'),
{
    let mut i: usize = 0;
    while i < chars.len()
        invariant
            i <= chars@.len(),
            forall|j: int| 0 <= j < i ==> chars@[j] != '\\',
        decreases chars.len() - i,
    {
        if chars[i] == '\\' {
            return true;
        }
        i = i + 1;
    }
    false
}

/// Records the problems of a relative source path.
fn check_source_path(value: &str, path: &str, problems: &mut Vec<ValidationProblem>)
    ensures
        problem_pairs(final(problems)@) == problem_pairs(old(problems)@) + source_path_problems(value@, path@),
{
    if value.is_empty() {
        push_problem(problems, path, "path is empty");
        return;
    }
    let chars = chars_of(value);
    let ghost start = problem_pairs(problems@);
    if has_backslash(&chars) {
        push_problem(problems, path, "backslash separators are not portable");
    }
    let ghost mid1 = problem_pairs(problems@);
    if starts_absolute(&chars) {
        push_problem(problems, path, "absolute paths are not allowed");
    }
    let ghost mid2 = problem_pairs(problems@);
    let segments = split_str(value, '/');
    if any_empty_segment(&segments) {
        push_problem(problems, path, "path contains an empty segment");
    }
    proof {
        reveal_strlit("path contains an empty segment");
        assert(problem_pairs(problems@) =~= start + source_path_problems(value@, path@));
    }
}

fn repository_segment_ok(seg: &str) -> (ok: bool)
    ensures
        ok == valid_repository_segment(seg@),
{
    let chars = chars_of(seg);
    if chars.len() == 0 || is_dot(seg) || is_dot_dot(seg) {
        return false;
    }
    let first = chars[0];
    if !((first >= '0' && first <= '9') || (first >= 'a' && first <= 'z') || (first >= 'A' && first <= 'Z')) {
        return false;
    }
    let mut i: usize = 0;
    while i < chars.len()
        invariant
            chars@ == seg@,
            i <= chars@.len(),
            forall|j: int| 0 <= j < i ==> !is_ascii_upper(#[trigger] chars@[j]),
            forall|j: int| 0 <= j < i ==> (is_ascii_alnum(#[trigger] chars@[j]) || chars@[j] == '-' || chars@[j] == '_' || chars@[j] == '.'),
        decreases chars.len() - i,
    {
        let c = chars[i];
        if c >= 'A' && c <= 'Z' {
            return false;
        }
        if !((c >= '0' && c <= '9') || (c >= 'a' && c <= 'z') || c == '-' || c == '_' || c == '.') {
            return false;
        }
        i = i + 1;
    }
    true
}

fn check_repository(value: &str, path: &str, problems: &mut Vec<ValidationProblem>)
    ensures
        problem_pairs(final(problems)@) == problem_pairs(old(problems)@) + repository_problems(value@, path@),
{
    let segments = split_str(value, '/');
    let ghost start = problem_pairs(problems@);
    if segments.len() != 2 {
        push_problem(problems, path, "GitHub repository must use owner/repository form");
        return;
    }
    assert(views(segments@)[0] == segments@[0]@);
    assert(views(segments@)[1] == segments@[1]@);
    if !repository_segment_ok(segments[0]) {
        let label = join_path(path, ".owner");
        push_problem(problems, label.as_str(), "GitHub repository segment contains an invalid character");
    }
    if !repository_segment_ok(segments[1]) {
        let label = join_path(path, ".repository");
        push_problem(problems, label.as_str(), "GitHub repository segment contains an invalid character");
    }
    assert(problem_pairs(problems@) =~= start + repository_problems(value@, path@));
}

fn check_revision(value: &str, path: &str, problems: &mut Vec<ValidationProblem>)
    ensures
        problem_pairs(final(problems)@) == problem_pairs(old(problems)@) + problem_if(!valid_revision(value@), path@, "GitHub revision must be an exact lowercase 40-hex commit SHA"@),
{
    let chars = chars_of(value);
    let mut ok = chars.len() == 40;
    let mut i: usize = 0;
    while ok && i < chars.len()
        invariant
            chars@ == value@,
            i <= chars@.len(),
            ok ==> chars@.len() == 40,
            ok ==> forall|j: int| 0 <= j < i ==> is_lower_hex_char(#[trigger] chars@[j]),
            !ok ==> !valid_revision(value@),
        decreases chars.len() - i,
    {
        let c = chars[i];
        if !((c >= '0' && c <= '9') || (c >= 'a' && c <= 'f')) {
            ok = false;
        }
        i = i + 1;
    }
    let ghost start = problem_pairs(problems@);
    if !ok {
        push_problem(problems, path, "GitHub revision must be an exact lowercase 40-hex commit SHA");
    }
    assert(problem_pairs(problems@) =~= start + problem_if(!valid_revision(value@), path@, "GitHub revision must be an exact lowercase 40-hex commit SHA"@));
}

fn check_subpath(value: &str, path: &str, problems: &mut Vec<ValidationProblem>)
    ensures
        problem_pairs(final(problems)@) == problem_pairs(old(problems)@) + subpath_problems(value@, path@),
{
    let ghost start = problem_pairs(problems@);
    check_source_path(value, path, problems);
    let ghost mid = problem_pairs(problems@);
    let segments = split_str(value, '/');
    if any_dot_dot_segment(&segments) {
        push_problem(problems, path, "GitHub subpath cannot contain parent traversal");
    }
    let chars = chars_of(value);
    let mut bad = false;
    let mut i: usize = 0;
    while i < chars.len()
        invariant
            chars@ == value@,
            i <= chars@.len(),
            bad == exists|j: int| 0 <= j < i && !subpath_char_ok(#[trigger] chars@[j]),
        decreases chars.len() - i,
    {
        let c = chars[i];
        if !((c >= '0' && c <= '9') || (c >= 'a' && c <= 'z') || (c >= 'A' && c <= 'Z') || c == '-' || c == '_' || c == '.' || c == '/') {
            bad = true;
        }
        i = i + 1;
    }
    if bad {
        push_problem(problems, path, "GitHub subpath contains an unsupported character");
    }
    assert(problem_pairs(problems@) =~= start + subpath_problems(value@, path@));
}

impl PackageSource {
    /// Records the problems of this source under `prefix`.
    pub fn validate_at(&self, prefix: &str, problems: &mut Vec<ValidationProblem>)
        ensures
            problem_pairs(final(problems)@) == problem_pairs(old(problems)@) + source_problems(self@, prefix@),
    {
        let ghost start = problem_pairs(problems@);
        match self {
            PackageSource::Path { path } => {
                let label = join_path(prefix, ".path");
                check_source_path(path.as_str(), label.as_str(), problems);
            },
            PackageSource::GitHub { repository, revision, subpath } => {
                let label = join_path(prefix, ".repository");
                check_repository(repository.as_str(), label.as_str(), problems);
                let label = join_path(prefix, ".revision");
                check_revision(revision.as_str(), label.as_str(), problems);
                let label = join_path(prefix, ".subpath");
                check_subpath(subpath.as_str(), label.as_str(), problems);
                assert(problem_pairs(problems@) =~= start + source_problems(self@, prefix@));
            },
        }
    }

    /// Validates this source.
    pub fn validate(&self) -> (result: Result<(), LockfileError>)
        ensures
            match result {
                Ok(_) => source_problems(self@, "source"@).len() == 0,
                Err(LockfileError::Invalid { problems }) => source_problems(self@, "source"@).len() > 0
                    && problem_pairs(problems@) == source_problems(self@, "source"@),
                Err(_) => false,
            },
    {
        let mut problems: Vec<ValidationProblem> = Vec::new();
        assert(problem_pairs(problems@) =~= Seq::<(Seq<char>, Seq<char>)>::empty());
        self.validate_at("source", &mut problems);
        assert(problem_pairs(problems@) =~= source_problems(self@, "source"@));
        if problems.len() == 0 {
            Ok(())
        } else {
            Err(LockfileError::Invalid { problems })
        }
    }

    /// Creates a validated local path source.
    pub fn path(path: &str) -> (result: Result<PackageSource, LockfileError>)
        ensures
            match result {
                Ok(source) => source@ == SourceView::Path(path@) && source_problems(source@, "source"@).len() == 0,
                Err(LockfileError::Invalid { problems }) => source_problems(SourceView::Path(path@), "source"@).len() > 0
                    && problem_pairs(problems@) == source_problems(SourceView::Path(path@), "source"@),
                Err(_) => false,
            },
    {
        let source = PackageSource::Path { path: String::from_str(path) };
        match source.validate() {
            Ok(()) => Ok(source),
            Err(error) => Err(error),
        }
    }

    /// Creates a validated GitHub source at the repository root.
    pub fn github(repository: &str, revision: &str) -> (result: Result<PackageSource, LockfileError>)
        ensures
            match result {
                Ok(source) => source@ == SourceView::GitHub(repository@, revision@, "."@)
                    && source_problems(source@, "source"@).len() == 0,
                Err(LockfileError::Invalid { problems }) => source_problems(SourceView::GitHub(repository@, revision@, "."@), "source"@).len() > 0
                    && problem_pairs(problems@) == source_problems(SourceView::GitHub(repository@, revision@, "."@), "source"@),
                Err(_) => false,
            },
    {
        PackageSource::github_at(repository, revision, ".")
    }

    /// Creates a validated GitHub source at a repository subpath.
    pub fn github_at(repository: &str, revision: &str, subpath: &str) -> (result: Result<PackageSource, LockfileError>)
        ensures
            match result {
                Ok(source) => source@ == SourceView::GitHub(repository@, revision@, subpath@)
                    && source_problems(source@, "source"@).len() == 0,
                Err(LockfileError::Invalid { problems }) => source_problems(SourceView::GitHub(repository@, revision@, subpath@), "source"@).len() > 0
                    && problem_pairs(problems@) == source_problems(SourceView::GitHub(repository@, revision@, subpath@), "source"@),
                Err(_) => false,
            },
    {
        let source = PackageSource::GitHub {
            repository: String::from_str(repository),
            revision: String::from_str(revision),
            subpath: String::from_str(subpath),
        };
        match source.validate() {
            Ok(()) => Ok(source),
            Err(error) => Err(error),
        }
    }

    /// Returns a stable source label for diagnostics and duplicate-source errors.
    pub fn location(&self) -> (label: String)
        ensures
            label@ == source_location(self@),
    {
        match self {
            PackageSource::Path { path } => path.clone(),
            PackageSource::GitHub { repository, revision, subpath } => {
                let text = String::from_str("github:").concat(repository.as_str());
                let text = text.concat("@").concat(revision.as_str());
                text.concat("/").concat(subpath.as_str())
            },
        }
    }

    /// Returns the GitHub identity when this source is remote.
    pub fn github_source(&self) -> (identity: Option<GitHubSource>)
        ensures
            match (self@, identity) {
                (SourceView::Path(_), None) => true,
                (SourceView::GitHub(r, v, s), Some(g)) => g.repository@ == r && g.revision@ == v && g.subpath@ == s,
                _ => false,
            },
    {
        match self {
            PackageSource::Path { .. } => None,
            PackageSource::GitHub { repository, revision, subpath } => Some(GitHubSource {
                repository: repository.clone(),
                revision: revision.clone(),
                subpath: subpath.clone(),
            }),
        }
    }

    /// A copy of this source.
    pub fn duplicate(&self) -> (copy: PackageSource)
        ensures
            copy@ == self@,
    {
        match self {
            PackageSource::Path { path } => PackageSource::Path { path: path.clone() },
            PackageSource::GitHub { repository, revision, subpath } => PackageSource::GitHub {
                repository: repository.clone(),
                revision: revision.clone(),
                subpath: subpath.clone(),
            },
        }
    }
}

/// Canonical identity of a package fetched from a GitHub repository.
#[derive(Debug, Clone, PartialEq, Eq, Hash)]
pub struct GitHubSource {
    /// GitHub repository slug in `owner/repository` form.
    pub repository: String,
    /// Exact lowercase 40-character commit SHA.
    pub revision: String,
    /// Relative package directory inside the repository.
    pub subpath: String,
}

impl GitHubSource {
    /// Returns a stable source label without exposing a network URL.
    pub fn label(&self) -> (label: String)
        ensures
            label@ == "github:"@ + self.repository@ + "@"@ + self.revision@ + "/"@ + self.subpath@,
    {
        let text = String::from_str("github:").concat(self.repository.as_str());
        let text = text.concat("@").concat(self.revision.as_str());
        text.concat("/").concat(self.subpath.as_str())
    }
}

} // verus!

verus! {

use crate::host::capability::lex_lt;
use crate::package::capabilities::{first_capability_error, lemma_normal_unique, normalize_capabilities, normalizes};
use crate::package::coordinate::PackageId;
use crate::package::digest::ContentDigest;
use crate::host::capability::capability_kind_text;
use crate::package::manifest::{check_target, check_version, index_label, indexed, target_problems, version_problems};
use crate::package::order::{lemma_sorted_unique, occurs, sorted_unique, strictly_sorted, text_less, texts_equal};
use crate::text::string_views;

/// One exact SemVer package resolution stored in `aipo.lock`.
#[derive(Debug)]
pub struct LockedPackage {
    /// Canonical package coordinate.
    pub coordinate: PackageId,
    /// Exact resolved SemVer version.
    pub version: String,
    /// Resolved source.
    pub source: PackageSource,
    /// SHA-256 digest of canonical manifest and entry content.
    pub digest: ContentDigest,
    /// Canonical coordinates of direct dependencies.
    pub dependencies: Vec<PackageId>,
    /// Normalized declared capabilities.
    pub capabilities: Vec<String>,
    /// Normalized compilation targets declared by the package.
    pub targets: Vec<String>,
}

/// The value reading of a locked package.
pub ghost struct LockedView {
    /// Coordinate text.
    pub coordinate: Seq<char>,
    /// Version text.
    pub version: Seq<char>,
    /// Source.
    pub source: SourceView,
    /// Digest text.
    pub digest: Seq<char>,
    /// Dependency coordinates, in stored order.
    pub dependencies: Seq<Seq<char>>,
    /// Capabilities, in stored order.
    pub capabilities: Seq<Seq<char>>,
    /// Targets, in stored order.
    pub targets: Seq<Seq<char>>,
}

/// The texts of a list of coordinates.
pub open spec fn id_views(ids: Seq<PackageId>) -> Seq<Seq<char>> {
    ids.map_values(|id: PackageId| id@)
}

impl View for LockedPackage {
    type V = LockedView;

    open spec fn view(&self) -> LockedView {
        LockedView {
            coordinate: self.coordinate@,
            version: self.version@,
            source: self.source@,
            digest: self.digest@,
            dependencies: id_views(self.dependencies@),
            capabilities: string_views(self.capabilities@),
            targets: string_views(self.targets@),
        }
    }
}

/// No text orders before the one preceding it.
pub open spec fn nondecreasing(s: Seq<Seq<char>>) -> bool {
    forall|i: int| 0 <= i < s.len() - 1 ==> !lex_lt(#[trigger] s[i + 1], s[i])
}

/// Problems of the first `n` dependency entries of a package with coordinate `own`.
pub open spec fn dependency_entries_problems(deps: Seq<Seq<char>>, own: Seq<char>, prefix: Seq<char>, n: nat) -> Seq<(Seq<char>, Seq<char>)>
    decreases n,
{
    if n == 0 {
        Seq::empty()
    } else {
        let i = (n - 1) as nat;
        let label = indexed(prefix + ".dependencies"@, i);
        dependency_entries_problems(deps, own, prefix, i)
            + problem_if(exists|j: int| 0 <= j < i && #[trigger] deps[j] == deps[i as int], label, "dependency is recorded more than once"@)
            + problem_if(deps[i as int] == own, label, "package cannot depend on itself"@)
    }
}

/// Problems of the first `n` targets of a package.
pub open spec fn locked_targets_problems(targets: Seq<Seq<char>>, prefix: Seq<char>, n: nat) -> Seq<(Seq<char>, Seq<char>)>
    decreases n,
{
    if n == 0 {
        Seq::empty()
    } else {
        let i = (n - 1) as nat;
        locked_targets_problems(targets, prefix, i) + target_problems(targets[i as int], indexed(prefix + ".targets"@, i))
    }
}

/// Problems of a capability list; with `require_order` it must already be in normal form.
pub open spec fn locked_capabilities_problems(caps: Seq<Seq<char>>, prefix: Seq<char>, require_order: bool) -> Seq<(Seq<char>, Seq<char>)> {
    match first_capability_error(caps) {
        Some(kind) => one(prefix + ".capabilities"@, capability_kind_text(kind)),
        None => problem_if(require_order && !normalizes(caps, caps), prefix + ".capabilities"@,
            "capabilities are not in normalized canonical order"@),
    }
}

/// Problems of one locked package under `prefix`; with `require_order` its lists must be
/// in canonical order.
pub open spec fn locked_problems(p: LockedView, prefix: Seq<char>, require_order: bool) -> Seq<(Seq<char>, Seq<char>)> {
    version_problems(p.version, prefix + ".version"@, true)
        + source_problems(p.source, prefix + ".source"@)
        + dependency_entries_problems(p.dependencies, p.coordinate, prefix, p.dependencies.len())
        + problem_if(require_order && !nondecreasing(p.dependencies), prefix + ".dependencies"@,
            "dependencies are not in canonical order"@)
        + locked_capabilities_problems(p.capabilities, prefix, require_order)
        + problem_if(require_order && !strictly_sorted(p.targets), prefix + ".targets"@,
            "targets are not in normalized canonical order"@)
        + locked_targets_problems(p.targets, prefix, p.targets.len())
}

/// Appending seven lists one after another appends their concatenation.
pub proof fn lemma_chain_concat<T>(
    s0: Seq<T>,
    s1: Seq<T>,
    s2: Seq<T>,
    s3: Seq<T>,
    s4: Seq<T>,
    s5: Seq<T>,
    s6: Seq<T>,
    s7: Seq<T>,
    a: Seq<T>,
    b: Seq<T>,
    c: Seq<T>,
    d: Seq<T>,
    e: Seq<T>,
    f: Seq<T>,
    g: Seq<T>,
)
    requires
        s1 == s0 + a,
        s2 == s1 + b,
        s3 == s2 + c,
        s4 == s3 + d,
        s5 == s4 + e,
        s6 == s5 + f,
        s7 == s6 + g,
    ensures
        s7 == s0 + (a + b + c + d + e + f + g),
{
    assert(s7 =~= s0 + (a + b + c + d + e + f + g));
}

/// Whether a list of texts never decreases.
fn texts_nondecreasing(ids: &Vec<PackageId>) -> (ok: bool)
    ensures
        ok == nondecreasing(id_views(ids@)),
{
    let ghost s = id_views(ids@);
    if ids.len() < 2 {
        return true;
    }
    let mut i: usize = 0;
    while i + 1 < ids.len()
        invariant
            s == id_views(ids@),
            ids@.len() >= 2,
            i + 1 <= ids@.len(),
            forall|j: int| 0 <= j < i ==> !lex_lt(#[trigger] s[j + 1], s[j]),
        decreases ids.len() - i,
    {
        if text_less(ids[i + 1].as_str(), ids[i].as_str()) {
            assert(s[i + 1] == ids@[i + 1]@ && s[i as int] == ids@[i as int]@);
            return false;
        }
        i = i + 1;
    }
    true
}

impl LockedPackage {
    /// Returns the canonical package coordinate.
    pub fn coordinate(&self) -> (coordinate: &PackageId)
        ensures
            coordinate@ == self.coordinate@,
    {
        &self.coordinate
    }

    /// Creates a locked package record without targets.
    pub fn new(
        coordinate: PackageId,
        version: &str,
        source: PackageSource,
        digest: ContentDigest,
        dependencies: Vec<PackageId>,
        capabilities: Vec<String>,
    ) -> (package: LockedPackage)
        ensures
            package@ == (LockedView {
                coordinate: coordinate@,
                version: version@,
                source: source@,
                digest: digest@,
                dependencies: id_views(dependencies@),
                capabilities: string_views(capabilities@),
                targets: Seq::empty(),
            }),
    {
        let package = LockedPackage {
            coordinate,
            version: String::from_str(version),
            source,
            digest,
            dependencies,
            capabilities,
            targets: Vec::new(),
        };
        assert(package@.targets =~= Seq::<Seq<char>>::empty());
        package
    }

    /// Adds compilation targets to this locked package.
    pub fn with_targets(self, targets: Vec<String>) -> (package: LockedPackage)
        ensures
            package@ == (LockedView { targets: string_views(targets@), ..self@ }),
    {
        LockedPackage { targets, ..self }
    }

    /// Records the problems of this package under `prefix`.
    pub(crate) fn validate_at(&self, prefix: &str, require_order: bool, problems: &mut Vec<ValidationProblem>)
        ensures
            problem_pairs(final(problems)@) == problem_pairs(old(problems)@) + locked_problems(self@, prefix@, require_order),
    {
        let ghost p = self@;
        let ghost s0 = problem_pairs(problems@);
        let label = join_path(prefix, ".version");
        check_version(self.version.as_str(), label.as_str(), problems, true);
        let ghost s1 = problem_pairs(problems@);
        let label = join_path(prefix, ".source");
        self.source.validate_at(label.as_str(), problems);
        let ghost s2 = problem_pairs(problems@);
        self.check_dependency_entries(prefix, problems);
        let ghost s3 = problem_pairs(problems@);
        self.check_dependency_order(prefix, require_order, problems);
        let ghost s4 = problem_pairs(problems@);
        self.check_capability_order(prefix, require_order, problems);
        let ghost s5 = problem_pairs(problems@);
        self.check_target_order(prefix, require_order, problems);
        let ghost s6 = problem_pairs(problems@);
        self.check_targets(prefix, problems);
        proof {
            lemma_chain_concat(
                s0,
                s1,
                s2,
                s3,
                s4,
                s5,
                s6,
                problem_pairs(problems@),
                version_problems(p.version, prefix@ + ".version"@, true),
                source_problems(p.source, prefix@ + ".source"@),
                dependency_entries_problems(p.dependencies, p.coordinate, prefix@, p.dependencies.len()),
                problem_if(require_order && !nondecreasing(p.dependencies), prefix@ + ".dependencies"@,
                    "dependencies are not in canonical order"@),
                locked_capabilities_problems(p.capabilities, prefix@, require_order),
                problem_if(require_order && !strictly_sorted(p.targets), prefix@ + ".targets"@,
                    "targets are not in normalized canonical order"@),
                locked_targets_problems(p.targets, prefix@, p.targets.len()),
            );
        }
    }

    /// With `require_order`, records dependencies that are not in order.
    fn check_dependency_order(&self, prefix: &str, require_order: bool, problems: &mut Vec<ValidationProblem>)
        ensures
            problem_pairs(final(problems)@) == problem_pairs(old(problems)@)
                + problem_if(require_order && !nondecreasing(self@.dependencies), prefix@ + ".dependencies"@,
                    "dependencies are not in canonical order"@),
    {
        let ghost start = problem_pairs(problems@);
        if require_order && !texts_nondecreasing(&self.dependencies) {
            let label = join_path(prefix, ".dependencies");
            push_problem(problems, label.as_str(), "dependencies are not in canonical order");
        }
        assert(problem_pairs(problems@) =~= start + problem_if(require_order && !nondecreasing(self@.dependencies),
            prefix@ + ".dependencies"@, "dependencies are not in canonical order"@));
    }

    /// Records a capability list that does not parse, or with `require_order` one that is
    /// not in normal form.
    fn check_capability_order(&self, prefix: &str, require_order: bool, problems: &mut Vec<ValidationProblem>)
        ensures
            problem_pairs(final(problems)@) == problem_pairs(old(problems)@)
                + locked_capabilities_problems(self@.capabilities, prefix@, require_order),
    {
        let ghost start = problem_pairs(problems@);
        let ghost caps = self@.capabilities;
        let label = join_path(prefix, ".capabilities");
        match normalize_capabilities(self.capabilities.as_slice()) {
            Ok(normalized) => {
                let same = texts_equal(&normalized, &self.capabilities);
                proof {
                    if normalizes(caps, caps) {
                        lemma_normal_unique(string_views(normalized@), caps, caps);
                    }
                }
                if require_order && !same {
                    push_problem(problems, label.as_str(), "capabilities are not in normalized canonical order");
                }
            },
            Err(error) => {
                let text = error.to_string();
                proof {
                    match error {
                        crate::host::capability::CapabilityError::Empty => {},
                        crate::host::capability::CapabilityError::InvalidSegment(segment) => {},
                    }
                }
                push_problem(problems, label.as_str(), text.as_str());
            },
        }
        assert(problem_pairs(problems@) =~= start + locked_capabilities_problems(caps, prefix@, require_order));
    }

    /// With `require_order`, records targets that are not distinct and increasing.
    fn check_target_order(&self, prefix: &str, require_order: bool, problems: &mut Vec<ValidationProblem>)
        ensures
            problem_pairs(final(problems)@) == problem_pairs(old(problems)@)
                + problem_if(require_order && !strictly_sorted(self@.targets), prefix@ + ".targets"@,
                    "targets are not in normalized canonical order"@),
    {
        let ghost start = problem_pairs(problems@);
        let ordered = sorted_unique(&self.targets);
        let same = texts_equal(&ordered, &self.targets);
        proof {
            if strictly_sorted(self@.targets) {
                lemma_sorted_unique(string_views(ordered@), self@.targets);
            }
        }
        if require_order && !same {
            let label = join_path(prefix, ".targets");
            push_problem(problems, label.as_str(), "targets are not in normalized canonical order");
        }
        assert(problem_pairs(problems@) =~= start + problem_if(require_order && !strictly_sorted(self@.targets),
            prefix@ + ".targets"@, "targets are not in normalized canonical order"@));
    }

    /// Records duplicate and self dependency entries.
    fn check_dependency_entries(&self, prefix: &str, problems: &mut Vec<ValidationProblem>)
        ensures
            problem_pairs(final(problems)@) == problem_pairs(old(problems)@)
                + dependency_entries_problems(self@.dependencies, self@.coordinate, prefix@, self@.dependencies.len()),
    {
        let ghost head = problem_pairs(problems@);
        let ghost deps = self@.dependencies;
        let list = join_path(prefix, ".dependencies");
        let mut i: usize = 0;
        while i < self.dependencies.len()
            invariant
                deps == self@.dependencies,
                list@ == prefix@ + ".dependencies"@,
                i <= deps.len(),
                problem_pairs(problems@) == head + dependency_entries_problems(deps, self@.coordinate, prefix@, i as nat),
            decreases self.dependencies.len() - i,
        {
            let label = index_label(list.as_str(), i);
            let mut repeated = false;
            let mut j: usize = 0;
            while j < i
                invariant
                    deps == self@.dependencies,
                    i < deps.len(),
                    j <= i,
                    repeated == exists|k: int| 0 <= k < j && #[trigger] deps[k] == deps[i as int],
                decreases i - j,
            {
                let same = self.dependencies[j] == self.dependencies[i];
                assert(same == (deps[j as int] == deps[i as int]));
                if same {
                    repeated = true;
                }
                j = j + 1;
            }
            if repeated {
                push_problem(problems, label.as_str(), "dependency is recorded more than once");
            }
            if self.dependencies[i] == self.coordinate {
                push_problem(problems, label.as_str(), "package cannot depend on itself");
            }
            assert(deps[i as int] == self.dependencies@[i as int]@);
            i = i + 1;
        }
    }

    /// Records the problems of each target.
    fn check_targets(&self, prefix: &str, problems: &mut Vec<ValidationProblem>)
        ensures
            problem_pairs(final(problems)@) == problem_pairs(old(problems)@)
                + locked_targets_problems(self@.targets, prefix@, self@.targets.len()),
    {
        let ghost head = problem_pairs(problems@);
        let ghost names = self@.targets;
        let list = join_path(prefix, ".targets");
        let mut i: usize = 0;
        while i < self.targets.len()
            invariant
                names == self@.targets,
                list@ == prefix@ + ".targets"@,
                i <= names.len(),
                problem_pairs(problems@) == head + locked_targets_problems(names, prefix@, i as nat),
            decreases self.targets.len() - i,
        {
            let label = index_label(list.as_str(), i);
            check_target(self.targets[i].as_str(), label.as_str(), problems);
            assert(names[i as int] == self.targets@[i as int]@);
            i = i + 1;
        }
    }

    /// Validates this record in isolation, excluding graph membership checks.
    pub fn validate(&self) -> (result: Result<(), LockfileError>)
        ensures
            match result {
                Ok(_) => locked_problems(self@, "package"@, true).len() == 0,
                Err(LockfileError::Invalid { problems }) => locked_problems(self@, "package"@, true).len() > 0
                    && problem_pairs(problems@) == locked_problems(self@, "package"@, true),
                Err(_) => false,
            },
    {
        let mut problems: Vec<ValidationProblem> = Vec::new();
        assert(problem_pairs(problems@) =~= Seq::<(Seq<char>, Seq<char>)>::empty());
        self.validate_at("package", true, &mut problems);
        assert(problem_pairs(problems@) =~= locked_problems(self@, "package"@, true));
        if problems.len() == 0 {
            Ok(())
        } else {
            Err(LockfileError::Invalid { problems })
        }
    }
}

} // verus!
