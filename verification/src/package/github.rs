//! Pinned GitHub sources: fetched artifacts, an in-memory store, and the breadth-first
//! resolution of a remote package graph.
//!
//! The transport is a seam: anything that implements [`GitHubFetcher`] supplies the bytes
//! of one exact source. Remote packages may declare only pinned GitHub dependencies.
use vstd::prelude::*;

use crate::package::error::{
    lockfile_error_text, manifest_error_text, resolve_error_text, LockfileError, ManifestError, ResolveError,
};
use crate::package::lock::{source_location, source_problems, GitHubSource, PackageSource, SourceView};
use crate::package::order::text_equal;
use crate::host::capability::{lemma_lex_irreflexive, lemma_lex_total, lemma_lex_transitive, lex_lt};
use crate::package::coordinate::PackageId;
use crate::package::manifest::{invalid_source_text, opt_view, DependencyView, Manifest};
use crate::package::order::{lemma_insert_sorted, strictly_sorted};
use crate::text::string_views;
use crate::package::resolver::{input_views, resolve_outcome, resolve_package_inputs, InputView, PackageInput, ResolvedPackageGraph};
use crate::text::{decimal, decimal_string};
use vstd::string::*;

verus! {

/// Raw bytes fetched for one GitHub package directory.
#[derive(Debug)]
pub struct GitHubArtifact {
    /// Canonical `aipo.toml` bytes.
    pub manifest: Vec<u8>,
    /// Entry file bytes declared by the manifest.
    pub entry: Vec<u8>,
}

/// The value reading of an artifact: manifest bytes and entry bytes.
pub ghost struct ArtifactView {
    /// Manifest bytes.
    pub manifest: Seq<u8>,
    /// Entry bytes.
    pub entry: Seq<u8>,
}

impl View for GitHubArtifact {
    type V = ArtifactView;

    open spec fn view(&self) -> ArtifactView {
        ArtifactView { manifest: self.manifest@, entry: self.entry@ }
    }
}

/// A copy of a byte slice.
fn bytes_of(bytes: &[u8]) -> (copy: Vec<u8>)
    ensures
        copy@ == bytes@,
{
    let mut copy: Vec<u8> = Vec::new();
    let mut i: usize = 0;
    while i < bytes.len()
        invariant
            i <= bytes@.len(),
            copy@ == bytes@.take(i as int),
        decreases bytes.len() - i,
    {
        copy.push(bytes[i]);
        assert(bytes@.take(i + 1) =~= bytes@.take(i as int).push(bytes@[i as int]));
        i = i + 1;
    }
    assert(bytes@.take(i as int) =~= bytes@);
    copy
}

impl GitHubArtifact {
    /// Creates an artifact from manifest and entry bytes.
    pub fn new(manifest: &[u8], entry: &[u8]) -> (artifact: GitHubArtifact)
        ensures
            artifact@ == (ArtifactView { manifest: manifest@, entry: entry@ }),
    {
        GitHubArtifact { manifest: bytes_of(manifest), entry: bytes_of(entry) }
    }

    /// A copy of this artifact.
    pub fn duplicate(&self) -> (copy: GitHubArtifact)
        ensures
            copy@ == self@,
    {
        GitHubArtifact { manifest: bytes_of(self.manifest.as_slice()), entry: bytes_of(self.entry.as_slice()) }
    }
}

/// Error produced by a GitHub source provider.
#[derive(Debug, Clone, PartialEq, Eq)]
pub enum GitHubFetchError {
    /// A caller supplied a non-GitHub source.
    UnsupportedSource {
        /// Source label.
        source: String,
    },
    /// The requested pinned source is not present in the provider.
    NotFound {
        /// Source label.
        source: String,
    },
    /// The source contract itself is invalid.
    InvalidSource {
        /// Source label.
        source: String,
        /// Validation detail.
        detail: String,
    },
    /// Fetched bytes did not contain a valid manifest.
    InvalidManifest {
        /// Source label.
        source: String,
        /// Manifest validation detail.
        error: ManifestError,
    },
    /// The HTTP transport failed before returning a response.
    Transport {
        /// Source label.
        source: String,
        /// Sanitized transport detail without response bodies.
        detail: String,
    },
    /// GitHub returned an unexpected HTTP status.
    HttpStatus {
        /// Source label.
        source: String,
        /// HTTP status code.
        status: u16,
    },
    /// The server attempted a redirect.
    Redirect {
        /// Source label.
        source: String,
        /// Redirect status code.
        status: u16,
    },
    /// The response exceeded the configured byte limit.
    ResponseTooLarge {
        /// Source label.
        source: String,
        /// Maximum accepted bytes.
        limit: u64,
    },
    /// The response body was not a valid package artifact.
    InvalidResponse {
        /// Source label.
        source: String,
        /// Response validation detail.
        detail: String,
    },
    /// A local cache operation failed while serving a source.
    Cache {
        /// Source label.
        source: String,
        /// Cache detail.
        detail: String,
    },
}

/// The message of a fetch error.
pub open spec fn fetch_error_text(error: GitHubFetchError) -> Seq<char> {
    match error {
        GitHubFetchError::UnsupportedSource { source } => "source '"@ + source@ + "' is not a GitHub source"@,
        GitHubFetchError::NotFound { source } => "GitHub source '"@ + source@ + "' was not found"@,
        GitHubFetchError::InvalidSource { source, detail } => "GitHub source '"@ + source@ + "' is invalid: "@ + detail@,
        GitHubFetchError::InvalidManifest { source, error } => "GitHub source '"@ + source@
            + "' has an invalid manifest: "@ + manifest_error_text(error),
        GitHubFetchError::Transport { source, detail } => "GitHub transport failed for '"@ + source@ + "': "@ + detail@,
        GitHubFetchError::HttpStatus { source, status } => "GitHub source '"@ + source@ + "' returned HTTP "@
            + decimal(status as nat),
        GitHubFetchError::Redirect { source, status } => "GitHub source '"@ + source@
            + "' attempted HTTP redirect "@ + decimal(status as nat),
        GitHubFetchError::ResponseTooLarge { source, limit } => "GitHub source '"@ + source@ + "' exceeded the "@
            + decimal(limit as nat) + "-byte limit"@,
        GitHubFetchError::InvalidResponse { source, detail } => "GitHub source '"@ + source@
            + "' returned invalid data: "@ + detail@,
        GitHubFetchError::Cache { source, detail } => "GitHub source '"@ + source@ + "' cache failed: "@ + detail@,
    }
}

/// `a`, then `b`, then `c`.
fn text3(a: &str, b: &str, c: &str) -> (text: String)
    ensures
        text@ == a@ + b@ + c@,
{
    String::from_str(a).concat(b).concat(c)
}

impl GitHubFetchError {
    /// The human-readable message of the error.
    pub fn to_string(&self) -> (text: String)
        ensures
            text@ == fetch_error_text(*self),
    {
        let text = match self {
            GitHubFetchError::UnsupportedSource { source } => text3("source '", source.as_str(), "' is not a GitHub source"),
            GitHubFetchError::NotFound { source } => text3("GitHub source '", source.as_str(), "' was not found"),
            GitHubFetchError::InvalidSource { source, detail } => {
                text3("GitHub source '", source.as_str(), "' is invalid: ").concat(detail.as_str())
            },
            GitHubFetchError::InvalidManifest { source, error } => {
                let detail = error.to_string();
                text3("GitHub source '", source.as_str(), "' has an invalid manifest: ").concat(detail.as_str())
            },
            GitHubFetchError::Transport { source, detail } => {
                text3("GitHub transport failed for '", source.as_str(), "': ").concat(detail.as_str())
            },
            GitHubFetchError::HttpStatus { source, status } => {
                let number = decimal_string(*status as u64);
                text3("GitHub source '", source.as_str(), "' returned HTTP ").concat(number.as_str())
            },
            GitHubFetchError::Redirect { source, status } => {
                let number = decimal_string(*status as u64);
                text3("GitHub source '", source.as_str(), "' attempted HTTP redirect ").concat(number.as_str())
            },
            GitHubFetchError::ResponseTooLarge { source, limit } => {
                let number = decimal_string(*limit);
                let text = text3("GitHub source '", source.as_str(), "' exceeded the ");
                text.concat(number.as_str()).concat("-byte limit")
            },
            GitHubFetchError::InvalidResponse { source, detail } => {
                text3("GitHub source '", source.as_str(), "' returned invalid data: ").concat(detail.as_str())
            },
            GitHubFetchError::Cache { source, detail } => {
                text3("GitHub source '", source.as_str(), "' cache failed: ").concat(detail.as_str())
            },
        };
        assert(text@ =~= fetch_error_text(*self));
        text
    }
}

/// Narrow provider seam for a GitHub-backed resolver.
///
/// Implementations may use a network client, a verified cache, or an offline fixture. The
/// package core does not choose a transport or perform I/O through this trait.
pub trait GitHubFetcher {
    /// Whether `answer` is one this fetcher may give for `source`. An implementation that
    /// says no more leaves every answer possible.
    open spec fn serves(&self, source: SourceView, answer: Result<GitHubArtifact, GitHubFetchError>) -> bool {
        true
    }

    /// Fetches one exact GitHub source: its artifact, or a typed provider error when the
    /// source is unsupported, absent, or invalid.
    fn fetch(&self, source: &PackageSource) -> (answer: Result<GitHubArtifact, GitHubFetchError>)
        ensures
            self.serves(source@, answer);
}

/// A root package input and the graph resolved from its pinned GitHub dependencies.
#[derive(Debug)]
pub struct GitHubPackageGraph {
    /// Root package input, including the fetched manifest and entry bytes.
    pub root: PackageInput,
    /// Resolved graph containing the root and all reachable remote packages.
    pub graph: ResolvedPackageGraph,
}

/// An error produced while fetching and resolving a pinned GitHub graph.
#[derive(Debug, PartialEq, Eq)]
pub enum GitHubGraphError {
    /// An artifact could not be fetched or decoded.
    Fetch(GitHubFetchError),
    /// The fetched graph violated the package resolver contract.
    Resolve(ResolveError),
}

/// The message of a graph error.
pub open spec fn graph_error_text(error: GitHubGraphError) -> Seq<char> {
    match error {
        GitHubGraphError::Fetch(e) => "GitHub graph fetch failed: "@ + fetch_error_text(e),
        GitHubGraphError::Resolve(e) => "GitHub graph resolution failed: "@ + resolve_error_text(e),
    }
}

impl GitHubGraphError {
    /// The human-readable message of the error.
    pub fn to_string(&self) -> (text: String)
        ensures
            text@ == graph_error_text(*self),
    {
        match self {
            GitHubGraphError::Fetch(e) => {
                let detail = e.to_string();
                String::from_str("GitHub graph fetch failed: ").concat(detail.as_str())
            },
            GitHubGraphError::Resolve(e) => {
                let detail = e.to_string();
                String::from_str("GitHub graph resolution failed: ").concat(detail.as_str())
            },
        }
    }
}

/// Checks a source, reporting its problems as an invalid-source error under `label`.
pub(crate) fn validate_source(source: &PackageSource, label: &str) -> (result: Result<(), GitHubFetchError>)
    ensures
        match result {
            Ok(()) => source_problems(source@, "source"@).len() == 0,
            Err(GitHubFetchError::InvalidSource { source: l, detail }) => source_problems(source@, "source"@).len() > 0
                && l@ == label@ && detail@ == invalid_source_text(source@),
            Err(_) => false,
        },
{
    match source.validate() {
        Ok(()) => Ok(()),
        Err(error) => {
            let detail = error.to_string();
            proof {
                reveal_strlit("lockfile");
                reveal_strlit(" is invalid: ");
                reveal_strlit("lockfile is invalid: ");
                match error {
                    LockfileError::Invalid { problems: found } => {
                        assert("lockfile"@ + " is invalid: "@ =~= "lockfile is invalid: "@);
                        assert(detail@ =~= invalid_source_text(source@));
                    },
                    _ => {},
                }
            }
            Err(GitHubFetchError::InvalidSource { source: String::from_str(label), detail })
        },
    }
}

/// What turning a fetched artifact for `source` into a package input gives: a path source
/// is unsupported, an invalid GitHub source is reported with its problems, and otherwise
/// the manifest bytes are parsed; the input keeps the source, the artifact's bytes and the
/// manifest's entry path.
pub open spec fn artifact_input(source: SourceView, artifact: ArtifactView, result: Result<PackageInput, GitHubFetchError>) -> bool {
    match result {
        Ok(input) => source is GitHub && source_problems(source, "source"@).len() == 0
            && Manifest::from_bytes_outcome(artifact.manifest, Ok(input.manifest))
            && input@.manifest_bytes == artifact.manifest && input@.entry == input@.manifest.entry
            && input@.entry_bytes == artifact.entry && input@.source == source,
        Err(GitHubFetchError::UnsupportedSource { source: l }) => source is Path && l@ == source_location(source),
        Err(GitHubFetchError::InvalidSource { source: l, detail }) => source is GitHub
            && source_problems(source, "source"@).len() > 0 && l@ == source_location(source)
            && detail@ == invalid_source_text(source),
        Err(GitHubFetchError::InvalidManifest { source: l, error }) => source is GitHub
            && source_problems(source, "source"@).len() == 0 && l@ == source_location(source)
            && Manifest::from_bytes_outcome(artifact.manifest, Err(error)),
        Err(_) => false,
    }
}

/// Converts fetched bytes into a validated package input while retaining the source identity.
pub fn package_input_from_artifact(source: PackageSource, artifact: GitHubArtifact) -> (result: Result<PackageInput, GitHubFetchError>)
    ensures
        artifact_input(source@, artifact@, result),
{
    let label = source.location();
    if source.github_source().is_none() {
        return Err(GitHubFetchError::UnsupportedSource { source: label });
    }
    match validate_source(&source, label.as_str()) {
        Ok(()) => {},
        Err(error) => return Err(error),
    }
    match PackageInput::from_manifest_bytes(artifact.manifest.as_slice(), artifact.entry, source) {
        Ok(input) => Ok(input),
        Err(error) => Err(GitHubFetchError::InvalidManifest { source: label, error }),
    }
}

/// The identity of a GitHub source: repository, revision and subpath.
pub open spec fn source_key(g: GitHubSource) -> (Seq<char>, Seq<char>, Seq<char>) {
    (g.repository@, g.revision@, g.subpath@)
}

/// The artifacts of a list of entries, later entries overriding earlier ones.
pub open spec fn entries_map(s: Seq<(GitHubSource, GitHubArtifact)>) -> Map<(Seq<char>, Seq<char>, Seq<char>), ArtifactView>
    decreases s.len(),
{
    if s.len() == 0 {
        Map::empty()
    } else {
        entries_map(s.drop_last()).insert(source_key(s.last().0), s.last().1@)
    }
}

/// No two entries share an identity.
pub open spec fn keys_unique(s: Seq<(GitHubSource, GitHubArtifact)>) -> bool {
    forall|i: int, j: int| 0 <= i < j < s.len() ==> source_key(#[trigger] s[i].0) != source_key(#[trigger] s[j].0)
}

/// Whether some entry has identity `k`.
pub open spec fn has_key(s: Seq<(GitHubSource, GitHubArtifact)>, k: (Seq<char>, Seq<char>, Seq<char>)) -> bool {
    exists|i: int| 0 <= i < s.len() && source_key(#[trigger] s[i].0) == k
}

/// The map holds exactly the identities of the entries, each with its entry's artifact.
proof fn lemma_entries_lookup(s: Seq<(GitHubSource, GitHubArtifact)>, k: (Seq<char>, Seq<char>, Seq<char>))
    requires
        keys_unique(s),
    ensures
        entries_map(s).dom().contains(k) == has_key(s, k),
        forall|i: int| 0 <= i < s.len() && source_key(#[trigger] s[i].0) == k ==> entries_map(s)[k] == s[i].1@,
    decreases s.len(),
{
    if s.len() > 0 {
        let t = s.drop_last();
        assert(keys_unique(t)) by {
            assert forall|i: int, j: int| 0 <= i < j < t.len() implies source_key(#[trigger] t[i].0) != source_key(#[trigger] t[j].0) by {
                assert(t[i] == s[i] && t[j] == s[j]);
            }
        }
        lemma_entries_lookup(t, k);
        if has_key(t, k) {
            let i = choose|i: int| 0 <= i < t.len() && source_key(#[trigger] t[i].0) == k;
            assert(s[i] == t[i]);
        }
        if has_key(s, k) && source_key(s.last().0) != k {
            let i = choose|i: int| 0 <= i < s.len() && source_key(#[trigger] s[i].0) == k;
            assert(i != s.len() - 1);
            assert(t[i] == s[i]);
        }
        assert forall|i: int| 0 <= i < s.len() && source_key(#[trigger] s[i].0) == k implies entries_map(s)[k] == s[i].1@ by {
            if i < s.len() - 1 {
                assert(t[i] == s[i]);
                assert(source_key(s[i].0) != source_key(s[s.len() - 1].0));
            }
        }
    }
}

/// With distinct identities, the map has as many keys as there are entries.
proof fn lemma_entries_len(s: Seq<(GitHubSource, GitHubArtifact)>)
    requires
        keys_unique(s),
    ensures
        entries_map(s).dom().finite(),
        entries_map(s).len() == s.len(),
    decreases s.len(),
{
    if s.len() > 0 {
        let t = s.drop_last();
        assert(keys_unique(t)) by {
            assert forall|i: int, j: int| 0 <= i < j < t.len() implies source_key(#[trigger] t[i].0) != source_key(#[trigger] t[j].0) by {
                assert(t[i] == s[i] && t[j] == s[j]);
            }
        }
        lemma_entries_len(t);
        lemma_entries_lookup(t, source_key(s.last().0));
        if has_key(t, source_key(s.last().0)) {
            let i = choose|i: int| 0 <= i < t.len() && source_key(#[trigger] t[i].0) == source_key(s.last().0);
            assert(t[i] == s[i]);
            assert(false);
        }
    }
}

/// Replacing the artifact of the entry at `i`, keeping its identity, replaces that key's
/// artifact in the map.
proof fn lemma_entries_replace(s: Seq<(GitHubSource, GitHubArtifact)>, i: int, e: (GitHubSource, GitHubArtifact))
    requires
        keys_unique(s),
        0 <= i < s.len(),
        source_key(e.0) == source_key(s[i].0),
    ensures
        keys_unique(s.update(i, e)),
        entries_map(s.update(i, e)) == entries_map(s).insert(source_key(e.0), e.1@),
{
    let u = s.update(i, e);
    assert(keys_unique(u)) by {
        assert forall|a: int, b: int| 0 <= a < b < u.len() implies source_key(#[trigger] u[a].0) != source_key(#[trigger] u[b].0) by {
            assert(source_key(u[a].0) == source_key(s[a].0));
            assert(source_key(u[b].0) == source_key(s[b].0));
        }
    }
    let m = entries_map(s).insert(source_key(e.0), e.1@);
    assert forall|k: (Seq<char>, Seq<char>, Seq<char>)| #![auto] entries_map(u).dom().contains(k) == m.dom().contains(k) by {
        lemma_entries_lookup(s, k);
        lemma_entries_lookup(u, k);
        if has_key(s, k) {
            let j = choose|j: int| 0 <= j < s.len() && source_key(#[trigger] s[j].0) == k;
            assert(source_key(u[j].0) == k);
        }
        if has_key(u, k) {
            let j = choose|j: int| 0 <= j < u.len() && source_key(#[trigger] u[j].0) == k;
            assert(source_key(s[j].0) == k);
        }
        assert(source_key(u[i].0) == source_key(e.0));
    }
    assert forall|k: (Seq<char>, Seq<char>, Seq<char>)| #![auto] entries_map(u).dom().contains(k) implies entries_map(u)[k] == m[k] by {
        lemma_entries_lookup(s, k);
        lemma_entries_lookup(u, k);
        let j = choose|j: int| 0 <= j < u.len() && source_key(#[trigger] u[j].0) == k;
        if j != i {
            assert(source_key(s[j].0) == k);
            assert(k != source_key(e.0));
        }
    }
    assert(entries_map(u) =~= m);
}

/// Appending an entry with a new identity adds it to the map.
proof fn lemma_entries_push(s: Seq<(GitHubSource, GitHubArtifact)>, e: (GitHubSource, GitHubArtifact))
    requires
        keys_unique(s),
        !has_key(s, source_key(e.0)),
    ensures
        keys_unique(s.push(e)),
        entries_map(s.push(e)) == entries_map(s).insert(source_key(e.0), e.1@),
{
    let u = s.push(e);
    assert(u.drop_last() =~= s);
    assert forall|a: int, b: int| 0 <= a < b < u.len() implies source_key(#[trigger] u[a].0) != source_key(#[trigger] u[b].0) by {
        if b == s.len() {
            assert(u[a] == s[a]);
        } else {
            assert(u[a] == s[a] && u[b] == s[b]);
        }
    }
}

/// Deterministic in-memory provider used by tests and embedders.
#[derive(Debug)]
pub struct InMemoryGitHubStore {
    artifacts: Vec<(GitHubSource, GitHubArtifact)>,
}

impl View for InMemoryGitHubStore {
    type V = Map<(Seq<char>, Seq<char>, Seq<char>), ArtifactView>;

    closed spec fn view(&self) -> Self::V {
        entries_map(self.artifacts@)
    }
}

/// The identity of a GitHub source view, if it is one.
pub open spec fn view_key(source: SourceView) -> Option<(Seq<char>, Seq<char>, Seq<char>)> {
    match source {
        SourceView::Path(_) => None,
        SourceView::GitHub(r, v, s) => Some((r, v, s)),
    }
}

/// What fetching `source` from a store holding `store` gives: a path source is unsupported,
/// an invalid GitHub source is reported with its problems, a valid one gives its stored
/// artifact, or not-found.
pub open spec fn store_fetch(store: Map<(Seq<char>, Seq<char>, Seq<char>), ArtifactView>, source: SourceView, result: Result<GitHubArtifact, GitHubFetchError>) -> bool {
    match view_key(source) {
        None => result matches Err(GitHubFetchError::UnsupportedSource { source: l }) && l@ == source_location(source),
        Some(k) => if source_problems(source, "source"@).len() > 0 {
            result matches Err(GitHubFetchError::InvalidSource { source: l, detail }) && l@ == source_location(source)
                && detail@ == invalid_source_text(source)
        } else if store.dom().contains(k) {
            result matches Ok(a) && a@ == store[k]
        } else {
            result matches Err(GitHubFetchError::NotFound { source: l }) && l@ == source_location(source)
        },
    }
}

/// What inserting `artifact` under `source` does: a path source is unsupported, an invalid
/// GitHub source is reported with its problems (the store unchanged either way), and a
/// valid one sets the artifact of its identity.
pub open spec fn store_insert(before: Map<(Seq<char>, Seq<char>, Seq<char>), ArtifactView>, after: Map<(Seq<char>, Seq<char>, Seq<char>), ArtifactView>, source: SourceView, artifact: ArtifactView, result: Result<(), GitHubFetchError>) -> bool {
    match view_key(source) {
        None => after == before && (result matches Err(GitHubFetchError::UnsupportedSource { source: l })
            && l@ == source_location(source)),
        Some(k) => if source_problems(source, "source"@).len() > 0 {
            after == before && (result matches Err(GitHubFetchError::InvalidSource { source: l, detail })
                && l@ == source_location(source) && detail@ == invalid_source_text(source))
        } else {
            result is Ok && after == before.insert(k, artifact)
        },
    }
}

impl InMemoryGitHubStore {
    #[verifier::type_invariant]
    spec fn unique_identities(self) -> bool {
        keys_unique(self.artifacts@)
    }

    /// Creates an empty store.
    pub fn new() -> (store: InMemoryGitHubStore)
        ensures
            store@ == Map::<(Seq<char>, Seq<char>, Seq<char>), ArtifactView>::empty(),
    {
        InMemoryGitHubStore { artifacts: Vec::new() }
    }

    /// The position of the entry with `source`'s identity.
    fn position(&self, source: &GitHubSource) -> (found: Option<usize>)
        ensures
            match found {
                Some(i) => i < self.artifacts@.len() && source_key(self.artifacts@[i as int].0) == source_key(*source),
                None => !has_key(self.artifacts@, source_key(*source)),
            },
    {
        let mut i: usize = 0;
        while i < self.artifacts.len()
            invariant
                i <= self.artifacts@.len(),
                forall|j: int| 0 <= j < i ==> source_key(#[trigger] self.artifacts@[j].0) != source_key(*source),
            decreases self.artifacts.len() - i,
        {
            let key = &self.artifacts[i].0;
            if text_equal(key.repository.as_str(), source.repository.as_str())
                && text_equal(key.revision.as_str(), source.revision.as_str())
                && text_equal(key.subpath.as_str(), source.subpath.as_str()) {
                return Some(i);
            }
            i = i + 1;
        }
        None
    }

    /// Inserts bytes for one exact GitHub source, replacing what it held. A new source adds
    /// one to the store's length; a replaced one leaves it.
    pub fn insert(&mut self, source: PackageSource, artifact: GitHubArtifact) -> (result: Result<(), GitHubFetchError>)
        ensures
            store_insert(old(self)@, final(self)@, source@, artifact@, result),
            result is Ok ==> (view_key(source@) matches Some(k) && final(self)@.len() == old(self)@.len()
                + (if old(self)@.dom().contains(k) { 0int } else { 1int })),
    {
        let label = source.location();
        let key = match source.github_source() {
            Some(key) => key,
            None => return Err(GitHubFetchError::UnsupportedSource { source: label }),
        };
        match validate_source(&source, label.as_str()) {
            Ok(()) => {},
            Err(error) => return Err(error),
        }
        proof {
            use_type_invariant(&*self);
        }
        let ghost before = self.artifacts@;
        let found = self.position(&key);
        let mut entries: Vec<(GitHubSource, GitHubArtifact)> = Vec::new();
        std::mem::swap(&mut entries, &mut self.artifacts);
        assert(entries@ == before);
        match found {
            Some(i) => {
                proof {
                    lemma_entries_replace(before, i as int, (key, artifact));
                }
                entries.set(i, (key, artifact));
            },
            None => {
                proof {
                    lemma_entries_push(before, (key, artifact));
                }
                entries.push((key, artifact));
            },
        }
        self.artifacts = entries;
        proof {
            use_type_invariant(&*self);
            lemma_entries_len(before);
            lemma_entries_len(self.artifacts@);
            lemma_entries_lookup(before, source_key(key));
        }
        Ok(())
    }

    /// The artifact for an exact source, if present.
    pub fn get(&self, source: &PackageSource) -> (found: Option<&GitHubArtifact>)
        ensures
            match view_key(source@) {
                None => found is None,
                Some(k) => match found {
                    Some(a) => self@.dom().contains(k) && a@ == self@[k],
                    None => !self@.dom().contains(k),
                },
            },
    {
        proof {
            use_type_invariant(self);
        }
        let key = match source.github_source() {
            Some(key) => key,
            None => return None,
        };
        proof {
            lemma_entries_lookup(self.artifacts@, source_key(key));
        }
        match self.position(&key) {
            Some(i) => Some(&self.artifacts[i].1),
            None => None,
        }
    }

    /// Number of pinned sources in the store.
    pub fn len(&self) -> (n: usize)
        ensures
            n == self@.len(),
    {
        proof {
            use_type_invariant(self);
            lemma_entries_len(self.artifacts@);
        }
        self.artifacts.len()
    }

    /// Whether the store has no sources.
    pub fn is_empty(&self) -> (empty: bool)
        ensures
            empty == (self@.len() == 0),
    {
        proof {
            use_type_invariant(self);
            lemma_entries_len(self.artifacts@);
        }
        self.artifacts.len() == 0
    }
}

impl GitHubFetcher for InMemoryGitHubStore {
    /// A store answers with what it holds for the source.
    open spec fn serves(&self, source: SourceView, answer: Result<GitHubArtifact, GitHubFetchError>) -> bool {
        store_fetch(self@, source, answer)
    }

    fn fetch(&self, source: &PackageSource) -> (result: Result<GitHubArtifact, GitHubFetchError>)
        ensures
            store_fetch(self@, source@, result),
    {
        let label = source.location();
        if source.github_source().is_none() {
            return Err(GitHubFetchError::UnsupportedSource { source: label });
        }
        match validate_source(source, label.as_str()) {
            Ok(()) => {},
            Err(error) => return Err(error),
        }
        match self.get(source) {
            Some(artifact) => Ok(artifact.duplicate()),
            None => Err(GitHubFetchError::NotFound { source: label }),
        }
    }
}

/// Whether input `y` meets dependency `d`: it was fetched from a source with `d`'s label,
/// declares `d`'s coordinate and, when `d` pins a version, that version.
pub open spec fn satisfies(y: InputView, d: DependencyView) -> bool {
    &&& source_location(y.source) == source_location(d.source)
    &&& y.manifest.name == d.name
    &&& (d.version matches Some(v) ==> y.manifest.version == v)
}

/// Some input meets `d`.
pub open spec fn satisfied_in(all: Seq<InputView>, d: DependencyView) -> bool {
    exists|k: int| 0 <= k < all.len() && satisfies(#[trigger] all[k], d)
}

/// Every dependency declared by an input is met by some input.
pub open spec fn dependencies_satisfied(all: Seq<InputView>) -> bool {
    forall|i: int, j: int|
        0 <= i < all.len() && 0 <= j < all[i].manifest.dependencies.len() ==> satisfied_in(all, #[trigger] all[i].manifest.dependencies[j])
}

/// An input made from a fetched artifact: a valid GitHub source, a manifest parsed from the
/// stored bytes, the manifest's entry path, and pinned GitHub dependencies only.
#[verifier::opaque]
pub open spec fn fetched_input(x: PackageInput) -> bool {
    &&& x@.source is GitHub
    &&& source_problems(x@.source, "source"@).len() == 0
    &&& Manifest::from_bytes_outcome(x@.manifest_bytes, Ok(x.manifest))
    &&& x@.entry == x@.manifest.entry
    &&& forall|j: int| 0 <= j < x@.manifest.dependencies.len() ==> (#[trigger] x@.manifest.dependencies[j]).source is GitHub
}

/// The source labels of a list of inputs.
pub open spec fn input_labels(s: Seq<PackageInput>) -> Seq<Seq<char>> {
    s.map_values(|x: PackageInput| source_location(x@.source))
}

/// A dependency edge that a fetched package must satisfy.
struct ExpectedDependency {
    dependent: PackageId,
    coordinate: PackageId,
    version: Option<String>,
}

/// One source waiting to be fetched, with the edge that asked for it (none for the root).
struct RemoteRequest {
    source: PackageSource,
    expected: Option<ExpectedDependency>,
}

/// Whether request `r` was made for dependency `d`.
spec fn request_for(r: RemoteRequest, d: DependencyView) -> bool {
    &&& r.source@ == d.source
    &&& (r.expected matches Some(e) && e.coordinate@ == d.name && opt_view(e.version) == d.version)
}

/// Request `r` was made by input `x` for its dependency `d`.
spec fn asked(r: RemoteRequest, x: InputView, d: DependencyView) -> bool {
    &&& request_for(r, d)
    &&& (r.expected matches Some(e) && e.dependent@ == x.manifest.name)
}

/// Whether input `y` meets what request `r` expects.
spec fn accepts(y: InputView, r: RemoteRequest) -> bool {
    &&& source_location(y.source) == source_location(r.source@)
    &&& (r.expected matches Some(e) ==> y.manifest.name == e.coordinate@
        && (opt_view(e.version) matches Some(v) ==> y.manifest.version == v))
}

/// Some request from `head` on was made for `d`.
spec fn pending(queue: Seq<RemoteRequest>, head: int, d: DependencyView) -> bool {
    exists|q: int| head <= q < queue.len() && request_for(#[trigger] queue[q], d)
}

/// Every declared dependency is met or still waits in the queue.
spec fn all_covered(iv: Seq<InputView>, queue: Seq<RemoteRequest>, head: int) -> bool {
    forall|i: int, j: int|
        0 <= i < iv.len() && 0 <= j < iv[i].manifest.dependencies.len() ==> satisfied_in(iv, #[trigger] iv[i].manifest.dependencies[j])
            || pending(queue, head, iv[i].manifest.dependencies[j])
}

proof fn lemma_queue_grows(iv: Seq<InputView>, q1: Seq<RemoteRequest>, q2: Seq<RemoteRequest>, head: int)
    requires
        all_covered(iv, q1, head),
        0 <= head,
        q1.len() <= q2.len(),
        forall|k: int| 0 <= k < q1.len() ==> q2[k] == q1[k],
    ensures
        all_covered(iv, q2, head),
{
    assert forall|i: int, j: int| 0 <= i < iv.len() && 0 <= j < iv[i].manifest.dependencies.len() implies satisfied_in(iv, #[trigger] iv[i].manifest.dependencies[j])
        || pending(q2, head, iv[i].manifest.dependencies[j]) by {
        let d = iv[i].manifest.dependencies[j];
        if !satisfied_in(iv, d) {
            let q = choose|q: int| head <= q < q1.len() && request_for(#[trigger] q1[q], d);
            assert(q2[q] == q1[q]);
        }
    }
}

/// Answering the request at `head` with an input that meets it covers what the request did.
proof fn lemma_head_answered(iv: Seq<InputView>, queue: Seq<RemoteRequest>, head: int, k: int)
    requires
        all_covered(iv, queue, head),
        0 <= head < queue.len(),
        0 <= k < iv.len(),
        accepts(iv[k], queue[head]),
    ensures
        all_covered(iv, queue, head + 1),
{
    assert forall|i: int, j: int| 0 <= i < iv.len() && 0 <= j < iv[i].manifest.dependencies.len() implies satisfied_in(iv, #[trigger] iv[i].manifest.dependencies[j])
        || pending(queue, head + 1, iv[i].manifest.dependencies[j]) by {
        let d = iv[i].manifest.dependencies[j];
        if !satisfied_in(iv, d) {
            let q = choose|q: int| head <= q < queue.len() && request_for(#[trigger] queue[q], d);
            if q == head {
                assert(satisfies(iv[k], d));
            }
        }
    }
}

/// Inserting a new input that meets the request at `head`, its own dependencies waiting in
/// the queue, keeps everything covered.
#[verifier::spinoff_prover]
proof fn lemma_input_added(iv: Seq<InputView>, queue: Seq<RemoteRequest>, head: int, pos: int, x: InputView)
    requires
        all_covered(iv, queue, head),
        0 <= head < queue.len(),
        0 <= pos <= iv.len(),
        accepts(x, queue[head]),
        forall|j: int| 0 <= j < x.manifest.dependencies.len() ==> pending(queue, head + 1, #[trigger] x.manifest.dependencies[j]),
    ensures
        all_covered(iv.insert(pos, x), queue, head + 1),
{
    let nv = iv.insert(pos, x);
    assert forall|i: int, j: int| 0 <= i < nv.len() && 0 <= j < nv[i].manifest.dependencies.len() implies satisfied_in(nv, #[trigger] nv[i].manifest.dependencies[j])
        || pending(queue, head + 1, nv[i].manifest.dependencies[j]) by {
        let d = nv[i].manifest.dependencies[j];
        if i != pos {
            let oi = if i < pos { i } else { i - 1 };
            assert(nv[i] == iv[oi]);
            if satisfied_in(iv, d) {
                let k = choose|k: int| 0 <= k < iv.len() && satisfies(#[trigger] iv[k], d);
                let nk = if k < pos { k } else { k + 1 };
                assert(nv[nk] == iv[k]);
            } else {
                let q = choose|q: int| head <= q < queue.len() && request_for(#[trigger] queue[q], d);
                if q == head {
                    assert(satisfies(nv[pos], d));
                }
            }
        } else {
            assert(nv[pos] == x);
        }
    }
}

/// With nothing left waiting, every dependency is met.
proof fn lemma_all_answered(iv: Seq<InputView>, queue: Seq<RemoteRequest>)
    requires
        all_covered(iv, queue, queue.len() as int),
    ensures
        dependencies_satisfied(iv),
{
}

/// Moving input `r` to the front keeps every dependency met.
proof fn lemma_root_first(iv: Seq<InputView>, r: int)
    requires
        dependencies_satisfied(iv),
        0 <= r < iv.len(),
    ensures
        dependencies_satisfied(seq![iv[r]] + iv.remove(r)),
{
    let nv = seq![iv[r]] + iv.remove(r);
    assert forall|i: int| 0 <= i < nv.len() implies #[trigger] nv[i] == iv[if i == 0 { r } else if i <= r { i - 1 } else { i }] by {}
    assert forall|i: int, j: int| 0 <= i < nv.len() && 0 <= j < nv[i].manifest.dependencies.len() implies satisfied_in(nv, #[trigger] nv[i].manifest.dependencies[j]) by {
        let oi = if i == 0 { r } else if i <= r { i - 1 } else { i };
        assert(nv[i] == iv[oi]);
        let d = iv[oi].manifest.dependencies[j];
        let k = choose|k: int| 0 <= k < iv.len() && satisfies(#[trigger] iv[k], d);
        let nk = if k == r { 0 } else if k < r { k + 1 } else { k };
        assert(nv[nk] == iv[k]);
    }
}

/// `e` is what checking input `x` against edge `ex` gives.
spec fn unmet(x: InputView, ex: ExpectedDependency, e: ResolveError) -> bool {
    match e {
        ResolveError::CoordinateMismatch { expected, actual } => x.manifest.name != ex.coordinate@
            && expected@ == ex.coordinate@ && actual@ == x.manifest.name,
        ResolveError::VersionConflict { coordinate, expected, actual, dependent } => x.manifest.name == ex.coordinate@
            && (opt_view(ex.version) matches Some(v) && v != x.manifest.version && expected@ == v)
            && coordinate@ == ex.coordinate@ && actual@ == x.manifest.version && dependent@ == ex.dependent@,
        _ => false,
    }
}

/// Checks a fetched input against the edge that asked for it.
fn verify_expected_dependency(input: &PackageInput, expected: &ExpectedDependency) -> (result: Result<(), ResolveError>)
    ensures
        match result {
            Ok(()) => input@.manifest.name == expected.coordinate@
                && (opt_view(expected.version) matches Some(v) ==> input@.manifest.version == v),
            Err(e) => unmet(input@, *expected, e),
        },
{
    if !text_equal(input.manifest.name.as_str(), expected.coordinate.as_str()) {
        return Err(ResolveError::CoordinateMismatch {
            expected: expected.coordinate.duplicate(),
            actual: input.manifest.name.duplicate(),
        });
    }
    match &expected.version {
        Some(version) => {
            if !text_equal(version.as_str(), input.manifest.version.as_str()) {
                return Err(ResolveError::VersionConflict {
                    coordinate: expected.coordinate.duplicate(),
                    expected: version.clone(),
                    actual: input.manifest.version.clone(),
                    dependent: expected.dependent.duplicate(),
                });
            }
        },
        None => {},
    }
    Ok(())
}

/// Where `label` stands among strictly increasing `keys`: its position, or the position
/// where it would be inserted.
fn locate(keys: &Vec<String>, label: &str) -> (found: Result<usize, usize>)
    requires
        strictly_sorted(string_views(keys@)),
    ensures
        match found {
            Ok(i) => i < keys@.len() && keys@[i as int]@ == label@,
            Err(p) => p <= keys@.len() && (forall|q: int| 0 <= q < p ==> lex_lt((#[trigger] keys@[q])@, label@))
                && (p < keys@.len() ==> lex_lt(label@, keys@[p as int]@))
                && (forall|q: int| 0 <= q < keys@.len() ==> (#[trigger] keys@[q])@ != label@),
        },
{
    let ghost kv = string_views(keys@);
    let mut i: usize = 0;
    while i < keys.len() && crate::package::order::text_less(keys[i].as_str(), label)
        invariant
            kv == string_views(keys@),
            strictly_sorted(kv),
            i <= keys@.len(),
            forall|q: int| 0 <= q < i ==> lex_lt((#[trigger] keys@[q])@, label@),
        decreases keys.len() - i,
    {
        i = i + 1;
    }
    if i < keys.len() && text_equal(keys[i].as_str(), label) {
        return Ok(i);
    }
    proof {
        if i < keys@.len() {
            assert(!lex_lt(keys@[i as int]@, label@));
            lemma_lex_total(keys@[i as int]@, label@);
        }
        assert forall|q: int| 0 <= q < keys@.len() implies (#[trigger] keys@[q])@ != label@ by {
            if q < i {
                lemma_lex_irreflexive(label@);
            } else {
                assert(kv[q] == keys@[q]@ && kv[i as int] == keys@[i as int]@);
                if q > i {
                    lemma_lex_transitive(label@, keys@[i as int]@, keys@[q]@);
                }
                lemma_lex_irreflexive(label@);
            }
        }
    }
    Err(i)
}

/// Two optional expectations read the same.
spec fn same_expectation(a: Option<ExpectedDependency>, b: Option<ExpectedDependency>) -> bool {
    match (a, b) {
        (None, None) => true,
        (Some(x), Some(y)) => x.dependent@ == y.dependent@ && x.coordinate@ == y.coordinate@
            && opt_view(x.version) == opt_view(y.version),
        _ => false,
    }
}

/// A copy of an optional expectation.
fn copy_expectation(expected: &Option<ExpectedDependency>) -> (copy: Option<ExpectedDependency>)
    ensures
        same_expectation(copy, *expected),
{
    match expected {
        Some(e) => {
            let version = match &e.version {
                Some(v) => Some(v.clone()),
                None => None,
            };
            Some(ExpectedDependency {
                dependent: e.dependent.duplicate(),
                coordinate: e.coordinate.duplicate(),
                version,
            })
        },
        None => None,
    }
}

/// The message refusing a local path dependency inside a remote package.
pub open spec fn local_path_text(path: Seq<char>) -> Seq<char> {
    "remote package declares local path dependency '"@ + path + "'; remote path dependencies are not enabled"@
}

/// The dependency at `k` is the first with a local path source, and `detail` is the
/// message refusing that path.
pub open spec fn refused_at(deps: Seq<DependencyView>, k: int, detail: Seq<char>) -> bool {
    &&& 0 <= k < deps.len()
    &&& forall|q: int| 0 <= q < k ==> (#[trigger] deps[q]).source is GitHub
    &&& (deps[k].source matches SourceView::Path(path) && detail == local_path_text(path))
}

/// Some dependency is the first local path one, refused with `detail`.
pub open spec fn refused(deps: Seq<DependencyView>, detail: Seq<char>) -> bool {
    exists|k: int| #[trigger] refused_at(deps, k, detail)
}

/// Queues a request for every dependency of a fetched input; a local path dependency is
/// refused, the first one named in the error.
fn request_dependencies(queue: &mut Vec<RemoteRequest>, input: &PackageInput) -> (result: Result<(), ResolveError>)
    ensures
        match result {
            Ok(()) => final(queue)@.len() == old(queue)@.len() + input@.manifest.dependencies.len()
                && (forall|k: int| 0 <= k < old(queue)@.len() ==> final(queue)@[k] == old(queue)@[k])
                && (forall|k: int| 0 <= k < input@.manifest.dependencies.len() ==> asked(final(queue)@[old(queue)@.len() + k], input@, #[trigger] input@.manifest.dependencies[k])
                    && input@.manifest.dependencies[k].source is GitHub),
            Err(ResolveError::InvalidInput { context, detail }) => context@ == input@.manifest.name
                && refused(input@.manifest.dependencies, detail@),
            Err(_) => false,
        },
{
    let ghost base = queue@;
    let mut j: usize = 0;
    while j < input.manifest.dependencies.len()
        invariant
            j <= input@.manifest.dependencies.len(),
            queue@.len() == base.len() + j,
            forall|k: int| 0 <= k < base.len() ==> queue@[k] == base[k],
            forall|k: int| 0 <= k < j ==> asked(queue@[base.len() + k], input@, #[trigger] input@.manifest.dependencies[k])
                && input@.manifest.dependencies[k].source is GitHub,
        decreases input.manifest.dependencies.len() - j,
    {
        let dependency = &input.manifest.dependencies[j];
        match &dependency.source {
            PackageSource::Path { path } => {
                let detail = text3(
                    "remote package declares local path dependency '",
                    path.as_str(),
                    "'; remote path dependencies are not enabled",
                );
                assert(refused_at(input@.manifest.dependencies, j as int, detail@));
                assert(refused(input@.manifest.dependencies, detail@));
                return Err(ResolveError::InvalidInput { context: input.manifest.name.to_string(), detail });
            },
            PackageSource::GitHub { .. } => {},
        }
        let version = match &dependency.version {
            Some(v) => Some(v.clone()),
            None => None,
        };
        let request = RemoteRequest {
            source: dependency.source.duplicate(),
            expected: Some(ExpectedDependency {
                dependent: input.manifest.name.duplicate(),
                coordinate: dependency.name.duplicate(),
                version,
            }),
        };
        assert(asked(request, input@, input@.manifest.dependencies[j as int]));
        queue.push(request);
        j = j + 1;
    }
    Ok(())
}

/// Some input was fetched from `source`.
spec fn holds_source(items: Seq<PackageInput>, source: SourceView) -> bool {
    exists|r: int| 0 <= r < items.len() && (#[trigger] items[r])@.source == source
}

/// What a finished breadth-first fetch gathered: inputs keyed by their source labels in
/// strictly increasing order, at most the package limit, each fetched, every dependency
/// met, and one fetched from the root source.
spec fn gathered(rs: SourceView, keys: Seq<String>, items: Seq<PackageInput>) -> bool {
    &&& keys.len() == items.len()
    &&& items.len() <= 256
    &&& strictly_sorted(string_views(keys))
    &&& forall|k: int| 0 <= k < keys.len() ==> (#[trigger] keys[k])@ == source_location(items[k]@.source)
    &&& forall|k: int| 0 <= k < items.len() ==> fetched_input(#[trigger] items[k])
    &&& dependencies_satisfied(input_views(items))
    &&& holds_source(items, rs)
}

/// Inserting a newly fetched input that answers the request at `head - 1` keeps the
/// fetch state in shape.
proof fn lemma_fetched_added(
    rs: SourceView,
    keys: Seq<String>,
    items: Seq<PackageInput>,
    before: Seq<RemoteRequest>,
    queue: Seq<RemoteRequest>,
    head: int,
    pos: int,
    label: String,
    input: PackageInput,
)
    requires
        1 <= head <= before.len(),
        keys.len() == items.len(),
        items.len() < 256,
        strictly_sorted(string_views(keys)),
        0 <= pos <= keys.len(),
        forall|q: int| 0 <= q < pos ==> lex_lt((#[trigger] keys[q])@, label@),
        pos < keys.len() ==> lex_lt(label@, keys[pos]@),
        forall|k: int| 0 <= k < keys.len() ==> (#[trigger] keys[k])@ == source_location(items[k]@.source),
        label@ == source_location(input@.source),
        all_covered(input_views(items), before, head - 1),
        accepts(input@, before[head - 1]),
        queue.len() == before.len() + input@.manifest.dependencies.len(),
        forall|k: int| 0 <= k < before.len() ==> queue[k] == before[k],
        forall|k: int| 0 <= k < input@.manifest.dependencies.len() ==> request_for(queue[before.len() + k], #[trigger] input@.manifest.dependencies[k]),
        head - 1 == 0 ==> input@.source == rs,
        head - 1 > 0 ==> holds_source(items, rs),
    ensures
        strictly_sorted(string_views(keys.insert(pos, label))),
        forall|k: int| 0 <= k < keys.len() + 1 ==> (#[trigger] keys.insert(pos, label)[k])@ == source_location(items.insert(pos, input)[k]@.source),
        all_covered(input_views(items.insert(pos, input)), queue, head),
        holds_source(items.insert(pos, input), rs),
{
    let iv = input_views(items);
    lemma_queue_grows(iv, before, queue, head - 1);
    assert forall|j: int| 0 <= j < input@.manifest.dependencies.len() implies pending(queue, head, #[trigger] input@.manifest.dependencies[j]) by {
        assert(request_for(queue[before.len() + j], input@.manifest.dependencies[j]));
    }
    lemma_input_added(iv, queue, head - 1, pos, input@);
    lemma_insert_sorted(string_views(keys), pos, label@);
    assert(string_views(keys).insert(pos, label@) =~= string_views(keys.insert(pos, label)));
    assert(input_views(items).insert(pos, input@) =~= input_views(items.insert(pos, input)));
    assert forall|k: int| 0 <= k < keys.len() + 1 implies (#[trigger] keys.insert(pos, label)[k])@ == source_location(items.insert(pos, input)[k]@.source) by {
        if k < pos {
            assert(keys.insert(pos, label)[k] == keys[k] && items.insert(pos, input)[k] == items[k]);
        } else if k > pos {
            assert(keys.insert(pos, label)[k] == keys[k - 1] && items.insert(pos, input)[k] == items[k - 1]);
        }
    }
    if head - 1 > 0 {
        let r = choose|r: int| 0 <= r < items.len() && (#[trigger] items[r])@.source == rs;
        let nr = if r < pos { r } else { r + 1 };
        assert(items.insert(pos, input)[nr] == items[r]);
    } else {
        assert(items.insert(pos, input)[pos] == input);
    }
}

/// One call of a fetcher: the source handed to it and the answer it gave.
pub type FetchCall = (SourceView, Result<GitHubArtifact, GitHubFetchError>);

/// Input `x` is what the answer of `call` makes.
pub open spec fn built_from(call: FetchCall, x: PackageInput) -> bool {
    call.1 matches Ok(a) && artifact_input(call.0, a@, Ok(x))
}

/// Every call holds an answer `fetcher` may give, and `made` holds, in the order of the
/// calls, the inputs built from the first answers, one for each.
pub open spec fn answered_by<F: GitHubFetcher>(fetcher: F, calls: Seq<FetchCall>, made: Seq<PackageInput>) -> bool {
    &&& made.len() <= calls.len()
    &&& forall|k: int| #![trigger calls[k]] 0 <= k < calls.len() ==> fetcher.serves(calls[k].0, calls[k].1)
    &&& forall|k: int| #![trigger made[k]] 0 <= k < made.len() ==> built_from(calls[k], made[k])
}

/// No source label is handed over in two calls.
#[verifier::opaque]
pub open spec fn distinct_calls(calls: Seq<FetchCall>) -> bool {
    forall|a: int, b: int| 0 <= a < b < calls.len() ==> source_location((#[trigger] calls[a]).0) != source_location((#[trigger] calls[b]).0)
}

/// The calls of a graph walk from `root`: at least one and at most the package limit, the
/// first for the root source, and no source label handed over twice.
pub open spec fn walk_calls<F: GitHubFetcher>(fetcher: F, root: SourceView, calls: Seq<FetchCall>, made: Seq<PackageInput>) -> bool {
    &&& 1 <= calls.len() <= 256
    &&& calls[0].0 == root
    &&& distinct_calls(calls)
    &&& answered_by(fetcher, calls, made)
}

/// `e` is what checking input `x` against dependency `d` of the package `dependent` gives:
/// a coordinate mismatch, or else a conflict with the version `d` pins.
pub open spec fn expectation_error(x: InputView, dependent: Seq<char>, d: DependencyView, e: ResolveError) -> bool {
    match e {
        ResolveError::CoordinateMismatch { expected, actual } => x.manifest.name != d.name && expected@ == d.name
            && actual@ == x.manifest.name,
        ResolveError::VersionConflict { coordinate, expected, actual, dependent: asker } => x.manifest.name == d.name
            && (d.version matches Some(v) && v != x.manifest.version && expected@ == v) && coordinate@ == d.name
            && actual@ == x.manifest.version && asker@ == dependent,
        _ => false,
    }
}

/// `e` refuses the local path dependency that input `x` declares.
pub open spec fn path_refusal(x: InputView, e: ResolveError) -> bool {
    e matches ResolveError::InvalidInput { context, detail } && context@ == x.manifest.name
        && refused(x.manifest.dependencies, detail@)
}

/// `e` refuses input `x` of `made` as the one dependency `j` of input `p` asks for: same
/// source label, and a mismatch in coordinate or version.
pub open spec fn edge_refusal(made: Seq<InputView>, p: int, j: int, x: int, e: ResolveError) -> bool {
    &&& 0 <= p < made.len()
    &&& 0 <= j < made[p].manifest.dependencies.len()
    &&& 0 <= x < made.len()
    &&& source_location(made[x].source) == source_location(made[p].manifest.dependencies[j].source)
    &&& expectation_error(made[x], made[p].manifest.name, made[p].manifest.dependencies[j], e)
}

/// `e` refuses a graph that needs more packages than the limit.
pub open spec fn limit_refusal(e: ResolveError) -> bool {
    e matches ResolveError::InvalidInput { detail, .. } && detail@ == "remote package graph exceeds the 256-package limit"@
}

/// Why a walk over the fetched inputs `made` stopped with `e`: the package limit was
/// reached with another source still to fetch, a fetched package declares a local path
/// dependency, or a fetched package is not what a dependency on its source expects.
pub open spec fn walk_refusal(made: Seq<InputView>, e: ResolveError) -> bool {
    ||| (made.len() == 256 && limit_refusal(e))
    ||| exists|k: int| 0 <= k < made.len() && path_refusal(#[trigger] made[k], e)
    ||| exists|p: int, j: int, x: int| #[trigger] edge_refusal(made, p, j, x, e)
}

/// The last call failed with `e`: the fetcher's own error, or the answer's manifest did
/// not make an input.
pub open spec fn fetch_failed(call: FetchCall, e: GitHubFetchError) -> bool {
    ||| call.1 == Err::<GitHubArtifact, GitHubFetchError>(e)
    ||| (call.1 matches Ok(a) && artifact_input(call.0, a@, Err(e)))
}

/// `rest` is the fetched inputs but the first, by increasing source label.
pub open spec fn resolve_order(made: Seq<PackageInput>, rest: Seq<PackageInput>) -> bool {
    &&& rest.len() + 1 == made.len()
    &&& strictly_sorted(input_labels(rest))
    &&& forall|i: int| 0 <= i < rest.len() ==> in_made(made, #[trigger] rest[i])
    &&& forall|j: int| 1 <= j < made.len() ==> rest.contains(#[trigger] made[j])
}

/// `x` is one of the fetched inputs but the first.
pub open spec fn in_made(made: Seq<PackageInput>, x: PackageInput) -> bool {
    exists|j: int| 1 <= j < made.len() && made[j] == x
}

/// No dependency of `x` is a local path.
pub open spec fn remote_only(x: InputView) -> bool {
    forall|j: int| 0 <= j < x.manifest.dependencies.len() ==> (#[trigger] x.manifest.dependencies[j]).source is GitHub
}

/// The first input, in order, that declares a local path dependency is refused with `e`.
pub open spec fn first_local_refusal(all: Seq<InputView>, e: ResolveError) -> bool {
    exists|k: int| 0 <= k < all.len() && (forall|q: int| 0 <= q < k ==> remote_only(#[trigger] all[q]))
        && #[trigger] path_refusal(all[k], e)
}

/// Input `x` is the first with source label `label`.
pub open spec fn labelled_at(all: Seq<InputView>, label: Seq<char>, x: int) -> bool {
    &&& 0 <= x < all.len()
    &&& source_location(all[x].source) == label
    &&& forall|q: int| 0 <= q < x ==> source_location((#[trigger] all[q]).source) != label
}

/// Dependency `j` of input `p` is met by the first input with its source label, if any.
pub open spec fn edge_ok(all: Seq<InputView>, p: int, j: int) -> bool {
    forall|x: int| #[trigger] labelled_at(all, source_location(all[p].manifest.dependencies[j].source), x)
        ==> satisfies(all[x], all[p].manifest.dependencies[j])
}

/// Dependency `j` of input `p` is not met by the first input with its source label: `e`.
pub open spec fn edge_fails(all: Seq<InputView>, p: int, j: int, e: ResolveError) -> bool {
    exists|x: int| #[trigger] labelled_at(all, source_location(all[p].manifest.dependencies[j].source), x)
        && expectation_error(all[x], all[p].manifest.name, all[p].manifest.dependencies[j], e)
}

/// Every dependency of every input is met by the first input with its source label, if any.
pub open spec fn all_edges_ok(all: Seq<InputView>) -> bool {
    forall|p: int, j: int| 0 <= p < all.len() && 0 <= j < all[p].manifest.dependencies.len() ==> #[trigger] edge_ok(all, p, j)
}

/// No input declares a local path dependency, and the first dependency, in order of inputs
/// and then of declarations, that is not met is refused with `e`.
pub open spec fn first_edge_refusal(all: Seq<InputView>, e: ResolveError) -> bool {
    &&& forall|k: int| 0 <= k < all.len() ==> remote_only(#[trigger] all[k])
    &&& exists|p: int, j: int| 0 <= p < all.len() && 0 <= j < all[p].manifest.dependencies.len()
        && (forall|p2: int, j2: int| 0 <= p2 < p && 0 <= j2 < all[p2].manifest.dependencies.len() ==> #[trigger] edge_ok(all, p2, j2))
        && (forall|j2: int| 0 <= j2 < j ==> #[trigger] edge_ok(all, p, j2))
        && #[trigger] edge_fails(all, p, j, e)
}

/// What resolving fetched inputs, the root first, gives. A local path dependency is refused
/// first, then a dependency that the input with its source label does not meet; when
/// neither is found, the root with the graph resolved from all inputs, or the resolver's
/// error.
pub open spec fn fetched_outcome(root: InputView, rest: Seq<InputView>, result: Result<GitHubPackageGraph, GitHubGraphError>) -> bool {
    let all = seq![root] + rest;
    match result {
        Ok(g) => (forall|k: int| 0 <= k < all.len() ==> remote_only(#[trigger] all[k])) && all_edges_ok(all)
            && g.root@ == root && resolve_outcome(all, Ok(g.graph)),
        Err(GitHubGraphError::Resolve(e)) => first_local_refusal(all, e) || first_edge_refusal(all, e)
            || ((forall|k: int| 0 <= k < all.len() ==> remote_only(#[trigger] all[k])) && all_edges_ok(all)
                && resolve_outcome(all, Err(e))),
        Err(_) => false,
    }
}

/// Every dependency the fetched inputs declare is met by one of them, and `result` is what
/// resolving them gives, the first fetched as the root and the others by increasing source
/// label.
pub open spec fn resolved_from(made: Seq<PackageInput>, result: Result<GitHubPackageGraph, GitHubGraphError>) -> bool {
    exists|rest: Seq<PackageInput>| #[trigger] resolve_order(made, rest)
        && dependencies_satisfied(seq![made[0]@] + input_views(rest))
        && fetched_outcome(made[0]@, input_views(rest), result)
}

/// The whole of a graph walk from `root` through `fetcher`: the calls it made, the inputs
/// it built from their answers, and what it returned. A fetcher error, or an answer that
/// makes no input, ends the walk at that call; a refused package ends it with the refusal;
/// otherwise every answer made an input and the inputs are resolved.
pub open spec fn graph_walk<F: GitHubFetcher>(fetcher: F, root: SourceView, calls: Seq<FetchCall>, made: Seq<PackageInput>, result: Result<GitHubPackageGraph, GitHubGraphError>) -> bool {
    &&& walk_calls(fetcher, root, calls, made)
    &&& match result {
        Ok(g) => made.len() == calls.len() && g.root == made[0] && resolved_from(made, result),
        Err(GitHubGraphError::Fetch(e)) => made.len() + 1 == calls.len() && fetch_failed(calls.last(), e),
        Err(GitHubGraphError::Resolve(e)) => made.len() == calls.len()
            && (walk_refusal(input_views(made), e) || resolved_from(made, result)),
    }
}

/// `items` holds the same inputs as `made`, in another order.
#[verifier::opaque]
spec fn same_inputs(items: Seq<PackageInput>, made: Seq<PackageInput>) -> bool {
    &&& items.len() == made.len()
    &&& forall|i: int| #![trigger items[i]] 0 <= i < items.len() ==> exists|j: int| 0 <= j < made.len() && #[trigger] made[j] == items[i]
    &&& forall|j: int| #![trigger made[j]] 0 <= j < made.len() ==> exists|i: int| 0 <= i < items.len() && made[j] == #[trigger] items[i]
}

/// Request `r` was made by one of the fetched inputs for one of its dependencies.
#[verifier::opaque]
spec fn requested(made: Seq<InputView>, r: RemoteRequest) -> bool {
    exists|p: int, j: int| 0 <= p < made.len() && 0 <= j < made[p].manifest.dependencies.len()
        && #[trigger] asked(r, made[p], made[p].manifest.dependencies[j])
}

/// A request made by one of the fetched inputs stays so when another is fetched.
proof fn lemma_requested_grows(madev: Seq<InputView>, y: InputView, r: RemoteRequest)
    requires
        requested(madev, r),
    ensures
        requested(madev.push(y), r),
{
    reveal(requested);
    let (p, j) = choose|p: int, j: int| 0 <= p < madev.len() && 0 <= j < madev[p].manifest.dependencies.len()
        && #[trigger] asked(r, madev[p], madev[p].manifest.dependencies[j]);
    assert(madev.push(y)[p] == madev[p]);
    assert(asked(r, madev.push(y)[p], madev.push(y)[p].manifest.dependencies[j]));
}

/// An input that fails the edge of a request made by a fetched input refuses the walk.
proof fn lemma_edge_refused(madev: Seq<InputView>, x: int, r: RemoteRequest, ex: ExpectedDependency, e: ResolveError)
    requires
        requested(madev, r),
        0 <= x < madev.len(),
        source_location(madev[x].source) == source_location(r.source@),
        same_expectation(Some(ex), r.expected),
        unmet(madev[x], ex, e),
    ensures
        walk_refusal(madev, e),
{
    reveal(requested);
    let (p, j) = choose|p: int, j: int| 0 <= p < madev.len() && 0 <= j < madev[p].manifest.dependencies.len()
        && #[trigger] asked(r, madev[p], madev[p].manifest.dependencies[j]);
    assert(edge_refusal(madev, p, j, x, e));
}

/// A new call for a label not yet fetched keeps the calls a walk's.
proof fn lemma_new_call<F: GitHubFetcher>(
    fetcher: F,
    rs: SourceView,
    calls: Seq<FetchCall>,
    made: Seq<PackageInput>,
    items: Seq<PackageInput>,
    keys: Seq<String>,
    call: FetchCall,
)
    requires
        calls.len() == made.len(),
        calls.len() < 256,
        same_inputs(items, made),
        keys.len() == items.len(),
        forall|k: int| 0 <= k < keys.len() ==> (#[trigger] keys[k])@ == source_location(items[k]@.source),
        forall|q: int| 0 <= q < keys.len() ==> (#[trigger] keys[q])@ != source_location(call.0),
        distinct_calls(calls),
        answered_by(fetcher, calls, made),
        fetcher.serves(call.0, call.1),
        calls.len() == 0 ==> call.0 == rs,
        calls.len() > 0 ==> calls[0].0 == rs,
    ensures
        walk_calls(fetcher, rs, calls.push(call), made),
{
    reveal(answered_by);
    reveal(same_inputs);
    reveal(distinct_calls);
    let next = calls.push(call);
    assert forall|a: int, b: int| 0 <= a < b < next.len() implies source_location((#[trigger] next[a]).0) != source_location((#[trigger] next[b]).0) by {
        if b == calls.len() {
            assert(next[a] == calls[a]);
            assert(built_from(calls[a], made[a]));
            let i = choose|i: int| 0 <= i < items.len() && made[a] == #[trigger] items[i];
            assert(keys[i]@ == source_location(items[i]@.source));
        } else {
            assert(next[a] == calls[a] && next[b] == calls[b]);
        }
    }
    assert forall|k: int| #![trigger next[k]] 0 <= k < next.len() implies fetcher.serves(next[k].0, next[k].1) by {
        if k < calls.len() {
            assert(next[k] == calls[k]);
        }
    }
    assert forall|k: int| #![trigger made[k]] 0 <= k < made.len() implies built_from(next[k], made[k]) by {
        assert(next[k] == calls[k]);
    }
}

/// The input made from the last answer joins those made before.
proof fn lemma_made_grows<F: GitHubFetcher>(fetcher: F, calls: Seq<FetchCall>, made: Seq<PackageInput>, input: PackageInput)
    requires
        answered_by(fetcher, calls, made),
        calls.len() == made.len() + 1,
        built_from(calls.last(), input),
    ensures
        answered_by(fetcher, calls, made.push(input)),
{
    reveal(answered_by);
    let next = made.push(input);
    assert forall|k: int| #![trigger next[k]] 0 <= k < next.len() implies built_from(calls[k], next[k]) by {
        if k < made.len() {
            assert(next[k] == made[k]);
        }
    }
}

/// The requests queued for a new input's dependencies were made by a fetched input.
proof fn lemma_requests_kept(made: Seq<PackageInput>, input: PackageInput, before: Seq<RemoteRequest>, queue: Seq<RemoteRequest>)
    requires
        forall|q: int| 1 <= q < before.len() ==> requested(input_views(made), #[trigger] before[q]),
        queue.len() == before.len() + input@.manifest.dependencies.len(),
        forall|k: int| 0 <= k < before.len() ==> queue[k] == before[k],
        forall|k: int| 0 <= k < input@.manifest.dependencies.len() ==> asked(queue[before.len() + k], input@, #[trigger] input@.manifest.dependencies[k]),
    ensures
        forall|q: int| 1 <= q < queue.len() ==> requested(input_views(made.push(input)), #[trigger] queue[q]),
{
    reveal(requested);
    let mv = input_views(made.push(input));
    assert(mv =~= input_views(made).push(input@));
    assert forall|q: int| 1 <= q < queue.len() implies requested(mv, #[trigger] queue[q]) by {
        if q < before.len() {
            assert(queue[q] == before[q]);
            lemma_requested_grows(input_views(made), input@, before[q]);
        } else {
            let k = q - before.len();
            assert(asked(queue[before.len() + k], input@, input@.manifest.dependencies[k]));
            assert(mv[made.len() as int] == input@);
            assert(asked(queue[q], mv[made.len() as int], mv[made.len() as int].manifest.dependencies[k]));
        }
    }
}

/// Inserting the new input among the sorted ones keeps them the fetched inputs.
proof fn lemma_inserted_same(items: Seq<PackageInput>, made: Seq<PackageInput>, pos: int, input: PackageInput)
    requires
        same_inputs(items, made),
        0 <= pos <= items.len(),
    ensures
        same_inputs(items.insert(pos, input), made.push(input)),
{
    reveal(same_inputs);
    let ni = items.insert(pos, input);
    let nm = made.push(input);
    assert forall|i: int| #![trigger ni[i]] 0 <= i < ni.len() implies exists|j: int| 0 <= j < nm.len() && #[trigger] nm[j] == ni[i] by {
        if i == pos {
            assert(nm[made.len() as int] == ni[i]);
        } else {
            let oi = if i < pos { i } else { i - 1 };
            assert(ni[i] == items[oi]);
            let j = choose|j: int| 0 <= j < made.len() && #[trigger] made[j] == items[oi];
            assert(nm[j] == made[j]);
        }
    }
    assert forall|j: int| #![trigger nm[j]] 0 <= j < nm.len() implies exists|i: int| 0 <= i < ni.len() && nm[j] == #[trigger] ni[i] by {
        if j == made.len() {
            assert(ni[pos] == input);
        } else {
            assert(nm[j] == made[j]);
            let i = choose|i: int| 0 <= i < items.len() && made[j] == #[trigger] items[i];
            let ni_i = if i < pos { i } else { i + 1 };
            assert(ni[ni_i] == items[i]);
        }
    }
}

/// Fetches every source reachable from the root, breadth-first, each label once. Besides
/// what it returns, it gives the calls it made of the fetcher and the inputs it built from
/// their answers, in the order of the calls.
#[verifier::spinoff_prover]
#[verifier::rlimit(80)]
fn fetch_inputs<F: GitHubFetcher>(root_source: PackageSource, fetcher: &F) -> (out: (Result<(Vec<String>, Vec<PackageInput>), GitHubGraphError>, Ghost<Seq<FetchCall>>, Ghost<Seq<PackageInput>>))
    ensures
        walk_calls(*fetcher, root_source@, out.1@, out.2@),
        match out.0 {
            Ok((keys, items)) => out.2@.len() == out.1@.len() && gathered(root_source@, keys@, items@)
                && same_inputs(items@, out.2@),
            Err(GitHubGraphError::Fetch(e)) => out.2@.len() + 1 == out.1@.len() && fetch_failed(out.1@.last(), e),
            Err(GitHubGraphError::Resolve(e)) => out.2@.len() == out.1@.len() && walk_refusal(input_views(out.2@), e),
        },
{
    let ghost rs = root_source@;
    let ghost mut calls: Seq<FetchCall> = Seq::empty();
    let ghost mut made: Seq<PackageInput> = Seq::empty();
    let mut queue: Vec<RemoteRequest> = Vec::new();
    queue.push(RemoteRequest { source: root_source, expected: None });
    let mut head: usize = 0;
    let mut keys: Vec<String> = Vec::new();
    let mut items: Vec<PackageInput> = Vec::new();
    assert(input_views(items@) =~= Seq::<InputView>::empty());
    assert(string_views(keys@) =~= Seq::<Seq<char>>::empty());
    assert(same_inputs(items@, made)) by {
        reveal(same_inputs);
    }
    assert(distinct_calls(calls)) by {
        reveal(distinct_calls);
    }
    assert(answered_by(*fetcher, calls, made)) by {
        reveal(answered_by);
    }
    while head < queue.len()
        invariant
            head <= queue@.len(),
            keys@.len() == items@.len(),
            items@.len() <= 256,
            strictly_sorted(string_views(keys@)),
            forall|k: int| 0 <= k < keys@.len() ==> (#[trigger] keys@[k])@ == source_location(items@[k]@.source),
            forall|k: int| 0 <= k < items@.len() ==> fetched_input(#[trigger] items@[k]),
            all_covered(input_views(items@), queue@, head as int),
            queue@.len() >= 1 && queue@[0].source@ == rs && queue@[0].expected is None,
            head == 0 ==> items@.len() == 0 && queue@.len() == 1 && calls.len() == 0,
            head > 0 ==> holds_source(items@, rs) && calls.len() >= 1 && calls[0].0 == rs,
            rs == root_source@,
            calls.len() == made.len(),
            made.len() == items@.len(),
            same_inputs(items@, made),
            distinct_calls(calls),
            answered_by(*fetcher, calls, made),
            forall|q: int| 1 <= q < queue@.len() ==> requested(input_views(made), #[trigger] queue@[q]),
        decreases 256 - items@.len(), queue@.len() - head,
    {
        let ghost iv = input_views(items@);
        let ghost request = queue@[head as int];
        let source = queue[head].source.duplicate();
        let expected = copy_expectation(&queue[head].expected);
        head = head + 1;
        let label = source.location();
        match locate(&keys, label.as_str()) {
            Ok(i) => {
                match &expected {
                    Some(e) => match verify_expected_dependency(&items[i], e) {
                        Ok(()) => {},
                        Err(error) => {
                            proof {
                                assert(request == queue@[head - 1]);
                                assert(head - 1 != 0);
                                assert(exists|x: int| 0 <= x < made.len() && #[trigger] made[x] == items@[i as int]) by {
                                    reveal(same_inputs);
                                }
                                let x = choose|x: int| 0 <= x < made.len() && #[trigger] made[x] == items@[i as int];
                                assert(input_views(made)[x] == items@[i as int]@);
                                assert(keys@[i as int]@ == source_location(items@[i as int]@.source));
                                lemma_edge_refused(input_views(made), x, request, *e, error);
                                assert(walk_calls(*fetcher, rs, calls, made));
                            }
                            return (Err(GitHubGraphError::Resolve(error)), Ghost(calls), Ghost(made));
                        },
                    },
                    None => {},
                }
                proof {
                    assert(iv[i as int] == items@[i as int]@);
                    assert(accepts(iv[i as int], request));
                    lemma_head_answered(iv, queue@, head - 1, i as int);
                }
            },
            Err(pos) => {
                if items.len() >= 256 {
                    let error = ResolveError::InvalidInput {
                        context: label,
                        detail: String::from_str("remote package graph exceeds the 256-package limit"),
                    };
                    assert(limit_refusal(error));
                    assert(head - 1 > 0);
                    assert(walk_calls(*fetcher, rs, calls, made));
                    return (Err(GitHubGraphError::Resolve(error)), Ghost(calls), Ghost(made));
                }
                let answer = fetcher.fetch(&source);
                let ghost call: FetchCall = (source@, answer);
                proof {
                    if calls.len() == 0 {
                        assert(head - 1 == 0);
                    }
                    lemma_new_call(*fetcher, rs, calls, made, items@, keys@, call);
                    calls = calls.push(call);
                }
                let artifact = match answer {
                    Ok(artifact) => artifact,
                    Err(error) => return (Err(GitHubGraphError::Fetch(error)), Ghost(calls), Ghost(made)),
                };
                let input = match package_input_from_artifact(source, artifact) {
                    Ok(input) => input,
                    Err(error) => return (Err(GitHubGraphError::Fetch(error)), Ghost(calls), Ghost(made)),
                };
                let ghost old_made = made;
                proof {
                    made = made.push(input);
                    lemma_made_grows(*fetcher, calls, old_made, input);
                }
                match &expected {
                    Some(e) => match verify_expected_dependency(&input, e) {
                        Ok(()) => {},
                        Err(error) => {
                            proof {
                                assert(request == queue@[head - 1]);
                                assert(head - 1 != 0);
                                lemma_requested_grows(input_views(old_made), input@, request);
                                assert(input_views(made) =~= input_views(old_made).push(input@));
                                lemma_edge_refused(input_views(made), old_made.len() as int, request, *e, error);
                            }
                            return (Err(GitHubGraphError::Resolve(error)), Ghost(calls), Ghost(made));
                        },
                    },
                    None => {},
                }
                let ghost before = queue@;
                match request_dependencies(&mut queue, &input) {
                    Ok(()) => {},
                    Err(error) => {
                        proof {
                            assert(input_views(made)[old_made.len() as int] == input@);
                            assert(path_refusal(input_views(made)[old_made.len() as int], error));
                        }
                        return (Err(GitHubGraphError::Resolve(error)), Ghost(calls), Ghost(made));
                    },
                }
                proof {
                    assert(accepts(input@, before[head - 1]));
                    lemma_fetched_added(rs, keys@, items@, before, queue@, head as int, pos as int, label, input);
                    lemma_requests_kept(old_made, input, before, queue@);
                }
                assert(fetched_input(input)) by {
                    reveal(fetched_input);
                }
                let ghost old_items = items@;
                keys.insert(pos, label);
                items.insert(pos, input);
                proof {
                    lemma_inserted_same(old_items, old_made, pos as int, input);
                }
                assert forall|k: int| 0 <= k < items@.len() implies fetched_input(#[trigger] items@[k]) by {
                    if k < pos {
                        assert(items@[k] == old_items[k]);
                    } else if k > pos {
                        assert(items@[k] == old_items[k - 1]);
                    }
                }
            },
        }
    }
    proof {
        lemma_all_answered(input_views(items@), queue@);
    }
    (Ok((keys, items)), Ghost(calls), Ghost(made))
}

/// Takes the root input out of what was gathered; the rest keeps its order.
fn take_root(keys: Vec<String>, items: Vec<PackageInput>, root_label: &str, rs: Ghost<SourceView>) -> (taken: (PackageInput, Vec<PackageInput>))
    requires
        gathered(rs@, keys@, items@),
        root_label@ == source_location(rs@),
    ensures
        taken.0@.source == rs@,
        fetched_input(taken.0),
        forall|k: int| 0 <= k < taken.1@.len() ==> fetched_input(#[trigger] taken.1@[k]),
        taken.1@.len() < 256,
        strictly_sorted(input_labels(taken.1@)),
        forall|k: int| 0 <= k < taken.1@.len() ==> source_location((#[trigger] taken.1@[k])@.source) != source_location(rs@),
        dependencies_satisfied(seq![taken.0@] + input_views(taken.1@)),
        exists|r: int| 0 <= r < items@.len() && #[trigger] items@[r] == taken.0 && taken.1@ == items@.remove(r),
{
    let mut keys = keys;
    let mut items = items;
    let ghost all = items@;
    let ghost kv = string_views(keys@);
    let w = Ghost(choose|w: int| 0 <= w < all.len() && (#[trigger] all[w])@.source == rs@);
    assert(kv[w@] == keys@[w@]@);
    let r = match locate(&keys, root_label) {
        Ok(r) => r,
        Err(_) => {
            // The root's label is among the keys, so this arm is never taken.
            proof {
                assert(keys@[w@]@ == root_label@);
            }
            0
        },
    };
    proof {
        assert(kv[w@] == kv[r as int]);
        if w@ != r as int {
            if w@ < r {
                assert(lex_lt(kv[w@], kv[r as int]));
            } else {
                assert(lex_lt(kv[r as int], kv[w@]));
            }
            lemma_lex_irreflexive(kv[w@]);
        }
        lemma_root_first(input_views(all), r as int);
    }
    let root = items.remove(r);
    keys.remove(r);
    proof {
        assert(input_views(items@) =~= input_views(all).remove(r as int));
        assert(seq![input_views(all)[r as int]] + input_views(all).remove(r as int) =~= seq![root@] + input_views(items@));
        assert forall|a: int, b: int| 0 <= a < b < items@.len() implies lex_lt(#[trigger] input_labels(items@)[a], #[trigger] input_labels(items@)[b]) by {
            let oa = if a < r { a } else { a + 1 };
            let ob = if b < r { b } else { b + 1 };
            assert(items@[a] == all[oa] && items@[b] == all[ob]);
            assert(input_labels(items@)[a] == kv[oa] && input_labels(items@)[b] == kv[ob]);
        }
        assert forall|k: int| 0 <= k < items@.len() implies source_location((#[trigger] items@[k])@.source) != source_location(rs@) by {
            let ok = if k < r { k } else { k + 1 };
            assert(items@[k] == all[ok]);
            assert(kv[ok] == source_location(all[ok]@.source));
            if ok < r {
                assert(lex_lt(kv[ok], kv[r as int]));
            } else {
                assert(lex_lt(kv[r as int], kv[ok]));
            }
            lemma_lex_irreflexive(kv[r as int]);
        }
        assert forall|k: int| 0 <= k < items@.len() implies fetched_input(#[trigger] items@[k]) by {
            let ok = if k < r { k } else { k + 1 };
            assert(items@[k] == all[ok]);
        }
    }
    assert(all[r as int] == root && items@ == all.remove(r as int));
    (root, items)
}

/// The input a walk gathered from the root source is the first it made.
#[verifier::spinoff_prover]
proof fn lemma_root_made_first<F: GitHubFetcher>(
    fetcher: F,
    rs: SourceView,
    calls: Seq<FetchCall>,
    made: Seq<PackageInput>,
    items: Seq<PackageInput>,
    r: int,
)
    requires
        walk_calls(fetcher, rs, calls, made),
        calls.len() == made.len(),
        same_inputs(items, made),
        0 <= r < items.len(),
        items[r]@.source == rs,
    ensures
        items[r] == made[0],
        forall|j: int| 0 <= j < made.len() ==> made[j]@.source == (#[trigger] calls[j]).0,
{
    reveal(answered_by);
    reveal(same_inputs);
    reveal(distinct_calls);
    assert forall|j: int| 0 <= j < made.len() implies made[j]@.source == (#[trigger] calls[j]).0 by {
        assert(built_from(calls[j], made[j]));
    }
    let j0 = choose|j: int| 0 <= j < made.len() && #[trigger] made[j] == items[r];
    assert(made[j0]@.source == calls[j0].0);
    assert(made[0]@.source == calls[0].0);
    if j0 != 0 {
        assert(source_location(calls[0].0) != source_location(calls[j0].0));
    }
}

/// The root taken out of what a walk gathered is the first input it made, and the rest
/// are the others by increasing source label.
#[verifier::spinoff_prover]
#[verifier::rlimit(100)]
proof fn lemma_resolve_order<F: GitHubFetcher>(
    fetcher: F,
    rs: SourceView,
    calls: Seq<FetchCall>,
    made: Seq<PackageInput>,
    items: Seq<PackageInput>,
    r: int,
    rest: Seq<PackageInput>,
)
    requires
        walk_calls(fetcher, rs, calls, made),
        calls.len() == made.len(),
        same_inputs(items, made),
        0 <= r < items.len(),
        items[r]@.source == rs,
        rest == items.remove(r),
        strictly_sorted(input_labels(rest)),
        forall|k: int| 0 <= k < rest.len() ==> source_location((#[trigger] rest[k])@.source) != source_location(rs),
    ensures
        items[r] == made[0],
        resolve_order(made, rest),
{
    lemma_root_made_first(fetcher, rs, calls, made, items, r);
    reveal(same_inputs);
    assert(rest.len() + 1 == made.len());
    assert forall|i: int| 0 <= i < rest.len() implies in_made(made, #[trigger] rest[i]) by {
        let oi = if i < r { i } else { i + 1 };
        assert(rest[i] == items[oi]);
        let j = choose|j: int| 0 <= j < made.len() && #[trigger] made[j] == items[oi];
        assert(j != 0);
        assert(made[j] == rest[i]);
    }
    assert forall|j: int| 1 <= j < made.len() implies rest.contains(#[trigger] made[j]) by {
        let i = choose|i: int| 0 <= i < items.len() && made[j] == #[trigger] items[i];
        if i == r {
            reveal(distinct_calls);
            assert(made[j]@.source == calls[j].0);
            assert(source_location(calls[0].0) != source_location(calls[j].0));
        }
        let ri = if i < r { i } else { i - 1 };
        assert(rest[ri] == items[i]);
        assert(rest[ri] == made[j]);
    }
}

/// Input `p` of the root followed by the others.
fn input_at<'a>(root: &'a PackageInput, rest: &'a Vec<PackageInput>, p: usize) -> (x: &'a PackageInput)
    requires
        p <= rest@.len(),
    ensures
        x@ == (seq![root@] + input_views(rest@))[p as int],
{
    if p == 0 {
        root
    } else {
        &rest[p - 1]
    }
}

/// The first of the root and the others with source label `label`.
fn find_label(root: &PackageInput, rest: &Vec<PackageInput>, label: &str) -> (found: Option<usize>)
    ensures
        match found {
            Some(x) => labelled_at(seq![root@] + input_views(rest@), label@, x as int),
            None => forall|q: int| 0 <= q < rest@.len() + 1 ==> source_location((#[trigger] (seq![root@] + input_views(rest@))[q]).source) != label@,
        },
{
    let ghost all = seq![root@] + input_views(rest@);
    if text_equal(root.source.location().as_str(), label) {
        return Some(0);
    }
    let mut k: usize = 0;
    while k < rest.len()
        invariant
            all == seq![root@] + input_views(rest@),
            k <= rest@.len(),
            forall|q: int| 0 <= q < k + 1 ==> source_location((#[trigger] all[q]).source) != label@,
        decreases rest@.len() - k,
    {
        assert(all[k + 1] == rest@[k as int]@);
        if text_equal(rest[k].source.location().as_str(), label) {
            return Some(k + 1);
        }
        k = k + 1;
    }
    None
}

/// Refuses the first local path dependency of the root and the others.
fn refuse_local_paths(root: &PackageInput, rest: &Vec<PackageInput>) -> (result: Result<(), ResolveError>)
    ensures
        match result {
            Ok(()) => forall|k: int| 0 <= k < rest@.len() + 1 ==> remote_only(#[trigger] (seq![root@] + input_views(rest@))[k]),
            Err(e) => first_local_refusal(seq![root@] + input_views(rest@), e),
        },
{
    let ghost all = seq![root@] + input_views(rest@);
    let mut scratch: Vec<RemoteRequest> = Vec::new();
    match request_dependencies(&mut scratch, root) {
        Ok(()) => {
            assert(remote_only(all[0]));
        },
        Err(e) => {
            assert(path_refusal(all[0], e));
            return Err(e);
        },
    }
    let mut k: usize = 0;
    while k < rest.len()
        invariant
            all == seq![root@] + input_views(rest@),
            k <= rest@.len(),
            forall|q: int| 0 <= q < k + 1 ==> remote_only(#[trigger] all[q]),
        decreases rest@.len() - k,
    {
        assert(all[k + 1] == rest@[k as int]@);
        match request_dependencies(&mut scratch, &rest[k]) {
            Ok(()) => {
                assert(remote_only(all[k + 1]));
            },
            Err(e) => {
                assert(path_refusal(all[k + 1], e));
                return Err(e);
            },
        }
        k = k + 1;
    }
    Ok(())
}

/// Checks each dependency of input `p` against the first input with its source label.
#[verifier::spinoff_prover]
fn check_input_edges(root: &PackageInput, rest: &Vec<PackageInput>, p: usize) -> (result: Result<(), ResolveError>)
    requires
        p <= rest@.len(),
        forall|k: int| 0 <= k < rest@.len() + 1 ==> remote_only(#[trigger] (seq![root@] + input_views(rest@))[k]),
        forall|p2: int, j2: int| 0 <= p2 < p && 0 <= j2 < (seq![root@] + input_views(rest@))[p2].manifest.dependencies.len()
            ==> #[trigger] edge_ok(seq![root@] + input_views(rest@), p2, j2),
    ensures
        match result {
            Ok(()) => forall|j2: int| 0 <= j2 < (seq![root@] + input_views(rest@))[p as int].manifest.dependencies.len()
                ==> #[trigger] edge_ok(seq![root@] + input_views(rest@), p as int, j2),
            Err(e) => first_edge_refusal(seq![root@] + input_views(rest@), e),
        },
{
    let ghost all = seq![root@] + input_views(rest@);
    assert(all.len() == rest@.len() + 1);
    let x = input_at(root, rest, p);
    let mut j: usize = 0;
    while j < x.manifest.dependencies.len()
        invariant
            all == seq![root@] + input_views(rest@),
            all.len() == rest@.len() + 1,
            p <= rest@.len(),
            x@ == all[p as int],
            j <= x@.manifest.dependencies.len(),
            forall|k: int| 0 <= k < all.len() ==> remote_only(#[trigger] all[k]),
            forall|p2: int, j2: int| 0 <= p2 < p && 0 <= j2 < all[p2].manifest.dependencies.len() ==> #[trigger] edge_ok(all, p2, j2),
            forall|j2: int| 0 <= j2 < j ==> #[trigger] edge_ok(all, p as int, j2),
        decreases x@.manifest.dependencies.len() - j,
    {
        let d = &x.manifest.dependencies[j];
        let ghost dv = all[p as int].manifest.dependencies[j as int];
        assert(d@ == dv);
        let label = d.source.location();
        match find_label(root, rest, label.as_str()) {
            Some(y) => {
                let target = input_at(root, rest, y);
                let version = match &d.version {
                    Some(v) => Some(v.clone()),
                    None => None,
                };
                let expected = ExpectedDependency {
                    dependent: x.manifest.name.duplicate(),
                    coordinate: d.name.duplicate(),
                    version,
                };
                match verify_expected_dependency(target, &expected) {
                    Ok(()) => {
                        assert forall|w: int| #[trigger] labelled_at(all, source_location(dv.source), w) implies satisfies(all[w], dv) by {
                            if w != y as int {
                                if w < y {
                                    assert(source_location(all[w].source) != label@);
                                } else {
                                    assert(source_location(all[y as int].source) != label@);
                                }
                            }
                        }
                        assert(edge_ok(all, p as int, j as int));
                    },
                    Err(e) => {
                        assert(expectation_error(all[y as int], all[p as int].manifest.name, dv, e));
                        assert(edge_fails(all, p as int, j as int, e));
                        return Err(e);
                    },
                }
            },
            None => {
                assert forall|w: int| #[trigger] labelled_at(all, source_location(dv.source), w) implies satisfies(all[w], dv) by {
                    assert(source_location(all[w].source) != label@);
                }
                assert(edge_ok(all, p as int, j as int));
            },
        }
        j = j + 1;
    }
    Ok(())
}

/// Checks every dependency against the first input with its source label.
fn check_edges(root: &PackageInput, rest: &Vec<PackageInput>) -> (result: Result<(), ResolveError>)
    requires
        forall|k: int| 0 <= k < rest@.len() + 1 ==> remote_only(#[trigger] (seq![root@] + input_views(rest@))[k]),
    ensures
        match result {
            Ok(()) => all_edges_ok(seq![root@] + input_views(rest@)),
            Err(e) => first_edge_refusal(seq![root@] + input_views(rest@), e),
        },
{
    let ghost all = seq![root@] + input_views(rest@);
    match check_input_edges(root, rest, 0) {
        Ok(()) => {},
        Err(e) => return Err(e),
    }
    let mut k: usize = 0;
    while k < rest.len()
        invariant
            all == seq![root@] + input_views(rest@),
            k <= rest@.len(),
            forall|q: int| 0 <= q < rest@.len() + 1 ==> remote_only(#[trigger] all[q]),
            forall|p2: int, j2: int| 0 <= p2 < k + 1 && 0 <= j2 < all[p2].manifest.dependencies.len() ==> #[trigger] edge_ok(all, p2, j2),
        decreases rest@.len() - k,
    {
        match check_input_edges(root, rest, k + 1) {
            Ok(()) => {},
            Err(e) => return Err(e),
        }
        k = k + 1;
    }
    Ok(())
}

/// Resolves fetched inputs, the root first. A local path dependency in any of them is
/// refused first; then each dependency is checked against the first input with its source
/// label; then the inputs are resolved, the graph starting from the root.
pub fn resolve_fetched(root: PackageInput, rest: Vec<PackageInput>) -> (result: Result<GitHubPackageGraph, GitHubGraphError>)
    ensures
        fetched_outcome(root@, input_views(rest@), result),
        result matches Ok(g) ==> g.root == root,
{
    let ghost others = rest@;
    let ghost all = seq![root@] + input_views(others);
    match refuse_local_paths(&root, &rest) {
        Ok(()) => {},
        Err(e) => return Err(GitHubGraphError::Resolve(e)),
    }
    match check_edges(&root, &rest) {
        Ok(()) => {},
        Err(e) => return Err(GitHubGraphError::Resolve(e)),
    }
    let copy = root.duplicate();
    assert(seq![copy@] + input_views(others) =~= all);
    match resolve_package_inputs(copy, rest) {
        Ok(graph) => Ok(GitHubPackageGraph { root, graph }),
        Err(error) => Err(GitHubGraphError::Resolve(error)),
    }
}

/// Fetches and resolves a complete graph rooted at one exact GitHub source.
///
/// Requests are answered breadth-first, the root source first and each source label
/// fetched once; a request for a label already fetched is checked against the input it
/// gave. Remote packages may declare only pinned GitHub dependencies: a local path
/// dependency inside a remote artifact is rejected, as is a graph of more than 256
/// packages. The inputs, the root first and the others by increasing source label, are
/// then resolved. What the fetcher answers is the fetcher's own; the result is stated over
/// the calls made and their answers.
pub fn resolve_github_package_graph<F: GitHubFetcher>(root_source: PackageSource, fetcher: &F) -> (result: Result<GitHubPackageGraph, GitHubGraphError>)
    ensures
        exists|calls: Seq<FetchCall>, made: Seq<PackageInput>| #[trigger] graph_walk(*fetcher, root_source@, calls, made, result),
{
    let ghost rs = root_source@;
    let root_label = root_source.location();
    let (found, Ghost(calls), Ghost(made)) = fetch_inputs(root_source, fetcher);
    let (keys, items) = match found {
        Ok(found) => found,
        Err(error) => {
            let result: Result<GitHubPackageGraph, GitHubGraphError> = Err(error);
            assert(graph_walk(*fetcher, rs, calls, made, result));
            return result;
        },
    };
    let ghost gathered_items = items@;
    let (root, rest) = take_root(keys, items, root_label.as_str(), Ghost(rs));
    let ghost rest_view = rest@;
    proof {
        let r = choose|r: int| 0 <= r < gathered_items.len() && #[trigger] gathered_items[r] == root && rest_view == gathered_items.remove(r);
        lemma_resolve_order(*fetcher, rs, calls, made, gathered_items, r, rest_view);
    }
    let result = resolve_fetched(root, rest);
    assert(resolve_order(made, rest_view) && dependencies_satisfied(seq![made[0]@] + input_views(rest_view))
        && fetched_outcome(made[0]@, input_views(rest_view), result));
    assert(graph_walk(*fetcher, rs, calls, made, result));
    result
}

} // verus!
