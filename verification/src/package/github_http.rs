//! Read-only GitHub raw-file fetching over a transport seam, and the checks of a local
//! artifact cache.
//!
//! Files are addressed at an exact commit on the raw-content host; remote paths are
//! normalized and refused when they could escape the package directory. The transport
//! and the file system stay outside: the library decides what a response or a cached file
//! means.
use vstd::prelude::*;

use crate::package::error::joined_with;
use crate::package::digest::{digest_error_text, hex, hex_spec, package_digest, sha256, sha256_spec, ContentDigest};
use crate::package::error::{manifest_error_text, ManifestError};
use vstd::pervasive::arbitrary;
use crate::package::json::{utf8, utf8_bytes};
use crate::package::manifest::{canonical_manifest, manifest_problems, ManifestView};
use crate::package::github::{validate_source, ArtifactView, GitHubArtifact, GitHubFetchError, GitHubFetcher};
use crate::package::lock::{is_ascii_alnum, source_location, source_problems, GitHubSource, PackageSource, SourceView};
use crate::package::manifest::{invalid_source_text, split_once, Manifest};
use crate::package::order::text_equal;
use crate::text::{
    char_is_control, chars_of, decimal, decimal_string, find_char, has_char, is_unicode_control, split, split_str, views,
};
use core::time::Duration;
use vstd::string::*;

verus! {

const DEFAULT_TIMEOUT_SECONDS: u64 = 10;

const DEFAULT_MAX_RESPONSE_BYTES: u64 = 4194304;

/// `core::time::Duration::from_secs`: a duration of `seconds` whole seconds. The duration
/// is opaque here, so nothing is stated of it.
#[verifier::external_body]
fn whole_seconds(seconds: u64) -> Duration {
    Duration::from_secs(seconds)
}

/// HTTP limits and policy for public GitHub fetches.
#[derive(Debug, PartialEq, Eq)]
pub struct GitHubHttpConfig {
    /// Maximum duration of one request.
    pub timeout: Duration,
    /// Maximum bytes accepted for one response.
    pub max_response_bytes: u64,
    /// User-Agent sent without credentials.
    pub user_agent: String,
}

impl Default for GitHubHttpConfig {
    /// Ten seconds per request, 4 MiB per response, and the package's user agent.
    fn default() -> (config: Self)
        ensures
            config.max_response_bytes == 4194304,
            config.user_agent@ == "aipo-package/0.1.0"@,
    {
        GitHubHttpConfig {
            timeout: whole_seconds(DEFAULT_TIMEOUT_SECONDS),
            max_response_bytes: DEFAULT_MAX_RESPONSE_BYTES,
            user_agent: String::from_str("aipo-package/0.1.0"),
        }
    }
}

/// A bounded response returned by an HTTP transport.
#[derive(Debug, Clone)]
pub struct GitHubHttpResponse {
    /// HTTP status code.
    pub status: u16,
    /// Optional redirect location, retained only for policy diagnostics.
    pub location: Option<String>,
    /// Response body, already bounded by the transport.
    pub body: Vec<u8>,
}

/// Error returned by the low-level HTTP transport.
#[derive(Debug, Clone, PartialEq, Eq)]
pub enum GitHubHttpTransportError {
    /// The request could not be completed.
    Request(String),
    /// The request exceeded its timeout.
    Timeout,
    /// The response exceeded the configured byte limit.
    ResponseTooLarge {
        /// Maximum accepted bytes.
        limit: u64,
    },
}

/// The message of a transport error.
pub open spec fn transport_error_text(error: GitHubHttpTransportError) -> Seq<char> {
    match error {
        GitHubHttpTransportError::Request(detail) => "HTTP request failed: "@ + detail@,
        GitHubHttpTransportError::Timeout => "HTTP request timed out"@,
        GitHubHttpTransportError::ResponseTooLarge { limit } => "HTTP response exceeded "@ + decimal(limit as nat)
            + " bytes"@,
    }
}

impl GitHubHttpTransportError {
    /// The human-readable message of the error.
    pub fn to_string(&self) -> (text: String)
        ensures
            text@ == transport_error_text(*self),
    {
        match self {
            GitHubHttpTransportError::Request(detail) => String::from_str("HTTP request failed: ").concat(detail.as_str()),
            GitHubHttpTransportError::Timeout => String::from_str("HTTP request timed out"),
            GitHubHttpTransportError::ResponseTooLarge { limit } => {
                let number = decimal_string(*limit);
                String::from_str("HTTP response exceeded ").concat(number.as_str()).concat(" bytes")
            },
        }
    }
}

/// Narrow transport seam used by the GitHub fetcher.
pub trait GitHubHttpTransport {
    /// Whether `answer` is one this transport may give to a GET of `url` that accepts at
    /// most `max_bytes` bytes. An implementation that says no more leaves every answer
    /// possible.
    open spec fn answers(&self, url: Seq<char>, max_bytes: u64, answer: Result<GitHubHttpResponse, GitHubHttpTransportError>) -> bool {
        true
    }

    /// Performs one public GET request: a response bounded by `max_bytes`, or a typed
    /// transport error for connection, timeout or response-size failures.
    fn get(&self, url: &str, max_bytes: u64) -> (answer: Result<GitHubHttpResponse, GitHubHttpTransportError>)
        ensures
            self.answers(url@, max_bytes, answer);
}

/// `base/entry`, or `entry` alone when the base is the repository root `.`.
pub open spec fn combined_path(base: Seq<char>, entry: Seq<char>) -> Seq<char> {
    if base == "."@ {
        entry
    } else {
        base + "/"@ + entry
    }
}

/// A path segment made of ASCII letters, digits, `-`, `_` and `.`.
pub open spec fn plain_segment(seg: Seq<char>) -> bool {
    forall|i: int| 0 <= i < seg.len() ==> is_ascii_alnum(#[trigger] seg[i]) || seg[i] == '-' || seg[i] == '_' || seg[i] == '.'
}

/// The kept segments of a path, read left to right: empty and `.` segments drop out, and
/// the first `..` or segment with another character is refused.
pub open spec fn kept_segments(segs: Seq<Seq<char>>) -> Result<Seq<Seq<char>>, Seq<char>>
    decreases segs.len(),
{
    if segs.len() == 0 {
        Ok(Seq::empty())
    } else {
        match kept_segments(segs.drop_last()) {
            Err(e) => Err(e),
            Ok(kept) => {
                let seg = segs.last();
                if seg.len() == 0 || seg == "."@ {
                    Ok(kept)
                } else if seg == ".."@ {
                    Err("remote path contains parent traversal"@)
                } else if plain_segment(seg) {
                    Ok(kept.push(seg))
                } else {
                    Err("remote path contains an unsupported character"@)
                }
            },
        }
    }
}

/// Empty, absolute, or holding a backslash or a control character.
pub open spec fn unsafe_path(s: Seq<char>) -> bool {
    s.len() == 0 || s[0] == '/' || has_char(s, '\\') || (exists|i: int| 0 <= i < s.len() && is_unicode_control(#[trigger] s[i]))
}

/// The normalized remote path of `entry` inside the package directory `base`, or why it
/// is refused.
pub open spec fn remote_path(base: Seq<char>, entry: Seq<char>) -> Result<Seq<char>, Seq<char>> {
    let combined = combined_path(base, entry);
    if unsafe_path(combined) {
        Err("remote path is empty or contains an unsafe character"@)
    } else {
        match kept_segments(split(combined, '/')) {
            Err(e) => Err(e),
            Ok(kept) => if kept.len() == 0 {
                Err("remote path is empty"@)
            } else {
                Ok(joined_with(kept, "/"@))
            },
        }
    }
}

/// Once a prefix of the segments is refused, the whole path is refused for the same reason.
proof fn lemma_refusal_stays(segs: Seq<Seq<char>>, i: int)
    requires
        0 <= i <= segs.len(),
        kept_segments(segs.take(i)) is Err,
    ensures
        kept_segments(segs) == kept_segments(segs.take(i)),
    decreases segs.len() - i,
{
    if i < segs.len() {
        assert(segs.take(i + 1).drop_last() =~= segs.take(i));
        lemma_refusal_stays(segs, i + 1);
    } else {
        assert(segs.take(i) =~= segs);
    }
}

/// Whether every character of `s` may stand in a plain segment.
fn is_plain_segment(s: &str) -> (ok: bool)
    ensures
        ok == plain_segment(s@),
{
    let chars = chars_of(s);
    let mut i: usize = 0;
    while i < chars.len()
        invariant
            chars@ == s@,
            i <= chars@.len(),
            forall|j: int| 0 <= j < i ==> is_ascii_alnum(#[trigger] s@[j]) || s@[j] == '-' || s@[j] == '_' || s@[j] == '.',
        decreases chars.len() - i,
    {
        let c = chars[i];
        if !((c >= '0' && c <= '9') || (c >= 'a' && c <= 'z') || (c >= 'A' && c <= 'Z') || c == '-' || c == '_' || c == '.') {
            return false;
        }
        i = i + 1;
    }
    true
}

/// Whether `s` is empty, starts with `/`, or holds a backslash or a control character.
fn is_unsafe_path(s: &str) -> (refused: bool)
    ensures
        refused == unsafe_path(s@),
{
    let chars = chars_of(s);
    if chars.len() == 0 || chars[0] == '/' {
        return true;
    }
    let mut i: usize = 0;
    while i < chars.len()
        invariant
            chars@ == s@,
            i <= chars@.len(),
            forall|j: int| 0 <= j < i ==> s@[j] != '\\' && !is_unicode_control(#[trigger] s@[j]),
        decreases chars.len() - i,
    {
        if chars[i] == '\\' || char_is_control(chars[i]) {
            return true;
        }
        i = i + 1;
    }
    false
}

/// Normalizes `entry` inside the package directory `base`: empty and `.` segments drop
/// out; an empty, absolute, backslashed or control-character path, a `..` segment, or a
/// segment with a character outside `[A-Za-z0-9._-]` is refused.
pub fn join_remote_path(base: &str, entry: &str) -> (result: Result<String, String>)
    ensures
        match result {
            Ok(path) => remote_path(base@, entry@) == Ok::<Seq<char>, Seq<char>>(path@),
            Err(detail) => remote_path(base@, entry@) == Err::<Seq<char>, Seq<char>>(detail@),
        },
{
    proof {
        reveal_strlit(".");
        reveal_strlit("..");
    }
    let combined = if text_equal(base, ".") {
        String::from_str(entry)
    } else {
        String::from_str(base).concat("/").concat(entry)
    };
    assert(combined@ == combined_path(base@, entry@));
    if is_unsafe_path(combined.as_str()) {
        return Err(String::from_str("remote path is empty or contains an unsafe character"));
    }
    let segments = split_str(combined.as_str(), '/');
    let ghost segs = views(segments@);
    let mut kept: Vec<&str> = Vec::new();
    let mut i: usize = 0;
    assert(segs.take(0) =~= Seq::<Seq<char>>::empty());
    assert(views(kept@) =~= Seq::<Seq<char>>::empty());
    while i < segments.len()
        invariant
            segs == views(segments@),
            segs == split(combined_path(base@, entry@), '/'),
            !unsafe_path(combined_path(base@, entry@)),
            i <= segments@.len(),
            kept_segments(segs.take(i as int)) == Ok::<Seq<Seq<char>>, Seq<char>>(views(kept@)),
        decreases segments.len() - i,
    {
        let seg = segments[i];
        assert(segs.take(i + 1).drop_last() =~= segs.take(i as int));
        assert(segs.take(i + 1).last() == seg@);
        if seg.unicode_len() == 0 || text_equal(seg, ".") {
            // dropped
        } else if text_equal(seg, "..") {
            proof {
                lemma_refusal_stays(segs, i + 1);
            }
            return Err(String::from_str("remote path contains parent traversal"));
        } else if is_plain_segment(seg) {
            let ghost before = kept@;
            kept.push(seg);
            assert(views(kept@) =~= views(before).push(seg@));
        } else {
            proof {
                lemma_refusal_stays(segs, i + 1);
            }
            return Err(String::from_str("remote path contains an unsupported character"));
        }
        i = i + 1;
    }
    assert(segs.take(i as int) =~= segs);
    if kept.len() == 0 {
        return Err(String::from_str("remote path is empty"));
    }
    let mut path = String::new();
    let mut k: usize = 0;
    while k < kept.len()
        invariant
            k <= kept@.len(),
            path@ == joined_with(views(kept@).take(k as int), "/"@),
        decreases kept.len() - k,
    {
        assert(views(kept@).take(k + 1).drop_last() =~= views(kept@).take(k as int));
        if k == 0 {
            path = String::from_str(kept[k]);
        } else {
            path = path.concat("/").concat(kept[k]);
        }
        k = k + 1;
    }
    assert(views(kept@).take(k as int) =~= views(kept@));
    Ok(path)
}

/// The label of a GitHub identity, as `GitHubSource::label` gives it.
pub open spec fn github_label(g: GitHubSource) -> Seq<char> {
    "github:"@ + g.repository@ + "@"@ + g.revision@ + "/"@ + g.subpath@
}

/// The raw-content URL of `path` inside the package at repository `repository` (in
/// `owner/repository` form), commit `revision` and directory `subpath`, or why there is none.
pub open spec fn raw_url_spec(repository: Seq<char>, revision: Seq<char>, subpath: Seq<char>, path: Seq<char>) -> Result<Seq<char>, Seq<char>> {
    match split_once(repository, '/') {
        None => Err("GitHub repository is not owner/repository"@),
        Some((owner, name)) => match remote_path(subpath, path) {
            Err(e) => Err(e),
            Ok(p) => Ok("https://raw.githubusercontent.com/"@ + owner + "/"@ + name + "/"@ + revision + "/"@ + p),
        },
    }
}

/// Builds the raw-content URL of `path` inside the package at `source`.
pub fn raw_url(source: &GitHubSource, path: &str) -> (result: Result<String, String>)
    ensures
        match result {
            Ok(url) => raw_url_spec(source.repository@, source.revision@, source.subpath@, path@)
                == Ok::<Seq<char>, Seq<char>>(url@),
            Err(detail) => raw_url_spec(source.repository@, source.revision@, source.subpath@, path@)
                == Err::<Seq<char>, Seq<char>>(detail@),
        },
{
    let chars = chars_of(source.repository.as_str());
    let n = chars.len();
    let slash = match find_char(&chars, '/') {
        Some(i) => i,
        None => return Err(String::from_str("GitHub repository is not owner/repository")),
    };
    let owner = source.repository.as_str().substring_char(0, slash);
    let name = source.repository.as_str().substring_char(slash + 1, n);
    assert(owner@ =~= source.repository@.take(slash as int));
    assert(name@ =~= source.repository@.skip(slash + 1));
    let joined = match join_remote_path(source.subpath.as_str(), path) {
        Ok(joined) => joined,
        Err(detail) => return Err(detail),
    };
    let url = String::from_str("https://raw.githubusercontent.com/").concat(owner).concat("/").concat(name);
    let url = url.concat("/").concat(source.revision.as_str()).concat("/").concat(joined.as_str());
    Ok(url)
}

/// What a transport failure means for a fetch of the source labelled `label`.
pub open spec fn transport_failure(label: Seq<char>, error: GitHubHttpTransportError, result: GitHubFetchError) -> bool {
    match error {
        GitHubHttpTransportError::Request(detail) => result matches GitHubFetchError::Transport { source, detail: d }
            && source@ == label && d@ == detail@,
        GitHubHttpTransportError::Timeout => result matches GitHubFetchError::Transport { source, detail: d }
            && source@ == label && d@ == "request timed out"@,
        GitHubHttpTransportError::ResponseTooLarge { limit } => result matches GitHubFetchError::ResponseTooLarge { source, limit: l }
            && source@ == label && l == limit,
    }
}

/// Maps a transport failure to the fetch error of `source`.
pub fn map_transport_error(source: &GitHubSource, error: GitHubHttpTransportError) -> (mapped: GitHubFetchError)
    ensures
        transport_failure(github_label(*source), error, mapped),
{
    match error {
        GitHubHttpTransportError::Request(detail) => GitHubFetchError::Transport { source: source.label(), detail },
        GitHubHttpTransportError::Timeout => GitHubFetchError::Transport {
            source: source.label(),
            detail: String::from_str("request timed out"),
        },
        GitHubHttpTransportError::ResponseTooLarge { limit } => GitHubFetchError::ResponseTooLarge { source: source.label(), limit },
    }
}

/// What a transport's answer means for a fetch of the source labelled `label` with at most
/// `max_bytes` accepted: a failure is mapped, an oversized body refused, a 2xx status gives
/// the body, a 3xx is a refused redirect, 404 is not-found and any other status an error.
pub open spec fn answered_bytes(label: Seq<char>, answer: Result<GitHubHttpResponse, GitHubHttpTransportError>, max_bytes: u64, result: Result<Vec<u8>, GitHubFetchError>) -> bool {
    match answer {
        Err(error) => result matches Err(e) && transport_failure(label, error, e),
        Ok(response) => if response.body@.len() > max_bytes {
            result matches Err(GitHubFetchError::ResponseTooLarge { source, limit }) && source@ == label && limit == max_bytes
        } else if 200 <= response.status <= 299 {
            result matches Ok(bytes) && bytes@ == response.body@
        } else if 300 <= response.status <= 399 {
            result matches Err(GitHubFetchError::Redirect { source, status }) && source@ == label && status == response.status
        } else if response.status == 404 {
            result matches Err(GitHubFetchError::NotFound { source }) && source@ == label
        } else {
            result matches Err(GitHubFetchError::HttpStatus { source, status }) && source@ == label && status == response.status
        },
    }
}

/// Decides what a transport's answer gives for `source`, accepting at most `max_bytes`.
pub fn response_bytes(source: &GitHubSource, answer: Result<GitHubHttpResponse, GitHubHttpTransportError>, max_bytes: u64) -> (result: Result<Vec<u8>, GitHubFetchError>)
    ensures
        answered_bytes(github_label(*source), answer, max_bytes, result),
{
    let response = match answer {
        Ok(response) => response,
        Err(error) => return Err(map_transport_error(source, error)),
    };
    if response.body.len() as u64 > max_bytes {
        return Err(GitHubFetchError::ResponseTooLarge { source: source.label(), limit: max_bytes });
    }
    if 200 <= response.status && response.status <= 299 {
        Ok(response.body)
    } else if 300 <= response.status && response.status <= 399 {
        Err(GitHubFetchError::Redirect { source: source.label(), status: response.status })
    } else if response.status == 404 {
        Err(GitHubFetchError::NotFound { source: source.label() })
    } else {
        Err(GitHubFetchError::HttpStatus { source: source.label(), status: response.status })
    }
}

/// Read-only GitHub fetcher that resolves raw files at an exact commit.
#[derive(Debug, Clone)]
pub struct GitHubHttpFetcher<T> {
    transport: T,
    max_response_bytes: u64,
}

impl<T: GitHubHttpTransport> GitHubHttpFetcher<T> {
    /// The response byte limit.
    pub closed spec fn response_limit(&self) -> u64 {
        self.max_response_bytes
    }

    /// The transport the fetcher uses.
    pub closed spec fn transport_used(&self) -> T {
        self.transport
    }

    /// Builds a fetcher around a caller-provided transport, with the default 4 MiB limit.
    pub fn with_transport(transport: T) -> (fetcher: Self)
        ensures
            fetcher.transport_used() == transport,
            fetcher.response_limit() == 4194304,
    {
        GitHubHttpFetcher { transport, max_response_bytes: DEFAULT_MAX_RESPONSE_BYTES }
    }

    /// Overrides the response byte limit.
    pub fn with_max_response_bytes(self, max_response_bytes: u64) -> (fetcher: Self)
        ensures
            fetcher.transport_used() == self.transport_used(),
            fetcher.response_limit() == max_response_bytes,
    {
        let mut fetcher = self;
        fetcher.max_response_bytes = max_response_bytes;
        fetcher
    }

    /// Returns the configured response limit.
    pub fn max_response_bytes(&self) -> (limit: u64)
        ensures
            limit == self.response_limit(),
    {
        self.max_response_bytes
    }

    /// Fetches one file of the package at `source`: the raw URL of `path` is requested with
    /// the response limit, and the result is what the answer means. The answer is returned
    /// beside it.
    fn fetch_path(&self, source: &GitHubSource, path: &str) -> (out: (Result<Vec<u8>, GitHubFetchError>, Ghost<Result<GitHubHttpResponse, GitHubHttpTransportError>>))
        ensures
            match raw_url_spec(source.repository@, source.revision@, source.subpath@, path@) {
                Err(detail) => out.0 matches Err(GitHubFetchError::InvalidResponse { source: l, detail: d })
                    && l@ == github_label(*source) && d@ == detail,
                Ok(url) => self.transport_used().answers(url, self.response_limit(), out.1@)
                    && answered_bytes(github_label(*source), out.1@, self.response_limit(), out.0),
            },
    {
        let url = match raw_url(source, path) {
            Ok(url) => url,
            Err(detail) => return (Err(GitHubFetchError::InvalidResponse { source: source.label(), detail }), Ghost(arbitrary())),
        };
        let answer = self.transport.get(url.as_str(), self.max_response_bytes);
        let ghost given = answer;
        let result = response_bytes(source, answer, self.max_response_bytes);
        (result, Ghost(given))
    }
}

/// Whether an answer delivers a body: a 2xx response within the limit.
pub open spec fn delivers(answer: Result<GitHubHttpResponse, GitHubHttpTransportError>, limit: u64) -> bool {
    answer matches Ok(r) && r.body@.len() <= limit && 200 <= r.status <= 299
}

/// The body an answer delivers.
pub open spec fn body_of(answer: Result<GitHubHttpResponse, GitHubHttpTransportError>) -> Seq<u8> {
    match answer {
        Ok(r) => r.body@,
        Err(_) => Seq::empty(),
    }
}

/// A refusal labelled `label` whose detail is `detail`.
pub open spec fn invalid_response(result: Result<GitHubArtifact, GitHubFetchError>, label: Seq<char>, detail: Seq<char>) -> bool {
    result matches Err(GitHubFetchError::InvalidResponse { source: l, detail: d }) && l@ == label && d@ == detail
}

/// The failure an answer that delivers no body means, as the result of the fetch.
pub open spec fn failed_answer(result: Result<GitHubArtifact, GitHubFetchError>, label: Seq<char>, answer: Result<GitHubHttpResponse, GitHubHttpTransportError>, limit: u64) -> bool {
    result matches Err(e) && answered_bytes(label, answer, limit, Err::<Vec<u8>, GitHubFetchError>(e))
}

/// What fetching the package at `repository`, `revision` and `subpath` gives, with
/// `transport` answering `manifest_answer` to the manifest request and `entry_answer` to the
/// entry request, each asked with at most `limit` bytes, and the manifest bytes parsing to
/// `parsed`. The manifest's raw URL is requested first; a failed answer, a manifest that
/// does not parse or an entry path that is not safe ends the fetch; otherwise the entry's
/// raw URL is requested, and the artifact is the two bodies.
pub open spec fn http_answered<T: GitHubHttpTransport>(
    transport: T,
    repository: Seq<char>,
    revision: Seq<char>,
    subpath: Seq<char>,
    limit: u64,
    manifest_answer: Result<GitHubHttpResponse, GitHubHttpTransportError>,
    parsed: Result<Manifest, ManifestError>,
    entry_answer: Result<GitHubHttpResponse, GitHubHttpTransportError>,
    result: Result<GitHubArtifact, GitHubFetchError>,
) -> bool {
    let label = "github:"@ + repository + "@"@ + revision + "/"@ + subpath;
    match raw_url_spec(repository, revision, subpath, "aipo.toml"@) {
        Err(detail) => invalid_response(result, label, detail),
        Ok(manifest_url) => transport.answers(manifest_url, limit, manifest_answer) && if !delivers(manifest_answer, limit) {
            failed_answer(result, label, manifest_answer, limit)
        } else {
            Manifest::from_bytes_outcome(body_of(manifest_answer), parsed) && match parsed {
                Err(error) => invalid_response(result, label, manifest_error_text(error)),
                Ok(m) => match remote_path(subpath, m@.entry) {
                    Err(detail) => invalid_response(result, label, detail),
                    Ok(_) => match raw_url_spec(repository, revision, subpath, m@.entry) {
                        Err(detail) => invalid_response(result, label, detail),
                        Ok(entry_url) => transport.answers(entry_url, limit, entry_answer) && if !delivers(entry_answer, limit) {
                            failed_answer(result, label, entry_answer, limit)
                        } else {
                            result matches Ok(a) && a@ == (ArtifactView { manifest: body_of(manifest_answer), entry: body_of(entry_answer) })
                        },
                    },
                },
            }
        },
    }
}

impl<T: GitHubHttpTransport> GitHubHttpFetcher<T> {
    /// Some answers of the transport, and some parse of the manifest, give `result` for the
    /// package at `repository`, `revision` and `subpath`.
    pub open spec fn fetched_over_http(&self, repository: Seq<char>, revision: Seq<char>, subpath: Seq<char>, result: Result<GitHubArtifact, GitHubFetchError>) -> bool {
        exists|manifest_answer: Result<GitHubHttpResponse, GitHubHttpTransportError>, parsed: Result<Manifest, ManifestError>, entry_answer: Result<GitHubHttpResponse, GitHubHttpTransportError>|
            #[trigger] http_answered(self.transport_used(), repository, revision, subpath, self.response_limit(), manifest_answer, parsed, entry_answer, result)
    }

    /// What fetching `source` over HTTP gives: a path source is unsupported, an invalid
    /// GitHub source is reported with its problems (both before any request), and a valid
    /// one gives what the transport's answers to the two requests make of it.
    pub open spec fn http_fetch(&self, source: SourceView, result: Result<GitHubArtifact, GitHubFetchError>) -> bool {
        match source {
            SourceView::Path(_) => result matches Err(GitHubFetchError::UnsupportedSource { source: l })
                && l@ == source_location(source),
            SourceView::GitHub(repository, revision, subpath) => if source_problems(source, "source"@).len() > 0 {
                result matches Err(GitHubFetchError::InvalidSource { source: l, detail }) && l@ == source_location(source)
                    && detail@ == invalid_source_text(source)
            } else {
                self.fetched_over_http(repository, revision, subpath, result)
            },
        }
    }
}

impl<T: GitHubHttpTransport> GitHubFetcher for GitHubHttpFetcher<T> {
    /// An HTTP fetcher answers with what its transport's answers make of the source.
    open spec fn serves(&self, source: SourceView, answer: Result<GitHubArtifact, GitHubFetchError>) -> bool {
        self.http_fetch(source, answer)
    }

    /// Fetches the manifest, checks its entry path, then fetches the entry.
    fn fetch(&self, source: &PackageSource) -> (result: Result<GitHubArtifact, GitHubFetchError>)
        ensures
            self.http_fetch(source@, result),
    {
        let label = source.location();
        let github = match source.github_source() {
            Some(github) => github,
            None => return Err(GitHubFetchError::UnsupportedSource { source: label }),
        };
        match validate_source(source, label.as_str()) {
            Ok(()) => {},
            Err(error) => return Err(error),
        }
        let ghost r = github.repository@;
        let ghost v = github.revision@;
        let ghost sp = github.subpath@;
        let ghost limit = self.response_limit();
        let ghost t = self.transport_used();
        assert(github_label(github) == "github:"@ + r + "@"@ + v + "/"@ + sp);
        let (manifest_bytes, manifest_answer) = self.fetch_path(&github, "aipo.toml");
        let manifest_bytes = match manifest_bytes {
            Ok(bytes) => bytes,
            Err(error) => {
                let result: Result<GitHubArtifact, GitHubFetchError> = Err(error);
                let ghost unparsed: Result<Manifest, ManifestError> = arbitrary();
                assert(http_answered(t, r, v, sp, limit, manifest_answer@, unparsed, manifest_answer@, result));
                return result;
            },
        };
        let parsed = Manifest::from_bytes(manifest_bytes.as_slice());
        let ghost parsed_ghost = parsed;
        let manifest = match parsed {
            Ok(manifest) => manifest,
            Err(error) => {
                let detail = error.to_string();
                let result: Result<GitHubArtifact, GitHubFetchError> = Err(GitHubFetchError::InvalidResponse { source: github.label(), detail });
                assert(http_answered(t, r, v, sp, limit, manifest_answer@, parsed_ghost, manifest_answer@, result));
                return result;
            },
        };
        match join_remote_path(github.subpath.as_str(), manifest.entry.as_str()) {
            Ok(_) => {},
            Err(detail) => {
                let result: Result<GitHubArtifact, GitHubFetchError> = Err(GitHubFetchError::InvalidResponse { source: github.label(), detail });
                assert(http_answered(t, r, v, sp, limit, manifest_answer@, parsed_ghost, manifest_answer@, result));
                return result;
            },
        }
        let (entry_bytes, entry_answer) = self.fetch_path(&github, manifest.entry.as_str());
        let entry_bytes = match entry_bytes {
            Ok(bytes) => bytes,
            Err(error) => {
                let result: Result<GitHubArtifact, GitHubFetchError> = Err(error);
                assert(http_answered(t, r, v, sp, limit, manifest_answer@, parsed_ghost, entry_answer@, result));
                return result;
            },
        };
        let result: Result<GitHubArtifact, GitHubFetchError> = Ok(GitHubArtifact { manifest: manifest_bytes, entry: entry_bytes });
        assert(http_answered(t, r, v, sp, limit, manifest_answer@, parsed_ghost, entry_answer@, result));
        result
    }
}

const MAX_CACHE_FILE_BYTES: u64 = 4194304;

const CACHE_FORMAT_VERSION: u32 = 1;

/// Error produced by the local GitHub artifact cache.
#[derive(Debug, Clone, PartialEq, Eq)]
pub enum GitHubCacheError {
    /// The cache root or an entry path is not a safe directory.
    InvalidRoot {
        /// Cache path.
        path: String,
        /// Reason.
        detail: String,
    },
    /// Cache I/O failed.
    Io {
        /// Cache path.
        path: String,
        /// I/O detail.
        detail: String,
    },
    /// Cached bytes are malformed or do not match their digest.
    Corrupt {
        /// Source label.
        source: String,
        /// Corruption detail.
        detail: String,
    },
    /// A source is not a GitHub source.
    UnsupportedSource {
        /// Source label.
        source: String,
    },
}

/// The message of a cache error.
pub open spec fn cache_error_text(error: GitHubCacheError) -> Seq<char> {
    match error {
        GitHubCacheError::InvalidRoot { path, detail } => "invalid GitHub cache root '"@ + path@ + "': "@ + detail@,
        GitHubCacheError::Io { path, detail } => "GitHub cache I/O '"@ + path@ + "': "@ + detail@,
        GitHubCacheError::Corrupt { source, detail } => "GitHub cache entry '"@ + source@ + "' is corrupt: "@ + detail@,
        GitHubCacheError::UnsupportedSource { source } => "source '"@ + source@ + "' is not a GitHub source"@,
    }
}

impl GitHubCacheError {
    /// The human-readable message of the error.
    pub fn to_string(&self) -> (text: String)
        ensures
            text@ == cache_error_text(*self),
    {
        match self {
            GitHubCacheError::InvalidRoot { path, detail } => {
                String::from_str("invalid GitHub cache root '").concat(path.as_str()).concat("': ").concat(detail.as_str())
            },
            GitHubCacheError::Io { path, detail } => {
                String::from_str("GitHub cache I/O '").concat(path.as_str()).concat("': ").concat(detail.as_str())
            },
            GitHubCacheError::Corrupt { source, detail } => {
                String::from_str("GitHub cache entry '").concat(source.as_str()).concat("' is corrupt: ").concat(detail.as_str())
            },
            GitHubCacheError::UnsupportedSource { source } => {
                String::from_str("source '").concat(source.as_str()).concat("' is not a GitHub source")
            },
        }
    }
}

/// Local cache for fetched GitHub package artifacts: where it lives and how large a cached
/// file may be. Reading and writing its files is the caller's.
#[derive(Debug, Clone)]
pub struct GitHubCache {
    root: String,
    max_file_bytes: u64,
}

impl GitHubCache {
    /// The cache root.
    pub closed spec fn root_path(&self) -> Seq<char> {
        self.root@
    }

    /// The largest accepted cached file, in bytes.
    pub closed spec fn file_limit(&self) -> u64 {
        self.max_file_bytes
    }

    /// Creates a cache handle with the default 4 MiB file limit. The root is created only
    /// when an artifact is stored or loaded.
    pub fn new(root: &str) -> (cache: GitHubCache)
        ensures
            cache.root_path() == root@,
            cache.file_limit() == 4194304,
    {
        GitHubCache { root: String::from_str(root), max_file_bytes: MAX_CACHE_FILE_BYTES }
    }

    /// Overrides the maximum size of each cached file.
    pub fn with_max_file_bytes(self, max_file_bytes: u64) -> (cache: GitHubCache)
        ensures
            cache.root_path() == self.root_path(),
            cache.file_limit() == max_file_bytes,
    {
        let mut cache = self;
        cache.max_file_bytes = max_file_bytes;
        cache
    }

    /// Returns the configured cache root.
    pub fn root(&self) -> (root: &str)
        ensures
            root@ == self.root_path(),
    {
        self.root.as_str()
    }

    /// Returns the configured file limit.
    pub fn max_file_bytes(&self) -> (limit: u64)
        ensures
            limit == self.file_limit(),
    {
        self.max_file_bytes
    }
}

/// The metadata recorded beside a cached artifact.
#[derive(Debug, Clone, PartialEq, Eq)]
pub struct CacheMetadata {
    /// Cache format version.
    pub version: u32,
    /// Source label.
    pub source: String,
    /// Content digest of the cached package.
    pub digest: String,
}

impl CacheMetadata {
    /// The metadata of an entry for `source` with content digest `digest`.
    pub fn for_entry(source: &GitHubSource, digest: &ContentDigest) -> (metadata: CacheMetadata)
        ensures
            metadata.version == 1,
            metadata.source@ == github_label(*source),
            metadata.digest@ == digest@,
    {
        CacheMetadata { version: CACHE_FORMAT_VERSION, source: source.label(), digest: String::from_str(digest.as_str()) }
    }
}

/// The cache directory name of a source: the lowercase hexadecimal SHA-256 of its label.
pub fn cache_key(source: &GitHubSource) -> (key: String)
    ensures
        key@ == hex_spec(sha256_spec(utf8(github_label(*source)))),
{
    let label = source.label();
    let bytes = utf8_bytes(label.as_str());
    let digest = sha256(bytes.as_slice());
    hex(&digest)
}

/// What the cache makes of a source before touching its files: a path source is
/// unsupported, an invalid GitHub source is corrupt, a valid one gives its identity.
pub fn cache_source(source: &PackageSource) -> (result: Result<GitHubSource, GitHubCacheError>)
    ensures
        match result {
            Ok(g) => source@ == SourceView::GitHub(g.repository@, g.revision@, g.subpath@)
                && source_problems(source@, "source"@).len() == 0,
            Err(GitHubCacheError::UnsupportedSource { source: l }) => source@ is Path && l@ == source_location(source@),
            Err(GitHubCacheError::Corrupt { source: l, detail }) => source@ is GitHub
                && source_problems(source@, "source"@).len() > 0 && l@ == source_location(source@)
                && detail@ == invalid_source_text(source@),
            Err(_) => false,
        },
{
    let github = match source.github_source() {
        Some(github) => github,
        None => return Err(GitHubCacheError::UnsupportedSource { source: source.location() }),
    };
    match validate_source(source, github.label().as_str()) {
        Ok(()) => Ok(github),
        Err(GitHubFetchError::InvalidSource { source: label, detail }) => Err(GitHubCacheError::Corrupt { source: label, detail }),
        Err(_) => Err(GitHubCacheError::UnsupportedSource { source: source.location() }),
    }
}

/// Cached metadata must be of the current format and name the requested source.
pub fn check_cache_metadata(source: &GitHubSource, metadata: &CacheMetadata) -> (result: Result<(), GitHubCacheError>)
    ensures
        match result {
            Ok(()) => metadata.version == 1 && metadata.source@ == github_label(*source),
            Err(GitHubCacheError::Corrupt { source: l, detail }) => !(metadata.version == 1 && metadata.source@
                == github_label(*source)) && l@ == github_label(*source)
                && detail@ == "cache metadata does not match the requested source"@,
            Err(_) => false,
        },
{
    let label = source.label();
    if metadata.version != CACHE_FORMAT_VERSION || !text_equal(metadata.source.as_str(), label.as_str()) {
        return Err(GitHubCacheError::Corrupt {
            source: label,
            detail: String::from_str("cache metadata does not match the requested source"),
        });
    }
    Ok(())
}

/// A cached file may hold at most `max_bytes` bytes.
pub fn check_cached_size(source: &GitHubSource, length: u64, max_bytes: u64) -> (result: Result<(), GitHubCacheError>)
    ensures
        match result {
            Ok(()) => length <= max_bytes,
            Err(GitHubCacheError::Corrupt { source: l, detail }) => length > max_bytes && l@ == github_label(*source)
                && detail@ == "cached file exceeds "@ + decimal(max_bytes as nat) + " bytes"@,
            Err(_) => false,
        },
{
    if length > max_bytes {
        let number = decimal_string(max_bytes);
        return Err(GitHubCacheError::Corrupt {
            source: source.label(),
            detail: String::from_str("cached file exceeds ").concat(number.as_str()).concat(" bytes"),
        });
    }
    Ok(())
}

/// The content digest of an artifact whose manifest bytes parse to `m`: the package digest
/// of `m` in canonical form, its entry path and the entry bytes.
pub open spec fn artifact_digest_of(m: ManifestView, entry: Seq<u8>, digest: Seq<char>) -> bool {
    manifest_problems(m).len() == 0 && exists|c: ManifestView| canonical_manifest(c, m) && digest == #[trigger] package_digest(c, utf8(m.entry), entry)
}

/// What digesting an artifact for the source labelled `label` gives: a manifest that does
/// not parse, or does not validate, makes the entry corrupt; otherwise its package digest.
pub open spec fn artifact_digest_outcome(label: Seq<char>, a: ArtifactView, result: Result<ContentDigest, GitHubCacheError>) -> bool {
    match result {
        Ok(d) => exists|m: Manifest| #[trigger] Manifest::from_bytes_outcome(a.manifest, Ok(m)) && artifact_digest_of(m@, a.entry, d@),
        Err(GitHubCacheError::Corrupt { source, detail }) => source@ == label && (
            (exists|e: ManifestError| #[trigger] Manifest::from_bytes_outcome(a.manifest, Err(e)) && detail@ == manifest_error_text(e))
            || (exists|m: Manifest| #[trigger] Manifest::from_bytes_outcome(a.manifest, Ok(m)) && manifest_problems(m@).len() > 0)),
        Err(_) => false,
    }
}

/// The content digest an artifact is cached under.
pub fn artifact_digest(source: &GitHubSource, artifact: &GitHubArtifact) -> (result: Result<ContentDigest, GitHubCacheError>)
    ensures
        artifact_digest_outcome(github_label(*source), artifact@, result),
{
    let manifest = match Manifest::from_bytes(artifact.manifest.as_slice()) {
        Ok(manifest) => manifest,
        Err(error) => {
            let detail = error.to_string();
            assert(Manifest::from_bytes_outcome(artifact@.manifest, Err(error)));
            return Err(GitHubCacheError::Corrupt { source: source.label(), detail });
        },
    };
    assert(Manifest::from_bytes_outcome(artifact@.manifest, Ok(manifest)));
    match ContentDigest::for_package(&manifest, manifest.entry.as_str(), artifact.entry.as_slice()) {
        Ok(digest) => {
            assert(artifact_digest_of(manifest@, artifact@.entry, digest@));
            Ok(digest)
        },
        Err(error) => Err(GitHubCacheError::Corrupt { source: source.label(), detail: error.to_string() }),
    }
}

/// The artifact digests to a digest that is, or is not (`same`), the recorded one.
pub open spec fn digests_as(label: Seq<char>, a: ArtifactView, recorded: Seq<char>, same: bool) -> bool {
    exists|d: ContentDigest| #[trigger] artifact_digest_outcome(label, a, Ok(d)) && (d@ == recorded) == same
}

/// Serves a cached entry whose files were read: its content digest must be the one its
/// metadata records.
pub fn check_cached_artifact(source: &GitHubSource, recorded_digest: &str, manifest_bytes: Vec<u8>, entry_bytes: Vec<u8>) -> (result: Result<GitHubArtifact, GitHubCacheError>)
    ensures
        match result {
            Ok(a) => a@ == (ArtifactView { manifest: manifest_bytes@, entry: entry_bytes@ })
                && digests_as(github_label(*source), a@, recorded_digest@, true),
            Err(GitHubCacheError::Corrupt { source: l, detail }) => l@ == github_label(*source) && (
                artifact_digest_outcome(github_label(*source), ArtifactView { manifest: manifest_bytes@, entry: entry_bytes@ }, Err(GitHubCacheError::Corrupt { source: l, detail }))
                || (detail@ == "cached content digest does not match metadata"@
                    && digests_as(github_label(*source), ArtifactView { manifest: manifest_bytes@, entry: entry_bytes@ }, recorded_digest@, false))),
            Err(_) => false,
        },
{
    let artifact = GitHubArtifact { manifest: manifest_bytes, entry: entry_bytes };
    let digest = match artifact_digest(source, &artifact) {
        Ok(digest) => digest,
        Err(error) => return Err(error),
    };
    if !text_equal(digest.as_str(), recorded_digest) {
        assert(digests_as(github_label(*source), artifact@, recorded_digest@, false));
        return Err(GitHubCacheError::Corrupt {
            source: source.label(),
            detail: String::from_str("cached content digest does not match metadata"),
        });
    }
    assert(digests_as(github_label(*source), artifact@, recorded_digest@, true));
    Ok(artifact)
}

/// What a cache-first fetch does after looking `source` up in the cache.
#[derive(Debug)]
pub enum CacheLookup {
    /// Serve the cached artifact.
    Hit(GitHubArtifact),
    /// Fetch the artifact, then store it.
    Miss,
    /// Fail with the cache's error.
    Failed(GitHubFetchError),
}

/// The fetch error a cache error becomes for `source`.
pub open spec fn cache_failure(source: SourceView, error: GitHubCacheError, mapped: GitHubFetchError) -> bool {
    mapped matches GitHubFetchError::Cache { source: l, detail } && l@ == source_location(source)
        && detail@ == cache_error_text(error)
}

/// Decides what a cache-first fetch does with what the cache answered for `source`: a
/// cached artifact is served, a missing one is fetched, and a cache error fails the fetch.
pub fn cache_lookup(source: &PackageSource, loaded: Result<Option<GitHubArtifact>, GitHubCacheError>) -> (lookup: CacheLookup)
    ensures
        match loaded {
            Ok(Some(a)) => lookup matches CacheLookup::Hit(b) && b@ == a@,
            Ok(None) => lookup is Miss,
            Err(e) => lookup matches CacheLookup::Failed(f) && cache_failure(source@, e, f),
        },
{
    match loaded {
        Ok(Some(artifact)) => CacheLookup::Hit(artifact),
        Ok(None) => CacheLookup::Miss,
        Err(error) => CacheLookup::Failed(GitHubFetchError::Cache { source: source.location(), detail: error.to_string() }),
    }
}

/// Finishes a cache-first fetch of `source` after storing the fetched `artifact`: the
/// artifact when the store succeeded, the cache's error otherwise.
pub fn cache_stored(source: &PackageSource, artifact: GitHubArtifact, stored: Result<(), GitHubCacheError>) -> (result: Result<GitHubArtifact, GitHubFetchError>)
    ensures
        match stored {
            Ok(()) => result matches Ok(a) && a@ == artifact@,
            Err(e) => result matches Err(f) && cache_failure(source@, e, f),
        },
{
    match stored {
        Ok(()) => Ok(artifact),
        Err(error) => Err(GitHubFetchError::Cache { source: source.location(), detail: error.to_string() }),
    }
}

} // verus!
