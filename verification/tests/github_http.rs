use std::collections::BTreeMap;
use std::sync::Mutex;

use aipo::package::github::{GitHubArtifact, GitHubFetchError, GitHubFetcher};
use aipo::package::github_http::{
    artifact_digest, cache_key, cache_lookup, cache_stored, CacheLookup, cache_source, check_cache_metadata, check_cached_artifact,
    check_cached_size, join_remote_path, map_transport_error, raw_url, response_bytes, CacheMetadata,
    GitHubCache, GitHubCacheError, GitHubHttpConfig, GitHubHttpFetcher, GitHubHttpResponse,
    GitHubHttpTransport, GitHubHttpTransportError,
};
use aipo::package::lock::{GitHubSource, PackageSource};

struct FakeTransport {
    responses: BTreeMap<String, GitHubHttpResponse>,
    requests: Mutex<Vec<String>>,
}

struct ErrorTransport {
    error: GitHubHttpTransportError,
}

impl GitHubHttpTransport for ErrorTransport {
    fn get(&self, _url: &str, _max_bytes: u64) -> Result<GitHubHttpResponse, GitHubHttpTransportError> {
        Err(self.error.clone())
    }
}

impl GitHubHttpTransport for FakeTransport {
    fn get(&self, url: &str, _max_bytes: u64) -> Result<GitHubHttpResponse, GitHubHttpTransportError> {
        self.requests.lock().expect("lock").push(url.to_string());
        self.responses
            .get(url)
            .cloned()
            .ok_or_else(|| GitHubHttpTransportError::Request("fixture miss".to_string()))
    }
}

fn source() -> GitHubSource {
    PackageSource::github_at("acme/packages", "0123456789abcdef0123456789abcdef01234567", "packages/http")
        .expect("source")
        .github_source()
        .expect("github source")
}

fn package_source(source: &GitHubSource) -> PackageSource {
    PackageSource::GitHub {
        repository: source.repository.clone(),
        revision: source.revision.clone(),
        subpath: source.subpath.clone(),
    }
}

fn manifest() -> Vec<u8> {
    b"[package]\nname = \"acme.http\"\nversion = \"1.0.0\"\nentry = \"src/main.aipo\"\n".to_vec()
}

fn entry() -> Vec<u8> {
    b"export answer\nfn answer()\nreturn 42\nend\n".to_vec()
}

fn ok(body: Vec<u8>) -> GitHubHttpResponse {
    GitHubHttpResponse { status: 200, location: None, body }
}

#[test]
fn fetches_manifest_then_entry_without_credentials() {
    let source = source();
    let base = format!("https://raw.githubusercontent.com/acme/packages/{}/packages/http", source.revision);
    let mut responses = BTreeMap::new();
    responses.insert(format!("{base}/aipo.toml"), ok(manifest()));
    responses.insert(format!("{base}/src/main.aipo"), ok(entry()));
    let transport = FakeTransport { responses, requests: Mutex::new(Vec::new()) };
    let fetcher = GitHubHttpFetcher::with_transport(transport);
    let artifact = GitHubFetcher::fetch(&fetcher, &package_source(&source)).expect("fetch succeeds");
    assert_eq!(artifact.manifest, manifest());
    assert_eq!(artifact.entry, entry());
}

#[test]
fn rejects_status_redirect_and_transport_failures() {
    let source = source();
    let package_source = package_source(&source);
    let url = raw_url(&source, "aipo.toml").expect("url");
    let mut responses = BTreeMap::new();
    responses.insert(
        url.clone(),
        GitHubHttpResponse { status: 302, location: Some("https://evil.example".to_string()), body: Vec::new() },
    );
    let transport = FakeTransport { responses, requests: Mutex::new(Vec::new()) };
    let fetcher = GitHubHttpFetcher::with_transport(transport);
    assert!(matches!(
        GitHubFetcher::fetch(&fetcher, &package_source),
        Err(GitHubFetchError::Redirect { status: 302, .. })
    ));

    let transport = FakeTransport { responses: BTreeMap::new(), requests: Mutex::new(Vec::new()) };
    let fetcher = GitHubHttpFetcher::with_transport(transport);
    assert!(matches!(
        GitHubFetcher::fetch(&fetcher, &package_source),
        Err(GitHubFetchError::Transport { .. })
    ));
}

#[test]
fn maps_transport_timeout_and_size_errors() {
    let source = source();
    let package_source = package_source(&source);
    let timeout = GitHubHttpFetcher::with_transport(ErrorTransport { error: GitHubHttpTransportError::Timeout });
    assert!(matches!(
        GitHubFetcher::fetch(&timeout, &package_source),
        Err(GitHubFetchError::Transport { .. })
    ));
    let oversized = GitHubHttpFetcher::with_transport(ErrorTransport {
        error: GitHubHttpTransportError::ResponseTooLarge { limit: 7 },
    });
    assert!(matches!(
        GitHubFetcher::fetch(&oversized, &package_source),
        Err(GitHubFetchError::ResponseTooLarge { limit: 7, .. })
    ));
}

#[test]
fn raw_urls_address_files_at_the_exact_commit() {
    let source = source();
    assert_eq!(
        raw_url(&source, "aipo.toml").expect("url"),
        "https://raw.githubusercontent.com/acme/packages/0123456789abcdef0123456789abcdef01234567/packages/http/aipo.toml"
    );
    let bare = GitHubSource {
        repository: "acme".to_string(),
        revision: source.revision.clone(),
        subpath: ".".to_string(),
    };
    assert_eq!(raw_url(&bare, "aipo.toml"), Err("GitHub repository is not owner/repository".to_string()));
}

#[test]
fn remote_paths_are_normalized_or_refused() {
    assert_eq!(join_remote_path(".", "src/main.aipo"), Ok("src/main.aipo".to_string()));
    assert_eq!(join_remote_path("packages/http", "./src//main.aipo"), Ok("packages/http/src/main.aipo".to_string()));
    assert_eq!(
        join_remote_path(".", "../escape"),
        Err("remote path contains parent traversal".to_string())
    );
    assert_eq!(
        join_remote_path(".", "/etc/passwd"),
        Err("remote path is empty or contains an unsafe character".to_string())
    );
    assert_eq!(
        join_remote_path(".", "a\\b"),
        Err("remote path is empty or contains an unsafe character".to_string())
    );
    assert_eq!(
        join_remote_path(".", "src/ma in.aipo"),
        Err("remote path contains an unsupported character".to_string())
    );
    assert_eq!(join_remote_path(".", "./."), Err("remote path is empty".to_string()));
    assert_eq!(
        join_remote_path(".", ""),
        Err("remote path is empty or contains an unsafe character".to_string())
    );
}

#[test]
fn responses_map_to_bytes_or_fetch_errors() {
    let source = source();
    let label = format!("github:acme/packages@{}/packages/http", source.revision);
    assert_eq!(response_bytes(&source, Ok(ok(b"abc".to_vec())), 3), Ok(b"abc".to_vec()));
    assert_eq!(
        response_bytes(&source, Ok(ok(b"abcd".to_vec())), 3),
        Err(GitHubFetchError::ResponseTooLarge { source: label.clone(), limit: 3 })
    );
    let missing = GitHubHttpResponse { status: 404, location: None, body: Vec::new() };
    assert_eq!(response_bytes(&source, Ok(missing), 3), Err(GitHubFetchError::NotFound { source: label.clone() }));
    let failing = GitHubHttpResponse { status: 500, location: None, body: Vec::new() };
    assert_eq!(
        response_bytes(&source, Ok(failing), 3),
        Err(GitHubFetchError::HttpStatus { source: label.clone(), status: 500 })
    );
    assert_eq!(
        map_transport_error(&source, GitHubHttpTransportError::Timeout),
        GitHubFetchError::Transport { source: label, detail: "request timed out".to_string() }
    );
    assert_eq!(GitHubHttpTransportError::ResponseTooLarge { limit: 9 }.to_string(), "HTTP response exceeded 9 bytes");
}

#[test]
fn fetcher_limits_and_config_defaults() {
    let fetcher = GitHubHttpFetcher::with_transport(ErrorTransport { error: GitHubHttpTransportError::Timeout });
    assert_eq!(fetcher.max_response_bytes(), 4 * 1024 * 1024);
    let fetcher = fetcher.with_max_response_bytes(12);
    assert_eq!(fetcher.max_response_bytes(), 12);
    let config = GitHubHttpConfig::default();
    assert_eq!(config.max_response_bytes, 4 * 1024 * 1024);
    assert_eq!(config.timeout, std::time::Duration::from_secs(10));
    assert_eq!(config.user_agent, "aipo-package/0.1.0");
}

#[test]
fn fetcher_refuses_an_entry_outside_the_package() {
    let source = source();
    let base = format!("https://raw.githubusercontent.com/acme/packages/{}/packages/http", source.revision);
    let mut responses = BTreeMap::new();
    responses.insert(
        format!("{base}/aipo.toml"),
        ok(b"[package]\nname = \"acme.http\"\nversion = \"1.0.0\"\nentry = \"../main.aipo\"\n".to_vec()),
    );
    let fetcher = GitHubHttpFetcher::with_transport(FakeTransport { responses, requests: Mutex::new(Vec::new()) });
    let result = GitHubFetcher::fetch(&fetcher, &package_source(&source));
    assert!(matches!(result, Err(GitHubFetchError::InvalidResponse { .. })), "{result:?}");
}

#[test]
fn cache_checks_sources_metadata_sizes_and_digests() {
    let cache = GitHubCache::new("/tmp/aipo-cache").with_max_file_bytes(64);
    assert_eq!(cache.root(), "/tmp/aipo-cache");
    assert_eq!(cache.max_file_bytes(), 64);
    assert_eq!(GitHubCache::new("x").max_file_bytes(), 4 * 1024 * 1024);

    let local = PackageSource::path("local").expect("path");
    assert_eq!(cache_source(&local), Err(GitHubCacheError::UnsupportedSource { source: "local".to_string() }));
    let source = source();
    let github = cache_source(&package_source(&source)).expect("github source");
    assert_eq!(github, source);
    assert_eq!(cache_key(&source).len(), 64);
    assert_ne!(cache_key(&source), cache_key(&GitHubSource { subpath: ".".to_string(), ..source.clone() }));

    let artifact = GitHubArtifact::new(&manifest(), &entry());
    let digest = artifact_digest(&source, &artifact).expect("digest");
    let metadata = CacheMetadata::for_entry(&source, &digest);
    assert_eq!(metadata.version, 1);
    assert_eq!(check_cache_metadata(&source, &metadata), Ok(()));
    let stale = CacheMetadata { version: 2, ..metadata.clone() };
    assert!(matches!(check_cache_metadata(&source, &stale), Err(GitHubCacheError::Corrupt { .. })));

    assert_eq!(check_cached_size(&source, 64, 64), Ok(()));
    let oversized = check_cached_size(&source, 65, 64).expect_err("too large");
    assert!(oversized.to_string().ends_with("is corrupt: cached file exceeds 64 bytes"));

    let served = check_cached_artifact(&source, &metadata.digest, manifest(), entry()).expect("served");
    assert_eq!(served.entry, entry());
    let corrupt = check_cached_artifact(&source, &metadata.digest, manifest(), b"corrupt".to_vec())
        .expect_err("digest mismatch");
    assert_eq!(
        corrupt,
        GitHubCacheError::Corrupt {
            source: format!("github:acme/packages@{}/packages/http", source.revision),
            detail: "cached content digest does not match metadata".to_string(),
        }
    );
}

#[test]
fn cache_first_fetch_serves_hits_fetches_misses_and_reports_cache_errors() {
    let source = PackageSource::github_at("acme/packages", "0123456789abcdef0123456789abcdef01234567", ".")
        .expect("source");
    let artifact = GitHubArtifact::new(&manifest(), &entry());
    match cache_lookup(&source, Ok(Some(artifact.duplicate()))) {
        CacheLookup::Hit(hit) => assert_eq!(hit.manifest, artifact.manifest),
        other => panic!("unexpected {other:?}"),
    }
    assert!(matches!(cache_lookup(&source, Ok(None)), CacheLookup::Miss));
    let broken = GitHubCacheError::Io { path: "/cache".to_string(), detail: "denied".to_string() };
    match cache_lookup(&source, Err(broken.clone())) {
        CacheLookup::Failed(GitHubFetchError::Cache { source: label, detail }) => {
            assert_eq!(label, source.location());
            assert_eq!(detail, "GitHub cache I/O '/cache': denied");
        }
        other => panic!("unexpected {other:?}"),
    }
    assert_eq!(cache_stored(&source, artifact.duplicate(), Ok(())).expect("stored").entry, artifact.entry);
    assert!(matches!(cache_stored(&source, artifact, Err(broken)), Err(GitHubFetchError::Cache { .. })));
}
