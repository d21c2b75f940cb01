# aipo

The package, host and runtime core of the aipo language, verified with Verus.

- `src/` is the library: package coordinates, manifests and lockfiles, content
  digests, the decisions of local path discovery, the resolver of in-memory package
  inputs, the walk of a pinned GitHub graph, the HTTP fetch of GitHub raw files over a
  transport seam, the checks of the artifact cache, host capabilities, handles and
  schemas, the runtime module graph, and the lexer. Its functions are verified against
  their `requires` / `ensures` contracts; the few calls into std and outside crates
  (SHA-256, TOML parsing, Unicode tables) sit behind small trusted wrappers whose
  contracts are stated, not proved.
- `app/` is the I/O shell around it, in ordinary Rust: local path discovery over the
  file system, the HTTPS transport, the on-disk artifact cache and the fetcher that
  serves it first, the TOML and JSON forms of manifests and the lockfile, and the JSON
  form of a host surface description.
- `tests/` runs the library on concrete values.
