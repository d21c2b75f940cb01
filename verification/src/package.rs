//! Package identity, manifests, lockfiles and deterministic resolution.
pub mod capabilities;
pub mod coordinate;
pub mod digest;
pub mod discovery;
pub mod error;
pub mod github;
pub mod github_http;
pub mod graph;
pub mod json;
pub mod lock;
pub mod lock_laws;
pub mod lockfile;
pub mod manifest;
pub mod manifest_decode;
pub mod manifest_wire;
pub mod order;
pub mod resolver;
pub mod toml_doc;
pub mod walk;
