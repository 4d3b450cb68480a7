//! Core of a small authenticated file server: tag rules, the metadata
//! catalog with its staged-commit algorithm, the node allow-list, content
//! hashing, and the decisions of the content store.

pub mod auth;
pub mod catalog;
pub mod common;
pub mod digest;
pub mod text;
pub mod store;
pub mod tag;

pub use auth::AllowList;
pub use catalog::{validate_tags, Catalog, Committed};
pub use common::{respond, Blob, Cmd, Either, File, FileDesc, FileDescription, Response, StashError, SHA256};
pub use digest::{digest, Hasher};
pub use tag::Tag;
