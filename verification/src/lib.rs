//! Resolution of the dependencies of Jenkins plugins.
//!
//! Given the plugins that are wanted, each pinned to a version, the library
//! finds all that they depend on, directly or not, and hands out one list
//! of packages with their digests, one package for each name.
//!
//! - `jenkins_plugin_version`, `base_version`: versions, how they are read,
//!   written and ordered; `version_laws` holds what is proved of them.
//! - `manifest`: the text of a plugin's manifest and the dependencies that
//!   it declares.
//! - `archive`: the manifest inside a plugin's archive, and the digest of
//!   the archive.
//! - `store`: the cache of archives and manifests, held in memory; reading
//!   and writing the files of the cache, and fetching, is the caller's.
//! - `resolver`: the tree of a plugin and all that it depends on.
//! - `flatten`, `selection`, `roots`: from trees to the list.
//! - `input`: the packages as data; `error`: the failures.
//! - `text`, `natural`, `order`: character sequences, numbers written as
//!   digits, and outcomes of comparisons.

pub mod archive;
pub mod base_version;
pub mod error;
pub mod flatten;
pub mod input;
pub mod jenkins_plugin_version;
pub mod manifest;
pub mod natural;
pub mod order;
pub mod resolver;
pub mod roots;
pub mod selection;
pub mod store;
pub mod text;
pub mod version_laws;
