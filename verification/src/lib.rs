//! Discovery and reconciliation engine for a directory tree of git working
//! copies: a record type for one discovered repository, the collector that
//! filters a directory walk down to repositories, the manifest codec that
//! persists the records, and the reconciliation decisions (sync plans,
//! restore destinations, conflict handling).
//!
//! Filesystem and network work (walking directories, probing `.git`,
//! talking to remotes) happens outside this crate; everything here is pure
//! logic over the values such work observes, and is verified.

pub mod codec;
pub mod collect;
pub mod pack;
pub mod paths;
pub mod reconcile;
