//! Verified core of a container-image delta tool.
//!
//! The library holds the logic of the `diff` and `apply` passes: file
//! classification against the source tree, the patch round-trip safety
//! protocol, hardlink bookkeeping, parent-directory mtime records, and the
//! sidecar manifest format. All filesystem access lives outside the library;
//! callers feed file contents and scan events in and perform the returned
//! actions.

pub mod apply;
pub mod cmdline;
pub mod codec;
pub mod diff;
pub mod dockerfile;
pub mod errors;
pub mod mtimes;
pub mod manifest;
pub mod manifest_json;
pub mod paths;
