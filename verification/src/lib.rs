//! Safe bulk manipulation of hierarchical key-value parameters:
//! rerooting a collection of path-addressed entries under a new prefix,
//! reconciling hand-edited copies against an original snapshot, and
//! sealed textual export/import between isolated environments.

pub mod cli;
pub mod codec;
pub mod keychain_access;
pub mod parameter_store;
pub mod symmetric_store;
