//! Forked-chain contract testing: a local, call-scoped overlay of contract
//! storage, balances and contract metadata layered over a live snapshot of a
//! remote chain.  The library holds the verified logic: the merge of overlay
//! and paginated remote storage under a numeric key order, the querier
//! emulation that answers local-first and falls back to the remote chain, the
//! contract-bytecode resolver, address translation, and the binary envelope
//! that crosses the isolation boundary.  Network transport and the
//! virtual machine itself live outside the library; every remote interaction
//! is surfaced as a request value that the caller fulfils and feeds back.

pub mod address;
pub mod analyzer;
pub mod bank;
pub mod codec;
pub mod contract;
pub mod fork_storage;
pub mod keeper;
pub mod keys;
pub mod local_storage;
pub mod merge;
pub mod model;
pub mod querier;
pub mod text;
