//! A stake-weighted BFT ordering core: a DAG-structured mempool that certifies
//! batches of transactions per round, and a leader-based consensus engine that
//! walks the certificate DAG and emits a deterministic total order.
//!
//! The crate holds the protocol's decision logic: quorum arithmetic, message
//! validation, vote and certificate aggregation, causal-completeness buffering,
//! leader selection, the commit rule, and the ordering walk. Networking,
//! persistence, and cryptographic hashing/signing live at the edge: messages
//! arrive here as plain values together with the verdict of the signature
//! check, and content digests are opaque 64-bit identifiers supplied by the
//! hashing layer.

pub mod config;
pub mod consensus;
pub mod primary;
pub mod types;
pub mod worker;
