//! A git smart-protocol pack negotiation client, verified.
//!
//! The library holds the pure core of a tool that exposes selected branches
//! of a git repository for peer-to-peer retrieval: the pkt-line codec, the
//! want/have negotiation state machine, the reference-list parsing and
//! branch selection, the export-settings bookkeeping, and the error type.
//! Process pipes, files and the command line live outside it and hand it
//! plain values.

pub mod codec;
pub mod config;
pub mod engine;
pub mod error;
pub mod git;
pub mod settings;
pub mod util;
