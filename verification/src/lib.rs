//! The verified core of an encrypted, block-deduplicated file synchroniser.
//!
//! Files are cut into blocks, each named by a keyed hash (`block_xfer`).
//! Objects, directories and directory versions are encrypted before they
//! reach the server (`server::crypt`). The keys come from passphrases, of
//! which the server keeps a registry (`server::kdf`) in a stored form of its
//! own (`server::wire`). The registry is edited (`server::edits`) within
//! transactions on the server (`server::keymgmt`), and every edit keeps what
//! must not be lost (`server::invariants`). `cli::config` holds the rules by
//! which the settings of a configuration file are read.

pub mod block_xfer;
pub mod cli;
pub mod defs;
pub mod errors;
pub mod server;
