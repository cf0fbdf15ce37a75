//! What the client needs to know about data kept on the server.

pub mod crypt;
pub mod edits;
pub mod invariants;
pub mod kdf;
pub mod keymgmt;
pub mod wire;
