//! What the command line needs besides the library proper.

pub mod config;
