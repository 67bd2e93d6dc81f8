//! Password-encrypted vaults of environment variables and directories.
pub mod commands;
pub mod crypto;
pub mod dirrun;
pub mod dirvault;
pub mod fingerprint;
pub mod integrity;
pub mod journal;
pub mod namespace;
pub mod order;
pub mod password;
pub mod path;
pub mod primitives;
pub mod run;
pub mod sandbox;
pub mod secret;
pub mod shim;
pub mod store;
pub mod text;
pub mod tree;
pub mod tui;
pub mod vault;
