//! Portable, versioned snapshots of a Nix closure: validation of snapshot
//! metadata, deterministic export, and the decisions of the snapshot
//! commands. Reading and comparing snapshots never consults a Nix store.
pub mod command;
pub mod export;
pub mod order;
pub mod snapshot_file;
pub mod store_path;
