//! Home-relative dotfile synchronization engine.
//!
//! The library models the two filesystem roots involved in a backup run --
//! the user's home directory and a repository working tree -- as explicit
//! values, and verifies the decisions both engines make: how a configured
//! path spec is resolved to a home-relative path, how a snapshot mirrors
//! tracked paths into the working tree while diverting symbolic links into
//! a keyed ledger, and how a restore replays the tree and the ledger back.

pub mod bundles;
pub mod config;
pub mod fsmodel;
pub mod laws;
pub mod ledger;
pub mod paths;
pub mod restore;
pub mod selection;
pub mod snapshot;
pub mod strset;
pub mod text;
