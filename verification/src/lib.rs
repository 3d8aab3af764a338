//! A small single-branch version-tracking core: a content-addressable object
//! store, an append-only commit chain, a staging area, status classification,
//! and a line-based diff engine.
//!
//! The repository state is modelled in memory; reading it from and writing it
//! back to disk is left to the surrounding application.

mod assoc;
pub mod codec;
pub mod cogit;
pub mod diff;
pub mod errors;
pub mod hashing;
pub mod objects;
pub mod staging;
pub mod text;
