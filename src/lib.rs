//! Keeps a directory of managed configuration files ("dotfiles") in step with
//! a home directory through symlinks.
//!
//! Paths are handled as sequences of components; the filesystem is seen
//! through an in-memory snapshot, so every decision of the engine is a pure,
//! verified function of that snapshot.
pub mod paths;
pub mod snapshot;
pub mod dotfiles;
pub mod symlinks;
pub mod laws;
pub mod hooks;
pub mod fileops;
pub mod secrets;
