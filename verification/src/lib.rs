//! GhostFS: dependency virtualization for JavaScript projects.
//!
//! Packages are kept once in a global content-addressed store and resolved
//! from there; this crate holds the verified logic behind it.

pub mod fspath;

pub mod text;
pub mod strmap;
pub mod versioning;
pub mod range;
pub mod registry;
pub mod resolver;
pub mod manifest;
pub mod lockfile;
pub mod store;
pub mod hash;
pub mod installer;
pub mod linker;
pub mod scaffold;
pub mod cli;
