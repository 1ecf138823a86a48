//! Profile persistence for a game-launcher-style application.
//!
//! The library owns the data model for launch profiles (name, application
//! variant, render backend, feature-flag overrides), an in-memory store
//! keyed by 128-bit identifiers, and the binary snapshot codec with which
//! the whole store is persisted as a single record.  Opening the embedded
//! database and moving bytes to and from disk is left to the surrounding
//! application; everything that decides or computes is here, verified.

pub mod codec;
pub mod config;
pub mod dirs;
pub mod fs;
pub mod ident;
pub mod laws;
pub mod profile;
