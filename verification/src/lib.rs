//! A local package manager core: a declarative repository manifest describes
//! named packages, their versions, file-system paths, binaries and
//! dependencies; the resolver installs a requested package and, transitively,
//! its dependencies into a local store, tracks what is installed, and supports
//! removal and update.
//!
//! Everything here is pure: loading and saving the manifest and the
//! installed-state document, copying binary files, cataloging them and
//! reporting progress are left to the surrounding program, which executes the
//! `Action` list that the resolver returns.

pub mod args;
pub mod lifecycle;
pub mod manifest;
pub mod resolver;
pub mod state;
pub mod text;
