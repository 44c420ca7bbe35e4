//! A library for discovering "cleanable" project directories (recognised by
//! marker files such as `Cargo.toml` or `package.json`) and for deciding which
//! of their dependency/build subdirectories are safe to delete, based on how
//! recently any file in the project tree was modified.
//!
//! The library works on an explicit in-memory model of the directory tree
//! (`fs_model::FsTree`); reading the real filesystem, printing and deleting
//! are left to the surrounding application.

pub mod analyse;
pub mod detect;
pub mod discover;
pub mod fs_model;
pub mod ignore;
pub mod languages;
pub mod out;
pub mod overrides;
pub mod settings;
pub mod project;
pub mod queue;
pub mod text;
pub mod time_ago;
