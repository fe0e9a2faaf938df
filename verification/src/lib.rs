//! A symlink-farm manager: packages kept in a stow directory are installed
//! into a target directory as symbolic links, and removed again.
//!
//! Planning and execution run against an in-memory [`fs_ops::FileSystem`],
//! so every decision the planner takes is a function of that value. The file
//! system records the changes made to it; a program that works on a disk
//! loads what an operation concerns, lets the operation run, and makes the
//! recorded changes on the disk.
//!
//! - [`path_utils`]: paths, joining, relative paths.
//! - [`fs_model`], [`fs_ops`], [`resolve`]: the file system, its value and
//!   its path lookup.
//! - [`ignore`]: ignore and defer patterns.
//! - [`planner`]: actions, plans and their execution.
//! - [`adopt`]: moving or removing what conflicts.
//! - [`stow`], [`unstow`]: the two planners.
//! - [`config`], [`cli`], [`error`]: settings, flags and errors.
//! - [`laws`]: what the planners and the executor guarantee.

pub mod adopt;
pub mod cli;
pub mod config;
pub mod error;
pub mod fs_model;
pub mod fs_ops;
pub mod ignore;
pub mod laws;
pub mod path_utils;
pub mod planner;
pub mod resolve;
pub mod stow;
pub mod unstow;
