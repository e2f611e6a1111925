//! Sentinel: turns `#:` and `# @rbs` annotations in Ruby sources into RBS
//! signature files, lints the generated signatures, and keeps the small amount
//! of configuration that drives the watcher.

pub mod text;
pub mod syntax;
pub mod balance;
pub mod annotations;
pub mod format;
pub mod shared;
pub mod structure;
pub mod emit;
pub mod transpiler;
pub mod plugin;
pub mod config;
pub mod paths;
pub mod check;
pub mod watch;
