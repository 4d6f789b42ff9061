//! The console: line editing and the command table.

#[allow(clippy::module_inception)]
pub mod console;
