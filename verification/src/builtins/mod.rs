//! The builtin commands.
pub mod args;
pub mod basic;
pub mod files;
pub mod rg;
pub mod fd;
