//! An in-memory, deterministic Bash-like environment: a virtual file system,
//! a shell parser and interpreter, and a few builtins.

pub mod builtins;
pub mod error;
pub mod fs;
pub mod fs_laws;
pub mod limits;
pub mod nested;
pub mod order;
pub mod parser;
pub mod path;
pub mod session;
pub mod shell;
pub mod shell_laws;
pub mod text;

pub use limits::ZillLimits;
pub use session::{CmdOutput, ZillSession};
pub mod tree;
pub mod tree_laws;
