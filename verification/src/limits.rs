use vstd::prelude::*;

verus! {

/// Resource limits for a session.
#[derive(Debug, Clone, Copy)]
pub struct ZillLimits {
    /// Maximum number of nodes (files and directories) in the file system.
    pub max_nodes: usize,
    /// Maximum size of a single file in bytes.
    pub max_file_size: usize,
    /// Maximum number of matches reported by one `rg` command.
    pub max_match_count: u64,
    /// Maximum size in bytes of the output of one command.
    pub max_output_size: usize,
}

impl Default for ZillLimits {
    fn default() -> (r: Self)
        ensures
            r.max_nodes == 10000,
            r.max_file_size == 1024 * 1024,
            r.max_match_count == 1000,
            r.max_output_size == 100 * 1024,
    {
        ZillLimits {
            max_nodes: 10000,
            max_file_size: 1024 * 1024,
            max_match_count: 1000,
            max_output_size: 100 * 1024,
        }
    }
}

} // verus!
