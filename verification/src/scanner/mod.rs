pub mod tree;
pub mod walk;

use vstd::prelude::*;
use tree::FileTree;

verus! {

/// What the scanning thread reports: progress counts (and the path it is
/// at), the finished tree, or an error.
pub enum ScanProgress {
    Counting {
        files: usize,
        dirs: usize,
        bytes: u64,
        errors: usize,
        current_path: Option<String>,
    },
    Done(FileTree),
    Error(String),
}

} // verus!
