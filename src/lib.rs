use vstd::prelude::*;

pub mod args;
pub mod disk_usage;
pub mod laws;
pub mod order;
pub mod traversal;

pub use args::{Args, DisplayFormat};
pub use disk_usage::DiskUsage;
pub use traversal::{calculate_usage, RootKind, UsageError, WalkEntry};

verus! {

/// Number of bytes in one allocation block as reported by the file system.
pub const BLOCK_SIZE: u64 = 512;

} // verus!
