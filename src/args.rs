use vstd::prelude::*;

verus! {

/// How a size is written out.
#[derive(Clone, Copy, Debug, PartialEq, Eq, Structural)]
pub enum DisplayFormat {
    /// The number of bytes.
    Bytes,
    /// Kilobytes of 1024 bytes, rounded up.
    Kilobytes,
    /// Human-readable units of 1024 (KiB, MiB, GiB).
    Binary,
    /// Human-readable units of 1000 (kB, MB, GB).
    Decimal,
}

impl Default for DisplayFormat {
    fn default() -> (r: Self)
        ensures
            r == DisplayFormat::Decimal,
    {
        DisplayFormat::Decimal
    }
}

/// What a run measures and how it is reported.
#[derive(Clone, Debug)]
pub struct Args {
    /// The root of the walk.
    pub path: String,
    /// How sizes are written out.
    pub format: DisplayFormat,
    /// Report only the total of the root.
    pub summarize: bool,
    /// Report every file as well as the directories.
    pub all: bool,
    /// Directories are reported while their depth is below this, files while
    /// their depth is at most this; the root has depth 0.
    pub max_depth: usize,
    /// Follow symbolic links while walking.
    pub follow_links: bool,
    /// Count the bytes of content instead of the allocated blocks.
    pub logical: bool,
}

/// Whether directories below the root are reported: not when only a
/// summary without files is asked for.
pub open spec fn shows_dirs(args: Args) -> bool {
    !args.summarize || args.all
}

} // verus!
