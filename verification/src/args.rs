//! The options of a run.

use std::path::PathBuf;
use vstd::prelude::*;

verus! {

/// `std::path::PathBuf`, carried as an opaque value.
#[verifier::external_type_specification]
#[verifier::external_body]
pub struct ExPathBuf(PathBuf);

/// The number of entries in one spilled batch where the options name none.
pub const DEFAULT_BATCH_SIZE: usize = 2_000_000;

/// The size of the worker pool where the machine reports no parallelism.
pub const FALLBACK_THREADS: usize = 4;

/// The options of a run.
#[derive(Debug)]
pub struct Args {
    /// The path of the input file.
    pub input: String,
    /// The path of the output file.
    pub output: String,
    /// Whether duplicates are dropped from the output instead of marked.
    pub remove_duplicates: bool,
    /// The size of the worker pool.
    pub threads: usize,
    /// The number of entries in one spilled batch.
    pub batch_size: usize,
    /// The directory under which spill files are made.
    pub tmp_dir: Option<PathBuf>,
    /// Whether the worker pool is held to one thread.
    pub single_threaded: bool,
}

/// The size of the worker pool that the options ask for: one where a single
/// thread is forced, the number of threads otherwise.
pub fn effective_threads(args: &Args) -> (n: usize)
    ensures
        n == if args.single_threaded {
            1
        } else {
            args.threads
        },
{
    if args.single_threaded {
        1
    } else {
        args.threads
    }
}

} // verus!
