//! The state of a run: the filename index, which is only read, and the
//! statistics, which only grow.

use vstd::prelude::*;
use crate::counts::Counts;
use crate::index::FilenameIndex;

verus! {

/// What a run carries from one document to the next.
#[derive(Debug)]
pub struct Context {
    /// The known files by base name.
    pub filenames: FilenameIndex,
    /// The statistics so far.
    pub count: Counts,
}

impl Context {
    /// A run over the files of `filenames` that has seen no reference yet.
    pub fn new(filenames: FilenameIndex) -> (res: Context)
        ensures
            res.filenames == filenames,
            res.count == Counts::zero(),
    {
        Context { filenames, count: Counts::new() }
    }
}

} // verus!
