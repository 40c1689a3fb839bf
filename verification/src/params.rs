use vstd::prelude::*;

verus! {

/// The settings of a run that the pipeline reads.
#[derive(Clone, Copy, Debug, Default)]
pub struct Params {
    /// Digest all of a file's content, not only its leading region.
    pub strict: bool,
    /// Compare a staging tree with a target tree.
    pub comparison_mode: bool,
}

} // verus!
