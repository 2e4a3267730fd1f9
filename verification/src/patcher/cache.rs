//! What the patcher remembers between runs.

use vstd::prelude::*;

verus! {

/// The patcher's progress through the list of patches.
#[derive(Clone, Copy, Debug, PartialEq, Eq, Structural)]
pub struct PatcherCache {
    /// Index of the last patch that was applied.
    pub last_patch_index: usize,
}

} // verus!
