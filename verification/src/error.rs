use vstd::prelude::*;
use crate::root::Root;

verus! {

/// Everything the fork-choice core can fail with.
///
/// Three categories. Corruption: `InvalidNodeIndex`, `InvalidNodeDelta`,
/// `InvalidParentIndex`, `InvalidBestChildIndex`, `InvalidBestDescendant`,
/// `InvalidJustifiedIndex`, `DeltaOverflow`, `IndexOverflow`,
/// `InvalidDeltaLen`: an invariant breach, the engine is poisoned. Caller
/// contract violations: `UnknownParent`, `InvalidFindHeadStartRoot`,
/// `InvalidFinalizedRootChange`, `RevertedFinalizedEpoch`: the engine is
/// unchanged. Lookup misses: `MissingBlock`, `JustifiedNodeUnknown`,
/// `FinalizedNodeUnknown`: expected in normal operation.
#[derive(Clone, Debug)]
pub enum Error {
    MissingBlock(Root),
    MissingState(Root),
    UnknownParent(Root),
    UnknownJustifiedBlock(Root),
    InvalidDeltaLen { deltas: usize, indices: usize },
    InvalidNodeIndex(usize),
    InvalidNodeDelta(usize),
    InvalidParentIndex(usize),
    InvalidBestChildIndex(usize),
    InvalidBestDescendant(usize),
    DeltaOverflow(usize),
    IndexOverflow(usize),
    InvalidFinalizedRootChange,
    RevertedFinalizedEpoch,
    JustifiedNodeUnknown(Root),
    FinalizedNodeUnknown(Root),
    InvalidJustifiedIndex(usize),
    InvalidFindHeadStartRoot,
    BackendError(String),
}

} // verus!
