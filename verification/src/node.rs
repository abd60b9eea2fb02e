use vstd::prelude::*;
use crate::root::Root;

verus! {

/// One block in the proto-array. Identity is the index in the array.
#[derive(Clone, Copy, Debug)]
pub struct ProtoNode {
    /// 32-byte block identifier, unique within the array and never the
    /// all-zero alias.
    pub root: Root,
    /// Index of the parent block. `None` only for the anchor at index 0.
    pub parent: Option<usize>,
    /// The justified epoch observed when the block was processed.
    pub justified_epoch: u64,
    /// The finalized epoch observed when the block was processed.
    pub finalized_epoch: u64,
    /// Sum of the effective balances of the validators whose latest message
    /// points into this node's subtree.
    pub weight: u64,
    /// The child currently favored by the tiebreak rule, if any.
    pub best_child: Option<usize>,
    /// The deepest favored descendant reachable via repeated `best_child`
    /// links; equals `best_child` when that child is a leaf.
    pub best_descendant: Option<usize>,
}

impl ProtoNode {
    /// The tiebreak order: higher weight wins; on a weight tie, the
    /// lexicographically larger root wins. A node is better than itself.
    pub open spec fn spec_better_than(self, other: ProtoNode) -> bool {
        if self.weight == other.weight {
            self.root.spec_ge(other.root)
        } else {
            self.weight >= other.weight
        }
    }

    /// Returns `true` if `self` is "better" than `other`, according to
    /// either weight or root.
    ///
    /// If `self == other`, then `true` is returned.
    pub fn is_better_than(&self, other: &Self) -> (r: bool)
        ensures
            r == self.spec_better_than(*other),
    {
        if self.weight == other.weight {
            self.root.ge(&other.root)
        } else {
            self.weight >= other.weight
        }
    }

    /// Viability for head: the node's recorded epochs match the engine's
    /// current (justified, finalized) pair.
    pub open spec fn spec_viable(self, justified_epoch: u64, finalized_epoch: u64) -> bool {
        self.justified_epoch == justified_epoch && self.finalized_epoch == finalized_epoch
    }
}

/// The tiebreak order is transitive.
pub proof fn lemma_better_than_transitive(a: ProtoNode, b: ProtoNode, c: ProtoNode)
    requires
        a.spec_better_than(b),
        b.spec_better_than(c),
    ensures
        a.spec_better_than(c),
{
}

/// The tiebreak order is total, and antisymmetric on nodes with distinct
/// roots: of two nodes at least one is better, and when the roots differ
/// only one is.
pub proof fn lemma_better_than_total(a: ProtoNode, b: ProtoNode)
    ensures
        a.spec_better_than(b) || b.spec_better_than(a),
        a.root != b.root ==> !(a.spec_better_than(b) && b.spec_better_than(a)),
{
}

} // verus!
