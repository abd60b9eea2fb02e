use vstd::prelude::*;
use crate::engine::{
    has_root, index_of_root, node_links_ok, spec_lookup, ProtoArray,
};
use crate::fork_choice::ForkChoice;
use crate::root::Root;

verus! {

/// Topological order: every node's parent, when present, sits strictly
/// below it, so a single reverse pass touches every child before its
/// parent.
pub proof fn lemma_topological_order(a: ProtoArray)
    requires
        a.wf(),
    ensures
        forall|i: int|
            0 <= i < a.nodes@.len() ==> (match (#[trigger] a.nodes@[i]).parent {
                Option::Some(p) => (p as int) < i,
                Option::None => true,
            }),
{
    assert forall|i: int|
        0 <= i < a.nodes@.len() implies (match (#[trigger] a.nodes@[i]).parent {
        Option::Some(p) => (p as int) < i,
        Option::None => true,
    }) by {
        assert(node_links_ok(a.nodes@, i));
    }
}

/// Index map consistency: every node's root resolves back to exactly its
/// own index, and no two nodes share a root, so the root-to-index map has
/// exactly one entry per node.
pub proof fn lemma_index_map_consistency(a: ProtoArray)
    requires
        a.wf(),
    ensures
        forall|i: int|
            0 <= i < a.nodes@.len() ==> spec_lookup(a.nodes@, (#[trigger] a.nodes@[i]).root)
                == Option::Some(i as usize),
        forall|i: int, j: int|
            0 <= i < a.nodes@.len() && 0 <= j < a.nodes@.len() && i != j ==> a.nodes@[i].root
                != a.nodes@[j].root,
{
    assert forall|i: int|
        0 <= i < a.nodes@.len() implies spec_lookup(a.nodes@, (#[trigger] a.nodes@[i]).root)
        == Option::Some(i as usize) by {
        crate::engine::lemma_index_of_root(a.nodes@, a.nodes@[i].root, i);
    }
}

/// Anchor alias: the all-zero root and the anchor root resolve to the same
/// root before lookup, so a head query that starts from the zero root
/// behaves exactly as one that starts from the anchor root.
pub proof fn lemma_anchor_alias(fc: ForkChoice)
    requires
        fc.wf(),
    ensures
        fc.spec_remove_alias(Root::spec_zero()) == fc.genesis_block_root,
        fc.spec_remove_alias(Root::spec_zero()) == fc.spec_remove_alias(fc.genesis_block_root),
{
}

/// The zero alias itself is never a stored block: looking it up always
/// misses, which is why remapping it to the anchor loses nothing.
pub proof fn lemma_zero_root_never_stored(a: ProtoArray)
    requires
        a.wf(),
    ensures
        !has_root(a.nodes@, Root::spec_zero()),
{
    if has_root(a.nodes@, Root::spec_zero()) {
        let i = index_of_root(a.nodes@, Root::spec_zero());
        assert(0 <= i < a.nodes@.len() && a.nodes@[i].root == Root::spec_zero());
    }
}

} // verus!
