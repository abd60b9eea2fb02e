use vstd::prelude::*;
use crate::error::Error;
use crate::node::{lemma_better_than_total, lemma_better_than_transitive, ProtoNode};
use crate::root::Root;

verus! {

/// `best_descendant` of a child, or the child itself when it has none.
pub open spec fn opt_descendant(o: Option<usize>, c: usize) -> Option<usize> {
    match o {
        Option::Some(d) => Option::Some(d),
        Option::None => Option::Some(c),
    }
}

/// Per-node link sanity: parents sit strictly below their children, a
/// best-child points at an actual child above the node, a best-descendant
/// sits above the node, and the two pointers are set or cleared together.
pub open spec fn node_links_ok(s: Seq<ProtoNode>, i: int) -> bool {
    &&& (match s[i].parent {
        Option::Some(p) => (p as int) < i,
        Option::None => true,
    })
    &&& (match s[i].best_child {
        Option::Some(c) => i < c as int && (c as int) < s.len() && s[c as int].parent
            == Option::Some(i as usize),
        Option::None => true,
    })
    &&& (match s[i].best_descendant {
        Option::Some(d) => i < d as int && (d as int) < s.len(),
        Option::None => true,
    })
    &&& (s[i].best_child is Some <==> s[i].best_descendant is Some)
}

pub open spec fn links_ok(s: Seq<ProtoNode>) -> bool {
    forall|i: int| 0 <= i < s.len() ==> node_links_ok(s, i)
}

/// Index injectivity: no two nodes share a root.
pub open spec fn roots_distinct(s: Seq<ProtoNode>) -> bool {
    forall|i: int, j: int|
        0 <= i < s.len() && 0 <= j < s.len() && i != j ==> s[i].root != s[j].root
}

/// The all-zero alias is never stored.
pub open spec fn roots_nonzero(s: Seq<ProtoNode>) -> bool {
    forall|i: int| 0 <= i < s.len() ==> !s[i].root.spec_is_zero()
}

pub open spec fn has_root(s: Seq<ProtoNode>, root: Root) -> bool {
    exists|i: int| 0 <= i < s.len() && s[i].root == root
}

/// The index a root resolves to; meaningful when `has_root` holds and
/// `roots_distinct` makes it unique.
pub open spec fn index_of_root(s: Seq<ProtoNode>, root: Root) -> int {
    choose|i: int| 0 <= i < s.len() && s[i].root == root
}

pub open spec fn spec_lookup(s: Seq<ProtoNode>, root: Root) -> Option<usize> {
    if has_root(s, root) {
        Option::Some(index_of_root(s, root) as usize)
    } else {
        Option::None
    }
}

/// With distinct roots, a root resolves to exactly one index.
pub proof fn lemma_index_of_root(s: Seq<ProtoNode>, root: Root, i: int)
    requires
        roots_distinct(s),
        0 <= i < s.len(),
        s[i].root == root,
    ensures
        has_root(s, root),
        index_of_root(s, root) == i,
{
    assert(has_root(s, root));
    let j = index_of_root(s, root);
    assert(0 <= j < s.len() && s[j].root == root);
}

/// Viable best-child pointers, stated over the bare node sequence.
pub open spec fn nodes_pointers_viable(s: Seq<ProtoNode>, jep: u64, fep: u64) -> bool {
    forall|i: int|
        0 <= i < s.len() ==> (match (#[trigger] s[i]).best_child {
            Option::Some(c) => s[c as int].spec_viable(jep, fep),
            Option::None => true,
        })
}

/// The two forms of pointer viability coincide.
pub proof fn lemma_pointers_viable_bridge(a: ProtoArray)
    ensures
        a.pointers_viable() <==> nodes_pointers_viable(
            a.nodes@,
            a.justified_epoch,
            a.finalized_epoch,
        ),
{
    if a.pointers_viable() {
        assert forall|i: int|
            0 <= i < a.nodes@.len() implies (match (#[trigger] a.nodes@[i]).best_child {
            Option::Some(c) => a.nodes@[c as int].spec_viable(
                a.justified_epoch,
                a.finalized_epoch,
            ),
            Option::None => true,
        }) by {
            assert(a.bc_viable_at(i));
        }
    }
    if nodes_pointers_viable(a.nodes@, a.justified_epoch, a.finalized_epoch) {
        assert forall|i: int| 0 <= i < a.nodes@.len() implies a.bc_viable_at(i) by {
            assert(match a.nodes@[i].best_child {
                Option::Some(c) => a.nodes@[c as int].spec_viable(
                    a.justified_epoch,
                    a.finalized_epoch,
                ),
                Option::None => true,
            });
        }
    }
}

/// Two arrays of the same tree shape resolve every root identically: the
/// lookup goes by roots alone, which a score pass never changes.
pub proof fn lemma_lookup_shape_eq(s1: Seq<ProtoNode>, s2: Seq<ProtoNode>, root: Root)
    requires
        shape_eq(s1, s2),
        roots_distinct(s1),
    ensures
        has_root(s1, root) == has_root(s2, root),
        spec_lookup(s1, root) == spec_lookup(s2, root),
{
    assert forall|i: int, j: int|
        0 <= i < s2.len() && 0 <= j < s2.len() && i != j implies s2[i].root != s2[j].root by {
        assert(s1[i].root == s2[i].root);
        assert(s1[j].root == s2[j].root);
    }
    if has_root(s1, root) {
        let i = index_of_root(s1, root);
        assert(0 <= i < s1.len() && s1[i].root == root);
        assert(s2[i].root == root);
        lemma_index_of_root(s2, root, i);
    } else if has_root(s2, root) {
        let i = index_of_root(s2, root);
        assert(0 <= i < s2.len() && s2[i].root == root);
        assert(s1[i].root == root);
        assert(has_root(s1, root));
    }
}

/// The total delta of the subtree rooted at `i`: the node's own delta plus,
/// recursively, the total of each of its children. This is what a reverse
/// back-propagating pass accumulates at `i` by the time `i` is reached.
pub open spec fn subtree_sum(s: Seq<ProtoNode>, d: Seq<int>, i: int) -> int
    decreases s.len() - i, s.len() + 1,
{
    if 0 <= i < s.len() && s.len() == d.len() {
        d[i] + children_sum(s, d, i, i + 1)
    } else {
        0
    }
}

/// Sum of `subtree_sum` over the children of `i` whose index is at least
/// `j`. All children of `i` sit strictly above it, so `children_sum(s, d,
/// i, i + 1)` covers them all.
pub open spec fn children_sum(s: Seq<ProtoNode>, d: Seq<int>, i: int, j: int) -> int
    decreases s.len() - i, s.len() - j,
{
    if 0 <= i < j && j < s.len() && s.len() == d.len() {
        (if s[j].parent == Option::Some(i as usize) {
            subtree_sum(s, d, j)
        } else {
            0
        }) + children_sum(s, d, i, j + 1)
    } else {
        0
    }
}

pub open spec fn all_zero(d: Seq<int>) -> bool {
    forall|i: int| 0 <= i < d.len() ==> d[i] == 0
}

/// The mathematical view of a delta vector.
pub open spec fn deltas_view(d: Seq<i64>) -> Seq<int> {
    d.map_values(|x: i64| x as int)
}

pub proof fn lemma_subtree_sum_zero(s: Seq<ProtoNode>, d: Seq<int>, i: int)
    requires
        all_zero(d),
    ensures
        subtree_sum(s, d, i) == 0,
    decreases s.len() - i, s.len() + 1,
{
    if 0 <= i < s.len() && s.len() == d.len() {
        lemma_children_sum_zero(s, d, i, i + 1);
    }
}

pub proof fn lemma_children_sum_zero(s: Seq<ProtoNode>, d: Seq<int>, i: int, j: int)
    requires
        all_zero(d),
    ensures
        children_sum(s, d, i, j) == 0,
    decreases s.len() - i, s.len() - j,
{
    if 0 <= i < j && j < s.len() && s.len() == d.len() {
        if s[j].parent == Option::Some(i as usize) {
            lemma_subtree_sum_zero(s, d, j);
        }
        lemma_children_sum_zero(s, d, i, j + 1);
    }
}

/// Every node's weight stays inside `u64` when the accumulated subtree
/// deltas are applied.
pub open spec fn weights_fit(s: Seq<ProtoNode>, d: Seq<int>) -> bool {
    forall|i: int|
        0 <= i < s.len() ==> 0 <= s[i].weight + #[trigger] subtree_sum(s, d, i) <= u64::MAX
}

/// Every partial accumulation a reverse pass stores in a delta cell stays
/// inside `i64`.
pub open spec fn partials_fit(s: Seq<ProtoNode>, d: Seq<int>) -> bool {
    forall|i: int, j: int|
        0 <= i < s.len() && i < j <= s.len() ==> i64::MIN <= d[i] + #[trigger] children_sum(
            s,
            d,
            i,
            j,
        ) <= i64::MAX
}

/// The score pass succeeds exactly when no accumulation leaves its
/// machine-integer range.
pub open spec fn deltas_fit(s: Seq<ProtoNode>, d: Seq<int>) -> bool {
    weights_fit(s, d) && partials_fit(s, d)
}

/// Two arrays with the same tree: identical roots, parents and recorded
/// epochs at every index. Weights and pointers may differ.
pub open spec fn shape_eq(a: Seq<ProtoNode>, b: Seq<ProtoNode>) -> bool {
    &&& a.len() == b.len()
    &&& forall|i: int|
        0 <= i < a.len() ==> {
            &&& (#[trigger] a[i]).root == b[i].root
            &&& a[i].parent == b[i].parent
            &&& a[i].justified_epoch == b[i].justified_epoch
            &&& a[i].finalized_epoch == b[i].finalized_epoch
        }
}

/// Mid-pass cover: once the pass has handled all indices at or above `k`,
/// a parent with a handled viable child holds a viable best-child. This is
/// how a score pass guarantees that viable children are never orphaned:
/// whichever branch handles a viable child either keeps a viable incumbent
/// or installs the child itself.
pub open spec fn viable_covered_at(
    s: Seq<ProtoNode>,
    s0: Seq<ProtoNode>,
    jep: u64,
    fep: u64,
    k: int,
    p: int,
    c: int,
) -> bool {
    (0 <= p < s.len() && k <= c < s.len() && s[c].parent == Option::Some(p as usize) && s0[
        c].spec_viable(jep, fep)) ==> (match s[p].best_child {
        Option::Some(b) => s0[b as int].spec_viable(jep, fep),
        Option::None => false,
    })
}

/// The cover facts advance from `k` to `k - 1` when the pass leaves every
/// pointer alone, provided the new index's own instances hold.
proof fn lemma_viable_covered_keep(
    s: Seq<ProtoNode>,
    sh: Seq<ProtoNode>,
    s0: Seq<ProtoNode>,
    jep: u64,
    fep: u64,
    k: int,
)
    requires
        1 <= k,
        s.len() == sh.len(),
        forall|p2: int, c2: int| #[trigger] viable_covered_at(sh, s0, jep, fep, k, p2, c2),
        forall|x: int| 0 <= x < s.len() ==> (#[trigger] s[x]).parent == sh[x].parent,
        forall|x: int| 0 <= x < s.len() ==> (#[trigger] s[x]).best_child == sh[x].best_child,
        forall|p2: int| #[trigger] viable_covered_at(s, s0, jep, fep, k - 1, p2, k - 1),
    ensures
        forall|p2: int, c2: int| #[trigger] viable_covered_at(s, s0, jep, fep, k - 1, p2, c2),
{
    assert forall|p2: int, c2: int| #[trigger] viable_covered_at(s, s0, jep, fep, k - 1, p2, c2) by {
        if c2 == k - 1 {
            assert(viable_covered_at(s, s0, jep, fep, k - 1, p2, k - 1));
        } else if 0 <= p2 < s.len() && k <= c2 < s.len() && s[c2].parent == Option::Some(
            p2 as usize,
        ) && s0[c2].spec_viable(jep, fep) {
            assert(s[c2].parent == sh[c2].parent);
            assert(s[p2].best_child == sh[p2].best_child);
            assert(viable_covered_at(sh, s0, jep, fep, k, p2, c2));
        }
    }
}

/// The cover facts advance when the pass installs the viable node `ki` as
/// the best child of its parent `pi`.
proof fn lemma_viable_covered_set(
    s: Seq<ProtoNode>,
    sh: Seq<ProtoNode>,
    s0: Seq<ProtoNode>,
    jep: u64,
    fep: u64,
    k: int,
    ki: int,
    pi: int,
)
    requires
        ki == k - 1,
        0 <= pi < ki < s.len(),
        s.len() <= usize::MAX,
        s.len() == sh.len(),
        forall|p2: int, c2: int| #[trigger] viable_covered_at(sh, s0, jep, fep, k, p2, c2),
        forall|x: int|
            0 <= x < s.len() ==> (#[trigger] s[x]).parent == sh[x].parent,
        forall|x: int|
            0 <= x < s.len() && x != pi ==> (#[trigger] s[x]).best_child == sh[x].best_child,
        s[pi].best_child == Option::Some(ki as usize),
        s[ki].parent == Option::Some(pi as usize),
        s0[ki].spec_viable(jep, fep),
    ensures
        forall|p2: int, c2: int| #[trigger] viable_covered_at(s, s0, jep, fep, ki, p2, c2),
{
    assert forall|p2: int, c2: int| #[trigger] viable_covered_at(s, s0, jep, fep, ki, p2, c2) by {
        if 0 <= p2 < s.len() && ki <= c2 < s.len() && s[c2].parent == Option::Some(p2 as usize)
            && s0[c2].spec_viable(jep, fep) {
            if p2 != pi {
                if c2 == ki {
                    assert(s[ki].parent == Option::Some(pi as usize));
                } else {
                    assert(viable_covered_at(sh, s0, jep, fep, k, p2, c2));
                }
            }
        }
    }
}

/// The cover facts advance when the pass clears a parent whose best child
/// was the non-viable node `ki`: such a parent has no handled viable child.
proof fn lemma_viable_covered_clear(
    s: Seq<ProtoNode>,
    sh: Seq<ProtoNode>,
    s0: Seq<ProtoNode>,
    jep: u64,
    fep: u64,
    k: int,
    ki: int,
    pi: int,
)
    requires
        ki == k - 1,
        0 <= pi < ki < s.len(),
        s.len() <= usize::MAX,
        s.len() == sh.len(),
        forall|p2: int, c2: int| #[trigger] viable_covered_at(sh, s0, jep, fep, k, p2, c2),
        forall|x: int|
            0 <= x < s.len() ==> (#[trigger] s[x]).parent == sh[x].parent,
        forall|x: int|
            0 <= x < s.len() && x != pi ==> (#[trigger] s[x]).best_child == sh[x].best_child,
        sh[pi].best_child == Option::Some(ki as usize),
        !s0[ki].spec_viable(jep, fep),
    ensures
        forall|p2: int, c2: int| #[trigger] viable_covered_at(s, s0, jep, fep, ki, p2, c2),
{
    assert forall|p2: int, c2: int| #[trigger] viable_covered_at(s, s0, jep, fep, ki, p2, c2) by {
        if 0 <= p2 < s.len() && ki <= c2 < s.len() && s[c2].parent == Option::Some(p2 as usize)
            && s0[c2].spec_viable(jep, fep) {
            assert(c2 != ki);
            assert(viable_covered_at(sh, s0, jep, fep, k, p2, c2));
        }
    }
}

/// Mid-pass dominance under an all-zero delta vector: once the pass has
/// handled all indices at or above `k`, every handled viable child is
/// matched or beaten by its parent's (viable) best-child.
pub open spec fn zeros_dominant_at(
    s: Seq<ProtoNode>,
    s0: Seq<ProtoNode>,
    jep: u64,
    fep: u64,
    k: int,
    p: int,
    c: int,
) -> bool {
    (0 <= p < s.len() && k <= c < s.len() && s[c].parent == Option::Some(p as usize) && s0[
        c].spec_viable(jep, fep)) ==> (match s[p].best_child {
        Option::Some(b) => s0[b as int].spec_viable(jep, fep) && (b as int == c || s[
            b as int].spec_better_than(s[c])),
        Option::None => false,
    })
}

/// The dominance facts advance from `k` to `k - 1` when the pass leaves
/// every pointer alone, provided the new index's own instances hold.
proof fn lemma_zeros_dominant_keep(
    s: Seq<ProtoNode>,
    s0: Seq<ProtoNode>,
    jep: u64,
    fep: u64,
    k: int,
)
    requires
        forall|p2: int, c2: int| #[trigger] zeros_dominant_at(s, s0, jep, fep, k, p2, c2),
        forall|p2: int| #[trigger] zeros_dominant_at(s, s0, jep, fep, k - 1, p2, k - 1),
    ensures
        forall|p2: int, c2: int| #[trigger] zeros_dominant_at(s, s0, jep, fep, k - 1, p2, c2),
{
    assert forall|p2: int, c2: int| #[trigger] zeros_dominant_at(s, s0, jep, fep, k - 1, p2, c2) by {
        if c2 == k - 1 {
            assert(zeros_dominant_at(s, s0, jep, fep, k - 1, p2, k - 1));
        } else {
            assert(zeros_dominant_at(s, s0, jep, fep, k, p2, c2));
        }
    }
}

/// The dominance facts advance when the pass installs the viable node
/// `ki` as the best child of its parent `pi`, beating or replacing a
/// non-viable incumbent.
proof fn lemma_zeros_dominant_set(
    s: Seq<ProtoNode>,
    sm: Seq<ProtoNode>,
    s0: Seq<ProtoNode>,
    jep: u64,
    fep: u64,
    k: int,
    ki: int,
    pi: int,
)
    requires
        ki == k - 1,
        0 <= pi < ki < s.len(),
        s.len() <= usize::MAX,
        s.len() == sm.len(),
        s.len() == s0.len(),
        links_ok(sm),
        forall|p2: int, c2: int| #[trigger] zeros_dominant_at(sm, s0, jep, fep, k, p2, c2),
        forall|x: int| 0 <= x < s.len() && x != pi ==> s[x] == sm[x],
        s[pi].best_child == Option::Some(ki as usize),
        s[pi].parent == sm[pi].parent,
        s[pi].weight == sm[pi].weight,
        s[pi].root == sm[pi].root,
        s[ki].parent == Option::Some(pi as usize),
        s0[ki].spec_viable(jep, fep),
        match sm[pi].best_child {
            Option::Some(bb) => bb as int == ki || s[ki].spec_better_than(sm[bb as int]) || !s0[
                bb as int].spec_viable(jep, fep),
            Option::None => true,
        },
    ensures
        forall|p2: int, c2: int| #[trigger] zeros_dominant_at(s, s0, jep, fep, ki, p2, c2),
{
    assert forall|p2: int, c2: int| #[trigger] zeros_dominant_at(s, s0, jep, fep, ki, p2, c2) by {
        if 0 <= p2 < s.len() && ki <= c2 < s.len() && s[c2].parent == Option::Some(p2 as usize)
            && s0[c2].spec_viable(jep, fep) {
            if p2 == pi {
                if c2 != ki {
                    assert(sm[c2] == s[c2]);
                    assert(zeros_dominant_at(sm, s0, jep, fep, k, pi, c2));
                    match sm[pi].best_child {
                        Option::Some(bb) => {
                            assert(s0[bb as int].spec_viable(jep, fep));
                            if bb as int != ki {
                                assert(node_links_ok(sm, pi));
                                assert(sm[bb as int] == s[bb as int]);
                                assert(s[ki].spec_better_than(s[bb as int]));
                                if bb as int != c2 {
                                    lemma_better_than_transitive(s[ki], s[bb as int], s[c2]);
                                }
                            }
                        },
                        Option::None => {},
                    }
                }
            } else {
                if c2 == ki {
                    assert(s[ki].parent == Option::Some(pi as usize));
                } else {
                    assert(s[p2] == sm[p2]);
                    assert(s[c2] == sm[c2]);
                    assert(zeros_dominant_at(sm, s0, jep, fep, k, p2, c2));
                    match sm[p2].best_child {
                        Option::Some(bb) => {
                            assert(node_links_ok(sm, p2));
                            if bb as int == pi {
                                assert(s[pi].weight == sm[pi].weight);
                            } else {
                                assert(s[bb as int] == sm[bb as int]);
                            }
                        },
                        Option::None => {},
                    }
                }
            }
        }
    }
}

/// The dominance facts advance when the pass clears a parent whose best
/// child was the non-viable node `ki`.
proof fn lemma_zeros_dominant_clear(
    s: Seq<ProtoNode>,
    sm: Seq<ProtoNode>,
    s0: Seq<ProtoNode>,
    jep: u64,
    fep: u64,
    k: int,
    ki: int,
    pi: int,
)
    requires
        ki == k - 1,
        0 <= pi < ki < s.len(),
        s.len() <= usize::MAX,
        s.len() == sm.len(),
        s.len() == s0.len(),
        links_ok(sm),
        forall|p2: int, c2: int| #[trigger] zeros_dominant_at(sm, s0, jep, fep, k, p2, c2),
        forall|x: int| 0 <= x < s.len() && x != pi ==> s[x] == sm[x],
        s[pi].best_child is None,
        s[pi].parent == sm[pi].parent,
        s[pi].weight == sm[pi].weight,
        s[pi].root == sm[pi].root,
        sm[pi].best_child == Option::Some(ki as usize),
        !s0[ki].spec_viable(jep, fep),
    ensures
        forall|p2: int, c2: int| #[trigger] zeros_dominant_at(s, s0, jep, fep, ki, p2, c2),
{
    assert forall|p2: int, c2: int| #[trigger] zeros_dominant_at(s, s0, jep, fep, ki, p2, c2) by {
        if 0 <= p2 < s.len() && ki <= c2 < s.len() && s[c2].parent == Option::Some(p2 as usize)
            && s0[c2].spec_viable(jep, fep) {
            assert(c2 != ki);
            assert(s[c2] == sm[c2]);
            if p2 == pi {
                assert(zeros_dominant_at(sm, s0, jep, fep, k, pi, c2));
            } else {
                assert(s[p2] == sm[p2]);
                assert(zeros_dominant_at(sm, s0, jep, fep, k, p2, c2));
                match sm[p2].best_child {
                    Option::Some(bb) => {
                        assert(node_links_ok(sm, p2));
                        if bb as int == pi {
                            assert(s[pi].weight == sm[pi].weight);
                        } else {
                            assert(s[bb as int] == sm[bb as int]);
                        }
                    },
                    Option::None => {},
                }
            }
        }
    }
}

/// At the start of a pass (nothing handled yet) the mid-pass viability
/// and closure facts hold: with no FFG update required they come from the
/// array's invariant, otherwise they are vacuous.
proof fn lemma_pass_init(pre: ProtoArray, s0: Seq<ProtoNode>, jep: u64, fep: u64, ffg: bool)
    requires
        pre.wf(),
        s0 == pre.nodes@,
        !ffg ==> jep == pre.justified_epoch && fep == pre.finalized_epoch,
        ffg == (pre.ffg_update_required || jep != pre.justified_epoch),
    ensures
        forall|p2: int|
            0 <= p2 < s0.len() ==> (match (#[trigger] s0[p2]).best_child {
                Option::Some(c) => (c as int >= s0.len() || !ffg) ==> s0[c as int].spec_viable(
                    jep,
                    fep,
                ),
                Option::None => true,
            }),
        forall|p2: int|
            0 <= p2 < s0.len() ==> (match (#[trigger] s0[p2]).best_child {
                Option::Some(c) => c as int >= s0.len() ==> s0[p2].best_descendant
                    == opt_descendant(s0[c as int].best_descendant, c),
                Option::None => true,
            }),
{
    assert forall|p2: int|
        0 <= p2 < s0.len() implies (match (#[trigger] s0[p2]).best_child {
        Option::Some(c) => (c as int >= s0.len() || !ffg) ==> s0[c as int].spec_viable(jep, fep),
        Option::None => true,
    }) by {
        assert(node_links_ok(s0, p2));
        if !ffg {
            assert(pre.bc_viable_at(p2));
        }
    }
    assert forall|p2: int|
        0 <= p2 < s0.len() implies (match (#[trigger] s0[p2]).best_child {
        Option::Some(c) => c as int >= s0.len() ==> s0[p2].best_descendant == opt_descendant(
            s0[c as int].best_descendant,
            c,
        ),
        Option::None => true,
    }) by {
        assert(node_links_ok(s0, p2));
    }
}

/// After a completed score pass, the per-index cover facts become the
/// array-level guarantee that no viable child is orphaned.
proof fn lemma_covered_complete(a: ProtoArray, s0: Seq<ProtoNode>, jep: u64, fep: u64)
    requires
        a.nodes@.len() == s0.len(),
        shape_eq(a.nodes@, s0),
        links_ok(a.nodes@),
        a.justified_epoch == jep,
        a.finalized_epoch == fep,
        forall|p2: int, c2: int| #[trigger] viable_covered_at(a.nodes@, s0, jep, fep, 0, p2, c2),
    ensures
        a.viable_children_covered(),
{
    assert forall|p2: int, c2: int| #[trigger] a.coverage_at(p2, c2) by {
        if 0 <= p2 < a.nodes@.len() && 0 <= c2 < a.nodes@.len() && a.nodes@[c2].parent
            == Option::Some(p2 as usize) && a.spec_viable_at(c2) {
            assert(a.nodes@[c2].justified_epoch == s0[c2].justified_epoch);
            assert(a.nodes@[c2].finalized_epoch == s0[c2].finalized_epoch);
            assert(viable_covered_at(a.nodes@, s0, jep, fep, 0, p2, c2));
            assert(node_links_ok(a.nodes@, p2));
            match a.nodes@[p2].best_child {
                Option::Some(b) => {
                    assert(a.nodes@[b as int].justified_epoch == s0[b as int].justified_epoch);
                    assert(a.nodes@[b as int].finalized_epoch == s0[b as int].finalized_epoch);
                },
                Option::None => {},
            }
        }
    }
}

/// A completed pass wrote every accumulated weight into a `u64` cell and
/// every partial delta into an `i64` cell, so all accumulations fit.
proof fn lemma_fit_complete(a: ProtoArray, s0: Seq<ProtoNode>, d0: Seq<int>)
    requires
        a.nodes@.len() == s0.len(),
        forall|i: int|
            0 <= i < s0.len() ==> (#[trigger] a.nodes@[i]).weight == s0[i].weight + subtree_sum(
                s0,
                d0,
                i,
            ),
        forall|i: int, j: int|
            0 <= i < s0.len() && i < j <= s0.len() ==> i64::MIN <= d0[i] + #[trigger] children_sum(
                s0,
                d0,
                i,
                j,
            ) <= i64::MAX,
    ensures
        deltas_fit(s0, d0),
{
    assert forall|i2: int|
        0 <= i2 < s0.len() implies 0 <= s0[i2].weight + #[trigger] subtree_sum(s0, d0, i2)
        <= u64::MAX by {
        assert(a.nodes@[i2].weight == s0[i2].weight + subtree_sum(s0, d0, i2));
    }
    assert(weights_fit(s0, d0));
    assert(partials_fit(s0, d0));
}

/// After a completed all-zero score pass, the per-index dominance facts
/// become array-level best-child dominance.
proof fn lemma_zeros_dominant_complete(a: ProtoArray, s0: Seq<ProtoNode>, jep: u64, fep: u64)
    requires
        a.nodes@.len() == s0.len(),
        shape_eq(a.nodes@, s0),
        a.justified_epoch == jep,
        a.finalized_epoch == fep,
        forall|p2: int, c2: int| #[trigger] zeros_dominant_at(a.nodes@, s0, jep, fep, 0, p2, c2),
    ensures
        a.best_child_dominant(),
{
    assert forall|p2: int, c2: int| #[trigger] a.dominant_at(p2, c2) by {
        if 0 <= p2 < a.nodes@.len() && 0 <= c2 < a.nodes@.len() && a.nodes@[c2].parent
            == Option::Some(p2 as usize) && a.spec_viable_at(c2) {
            assert(a.nodes@[c2].justified_epoch == s0[c2].justified_epoch);
            assert(a.nodes@[c2].finalized_epoch == s0[c2].finalized_epoch);
            assert(zeros_dominant_at(a.nodes@, s0, jep, fep, 0, p2, c2));
        }
    }
}

/// After a completed score pass the per-index facts of the pass become the
/// array-level properties: viable pointers, closure, well-formedness.
proof fn lemma_pass_complete(a: ProtoArray, s0: Seq<ProtoNode>, jep: u64, fep: u64)
    requires
        a.nodes@.len() == s0.len(),
        shape_eq(a.nodes@, s0),
        links_ok(a.nodes@),
        roots_distinct(a.nodes@),
        roots_nonzero(a.nodes@),
        a.justified_epoch == jep,
        a.finalized_epoch == fep,
        !a.ffg_update_required,
        forall|p2: int|
            0 <= p2 < a.nodes@.len() ==> (match (#[trigger] a.nodes@[p2]).best_child {
                Option::Some(c) => s0[c as int].spec_viable(jep, fep),
                Option::None => true,
            }),
        forall|p2: int|
            0 <= p2 < a.nodes@.len() ==> (match (#[trigger] a.nodes@[p2]).best_child {
                Option::Some(c) => a.nodes@[p2].best_descendant == opt_descendant(
                    a.nodes@[c as int].best_descendant,
                    c,
                ),
                Option::None => true,
            }),
    ensures
        a.wf(),
        a.pointers_viable(),
        a.closure_ok(),
{
    assert forall|i2: int| 0 <= i2 < a.nodes@.len() implies a.bc_viable_at(i2) by {
        assert(node_links_ok(a.nodes@, i2));
        match a.nodes@[i2].best_child {
            Option::Some(c) => {
                assert(s0[c as int].spec_viable(jep, fep));
                assert(a.nodes@[c as int].justified_epoch == s0[c as int].justified_epoch);
                assert(a.nodes@[c as int].finalized_epoch == s0[c as int].finalized_epoch);
            },
            Option::None => {},
        }
    }
    assert(a.pointers_viable());
    assert forall|i2: int| 0 <= i2 < a.nodes@.len() implies a.closure_at(i2) by {}
    assert(a.closure_ok());
}

/// A flat array of block nodes plus the checkpoint pair that filters them.
///
/// The root-to-index map of the wire form is recovered from the array
/// itself: roots are unique, so `nodes[i].root -> i` is the map.
pub struct ProtoArray {
    /// Do not prune the tree unless the finalized node has at least this
    /// index. Small prunes simply waste time.
    pub prune_threshold: usize,
    /// Set when the justified/finalized epochs of all nodes must be checked
    /// against the pair in `self` on the next score pass, so that the tree
    /// is filtered as the FFG rule asks.
    pub ffg_update_required: bool,
    pub justified_epoch: u64,
    pub finalized_epoch: u64,
    pub finalized_root: Root,
    pub nodes: Vec<ProtoNode>,
}

impl ProtoArray {
    pub open spec fn spec_len(self) -> int {
        self.nodes@.len() as int
    }

    pub open spec fn spec_viable_at(self, i: int) -> bool {
        self.nodes@[i].spec_viable(self.justified_epoch, self.finalized_epoch)
    }

    pub open spec fn bc_viable_at(self, i: int) -> bool {
        match self.nodes@[i].best_child {
            Option::Some(c) => self.spec_viable_at(c as int),
            Option::None => true,
        }
    }

    /// Best-child viability: no `best_child` pointer references a node that
    /// is not viable for head.
    pub open spec fn pointers_viable(self) -> bool {
        forall|i: int| 0 <= i < self.spec_len() ==> self.bc_viable_at(i)
    }

    pub open spec fn closure_at(self, i: int) -> bool {
        match self.nodes@[i].best_child {
            Option::Some(c) => self.nodes@[i].best_descendant == opt_descendant(
                self.nodes@[c as int].best_descendant,
                c,
            ),
            Option::None => true,
        }
    }

    /// Best-descendant closure: `best_descendant` is the best-child's
    /// best-descendant, or the best-child itself when that child is a leaf.
    pub open spec fn closure_ok(self) -> bool {
        forall|i: int| 0 <= i < self.spec_len() ==> self.closure_at(i)
    }

    /// The always-holding invariant of the array. Between score passes the
    /// viability of `best_child` pointers is only guaranteed while no FFG
    /// update is pending: advancing a checkpoint leaves the pointers stale
    /// until the next score pass filters them.
    pub open spec fn wf(self) -> bool {
        &&& links_ok(self.nodes@)
        &&& roots_distinct(self.nodes@)
        &&& roots_nonzero(self.nodes@)
        &&& (!self.ffg_update_required ==> self.pointers_viable())
    }

    /// A settled array: no FFG update pending, pointers viable, closure
    /// holds, and every `best_child` beats each viable child of its node.
    /// A score pass with zero deltas leaves such an array unchanged.
    pub open spec fn dominant_at(self, p: int, c: int) -> bool {
        (0 <= p < self.spec_len() && 0 <= c < self.spec_len() && self.nodes@[c].parent
            == Option::Some(p as usize) && self.spec_viable_at(c)) ==> (match self.nodes@[p].best_child {
            Option::Some(b) => b as int == c || self.nodes@[b as int].spec_better_than(
                self.nodes@[c],
            ),
            Option::None => false,
        })
    }

    pub open spec fn best_child_dominant(self) -> bool {
        forall|p: int, c: int| #[trigger] self.dominant_at(p, c)
    }

    /// No viable child is orphaned: a node with a viable child holds a
    /// viable best-child. A score pass establishes this for every node.
    pub open spec fn coverage_at(self, p: int, c: int) -> bool {
        (0 <= p < self.spec_len() && 0 <= c < self.spec_len() && self.nodes@[c].parent
            == Option::Some(p as usize) && self.spec_viable_at(c)) ==> (match self.nodes@[p].best_child {
            Option::Some(b) => self.spec_viable_at(b as int),
            Option::None => false,
        })
    }

    pub open spec fn viable_children_covered(self) -> bool {
        forall|p: int, c: int| #[trigger] self.coverage_at(p, c)
    }

    pub open spec fn stable(self) -> bool {
        &&& self.wf()
        &&& !self.ffg_update_required
        &&& self.closure_ok()
        &&& self.best_child_dominant()
    }

    /// Create an array seeded with a single anchor node at index 0 whose
    /// epochs match the array's own, so that the anchor is viable.
    pub fn new(prune_threshold: usize, anchor_root: Root, anchor_epoch: u64) -> (r: ProtoArray)
        requires
            !anchor_root.spec_is_zero(),
        ensures
            r.wf(),
            r.stable(),
            r.closure_ok(),
            r.prune_threshold == prune_threshold,
            r.ffg_update_required == false,
            r.justified_epoch == anchor_epoch,
            r.finalized_epoch == anchor_epoch,
            r.finalized_root == anchor_root,
            r.nodes@.len() == 1,
            r.nodes@[0] == (ProtoNode {
                root: anchor_root,
                parent: Option::None,
                justified_epoch: anchor_epoch,
                finalized_epoch: anchor_epoch,
                weight: 0,
                best_child: Option::None,
                best_descendant: Option::None,
            }),
    {
        let anchor = ProtoNode {
            root: anchor_root,
            parent: Option::None,
            justified_epoch: anchor_epoch,
            finalized_epoch: anchor_epoch,
            weight: 0,
            best_child: Option::None,
            best_descendant: Option::None,
        };
        let mut nodes: Vec<ProtoNode> = Vec::new();
        nodes.push(anchor);
        let r = ProtoArray {
            prune_threshold,
            ffg_update_required: false,
            justified_epoch: anchor_epoch,
            finalized_epoch: anchor_epoch,
            finalized_root: anchor_root,
            nodes,
        };
        proof {
            assert forall|p: int, c: int| r.dominant_at(p, c) by {
                if 0 <= c < r.spec_len() {
                    assert(r.nodes@[c].parent is None);
                }
            }
        }
        r
    }

    /// Resolve a root to its index by scanning the array.
    pub(crate) fn lookup_index(&self, root: &Root) -> (r: Option<usize>)
        requires
            self.wf(),
        ensures
            r == spec_lookup(self.nodes@, *root),
            match r {
                Option::Some(i) => (i as int) < self.nodes@.len() && self.nodes@[i as int].root
                    == *root,
                Option::None => !has_root(self.nodes@, *root),
            },
    {
        let n = self.nodes.len();
        let mut k: usize = 0;
        while k < n
            invariant
                n == self.nodes@.len(),
                k <= n,
                roots_distinct(self.nodes@),
                forall|i: int| 0 <= i < k ==> self.nodes@[i].root != *root,
            decreases n - k,
        {
            if self.nodes[k].root == *root {
                proof {
                    lemma_index_of_root(self.nodes@, *root, k as int);
                }
                return Option::Some(k);
            }
            k = k + 1;
        }
        proof {
            assert(!has_root(self.nodes@, *root));
        }
        Option::None
    }

    /// Whether the given root is known to the array.
    pub fn contains_block(&self, root: &Root) -> (r: bool)
        requires
            self.wf(),
        ensures
            r == has_root(self.nodes@, *root),
    {
        self.lookup_index(root).is_some()
    }

    /// Sets the node at `parent_index` to have a best-child pointing to
    /// `child_index`, and updates the best-descendant from the child.
    fn set_best_child(&mut self, parent_index: usize, child_index: usize)
        requires
            (parent_index as int) < old(self).spec_len(),
            (child_index as int) < old(self).spec_len(),
            parent_index != child_index,
            links_ok(old(self).nodes@),
            old(self).nodes@[child_index as int].parent == Option::Some(parent_index),
        ensures
            links_ok(final(self).nodes@),
            final(self).nodes@ == old(self).nodes@.update(
                parent_index as int,
                ProtoNode {
                    best_child: Option::Some(child_index),
                    best_descendant: opt_descendant(
                        old(self).nodes@[child_index as int].best_descendant,
                        child_index,
                    ),
                    ..old(self).nodes@[parent_index as int]
                },
            ),
            final(self).prune_threshold == old(self).prune_threshold,
            final(self).ffg_update_required == old(self).ffg_update_required,
            final(self).justified_epoch == old(self).justified_epoch,
            final(self).finalized_epoch == old(self).finalized_epoch,
            final(self).finalized_root == old(self).finalized_root,
    {
        let child_best_descendant = self.nodes[child_index].best_descendant;
        let parent_node = self.nodes[parent_index];
        let updated = ProtoNode {
            best_child: Option::Some(child_index),
            best_descendant: match child_best_descendant {
                Option::Some(d) => Option::Some(d),
                Option::None => Option::Some(child_index),
            },
            ..parent_node
        };
        self.nodes.set(parent_index, updated);
        proof {
            let pi = parent_index as int;
            let ci = child_index as int;
            assert(node_links_ok(old(self).nodes@, ci));
            assert((pi as int) < ci);
            assert forall|i2: int| 0 <= i2 < self.nodes@.len() implies node_links_ok(
                self.nodes@,
                i2,
            ) by {
                assert(node_links_ok(old(self).nodes@, i2));
                assert(self.nodes@[i2].parent == old(self).nodes@[i2].parent);
                if i2 != pi {
                    assert(self.nodes@[i2] == old(self).nodes@[i2]);
                }
            }
        }
    }

    /// Register a new block with the fork choice.
    ///
    /// The new node starts with zero weight and no pointers. A missing
    /// parent is accepted only for the very first node (the anchor). When
    /// the block's epochs match the array's current pair, the node competes
    /// for its parent's best-child slot at once; more distant ancestors are
    /// not walked, so their best-descendant may be stale until the next
    /// score pass.
    pub fn on_new_block(
        &mut self,
        root: Root,
        parent_root: Option<Root>,
        justified_epoch: u64,
        finalized_epoch: u64,
    ) -> (r: Result<(), Error>)
        requires
            old(self).wf(),
            !root.spec_is_zero(),
            !has_root(old(self).nodes@, root),
        ensures
            final(self).prune_threshold == old(self).prune_threshold,
            final(self).ffg_update_required == old(self).ffg_update_required,
            final(self).justified_epoch == old(self).justified_epoch,
            final(self).finalized_epoch == old(self).finalized_epoch,
            final(self).finalized_root == old(self).finalized_root,
            r is Err <==> (old(self).spec_len() > 0 && Self::spec_resolved_parent(
                old(self).nodes@,
                parent_root,
            ) is None),
            match r {
                Result::Ok(()) => {
                    let parent = Self::spec_resolved_parent(old(self).nodes@, parent_root);
                    let fresh = ProtoNode {
                        root,
                        parent,
                        justified_epoch,
                        finalized_epoch,
                        weight: 0,
                        best_child: Option::None,
                        best_descendant: Option::None,
                    };
                    &&& final(self).wf()
                    &&& final(self).nodes@ == Self::spec_after_new_block(
                        old(self).nodes@,
                        fresh,
                        old(self).justified_epoch,
                        old(self).finalized_epoch,
                    )
                    &&& has_root(final(self).nodes@, root)
                },
                Result::Err(e) => {
                    &&& *final(self) == *old(self)
                    &&& e == Error::UnknownParent(
                        match parent_root {
                            Option::Some(pr) => pr,
                            Option::None => root,
                        },
                    )
                    &&& old(self).spec_len() > 0
                    &&& Self::spec_resolved_parent(old(self).nodes@, parent_root) is None
                },
            },
    {
        let node_index = self.nodes.len();
        let parent: Option<usize> = match &parent_root {
            Option::Some(pr) => self.lookup_index(pr),
            Option::None => Option::None,
        };
        if node_index > 0 && parent.is_none() {
            let missing = match parent_root {
                Option::Some(pr) => pr,
                Option::None => root,
            };
            return Result::Err(Error::UnknownParent(missing));
        }
        let node = ProtoNode {
            root,
            parent,
            justified_epoch,
            finalized_epoch,
            weight: 0,
            best_child: Option::None,
            best_descendant: Option::None,
        };
        self.nodes.push(node);
        let ghost s_old = old(self).nodes@;
        let ghost appended = self.nodes@;
        proof {
            assert forall|i: int| 0 <= i < appended.len() implies node_links_ok(appended, i) by {
                if i < node_index as int {
                    assert(node_links_ok(s_old, i));
                }
            }
            assert(roots_distinct(appended));
            assert(roots_nonzero(appended));
        }
        // If the block's justified and finalized epochs match our own, see
        // if it becomes its parent's best child.
        if justified_epoch == self.justified_epoch && finalized_epoch == self.finalized_epoch {
            if let Option::Some(parent_index) = parent {
                proof {
                    assert(node_links_ok(s_old, parent_index as int));
                }
                let parent_node = self.nodes[parent_index];
                let mut install = false;
                match parent_node.best_child {
                    Option::Some(parent_best_child_index) => {
                        let parent_best_child = self.nodes[parent_best_child_index];
                        if self.nodes[node_index].is_better_than(&parent_best_child) {
                            install = true;
                        }
                    },
                    Option::None => {
                        install = true;
                    },
                }
                if install {
                    self.set_best_child(parent_index, node_index);
                    proof {
                        let pi = parent_index as int;
                        let updated = self.nodes@;
                        assert(updated == Self::spec_after_new_block(
                            s_old,
                            appended[node_index as int],
                            old(self).justified_epoch,
                            old(self).finalized_epoch,
                        ));
                        assert forall|i: int| 0 <= i < updated.len() implies node_links_ok(
                            updated,
                            i,
                        ) by {
                            assert(node_links_ok(appended, i));
                            assert(updated[i].parent == appended[i].parent);
                            if i != pi {
                                assert(updated[i] == appended[i]);
                            }
                        }
                        assert(roots_distinct(updated));
                        assert(roots_nonzero(updated));
                        assert(pi < node_index as int);
                        assert(updated[node_index as int] == node);
                        assert(self.spec_viable_at(node_index as int));
                        if !self.ffg_update_required {
                            assert forall|i: int| 0 <= i < self.spec_len() implies self
                                .bc_viable_at(i) by {
                                if i == pi {
                                    assert(self.spec_viable_at(node_index as int));
                                } else if i < node_index as int {
                                    assert(old(self).bc_viable_at(i));
                                    assert(node_links_ok(s_old, i));
                                    assert(updated[i] == appended[i]);
                                    match s_old[i].best_child {
                                        Option::Some(c) => {
                                            assert(old(self).spec_viable_at(c as int));
                                            assert(updated[c as int].justified_epoch == s_old[
                                                c as int].justified_epoch);
                                            assert(updated[c as int].finalized_epoch == s_old[
                                                c as int].finalized_epoch);
                                            assert(self.spec_viable_at(c as int));
                                        },
                                        Option::None => {},
                                    }
                                } else {
                                    assert(updated[i].best_child is None);
                                }
                            }
                        }
                    }
                }
            }
        }
        proof {
            if !self.ffg_update_required {
                assert forall|i: int| 0 <= i < self.spec_len() implies self.bc_viable_at(i) by {
                    if self.nodes@ == appended {
                        if i < node_index as int {
                            assert(old(self).bc_viable_at(i));
                            assert(node_links_ok(s_old, i));
                            assert(appended[i] == s_old[i]);
                            match s_old[i].best_child {
                                Option::Some(c) => {
                                    assert(old(self).spec_viable_at(c as int));
                                    assert(self.spec_viable_at(c as int));
                                },
                                Option::None => {},
                            }
                        } else {
                            assert(self.nodes@[i].best_child is None);
                        }
                    }
                }
            }
            assert(self.nodes@[node_index as int].root == root);
        }
        Result::Ok(())
    }

    /// The parent index a new block resolves to.
    pub open spec fn spec_resolved_parent(s: Seq<ProtoNode>, parent_root: Option<Root>) -> Option<
        usize,
    > {
        match parent_root {
            Option::Some(pr) => spec_lookup(s, pr),
            Option::None => Option::None,
        }
    }

    /// The array contents after a new block: the fresh node is appended,
    /// and when its epochs match the current pair it takes its parent's
    /// best-child slot if that slot is empty or it beats the incumbent.
    pub open spec fn spec_after_new_block(
        s: Seq<ProtoNode>,
        fresh: ProtoNode,
        justified_epoch: u64,
        finalized_epoch: u64,
    ) -> Seq<ProtoNode> {
        let appended = s.push(fresh);
        if fresh.spec_viable(justified_epoch, finalized_epoch) && fresh.parent is Some {
            let p = fresh.parent->0 as int;
            let takes_slot = match s[p].best_child {
                Option::Some(b) => fresh.spec_better_than(s[b as int]),
                Option::None => true,
            };
            if takes_slot {
                appended.update(
                    p,
                    ProtoNode {
                        best_child: Option::Some(s.len() as usize),
                        best_descendant: Option::Some(s.len() as usize),
                        ..s[p]
                    },
                )
            } else {
                appended
            }
        } else {
            appended
        }
    }

    /// Iterate backwards through the array, applying each node's delta to
    /// its weight and back-propagating it to the node's parent, while
    /// re-deciding each parent's best-child and best-descendant links.
    ///
    /// The `deltas` vector is consumed: the pass carries weight up the tree
    /// through it. `justified_epoch` becomes the array's justified epoch;
    /// when it differs from the current one, or an FFG update was left
    /// pending by an earlier finalization advance, the pass also filters
    /// out every best-child that is no longer viable for head.
    ///
    /// Succeeds exactly when every accumulated weight stays a `u64` and
    /// every accumulated delta an `i64`; any overflow fails fatally with
    /// `DeltaOverflow` and leaves the array poisoned (only its tree shape
    /// is still guaranteed).
    ///
    /// Every pass re-decides the links so that no viable child is left
    /// orphaned: afterwards a node with a viable child holds a viable
    /// best-child. A pass with all-zero deltas settles the array
    /// (`stable`), and from a settled array a zero-delta pass at the
    /// unchanged justified epoch changes nothing at all: head selection is
    /// untouched, and repeating such a pass is idempotent.
    #[verifier::rlimit(100)]
    #[verifier::loop_isolation(false)]
    pub fn apply_score_changes(&mut self, deltas: Vec<i64>, justified_epoch: u64) -> (r: Result<
        (),
        Error,
    >)
        requires
            old(self).wf(),
        ensures
            ({
                let s0 = old(self).nodes@;
                let d0 = deltas_view(deltas@);
                &&& (r is Ok <==> (d0.len() == s0.len() && deltas_fit(s0, d0)))
                &&& (d0.len() != s0.len() ==> *final(self) == *old(self) && r == Result::<
                    (),
                    Error,
                >::Err(
                    Error::InvalidDeltaLen {
                        deltas: deltas@.len() as usize,
                        indices: s0.len() as usize,
                    },
                ))
                &&& (d0.len() == s0.len() ==> {
                    &&& shape_eq(final(self).nodes@, s0)
                    &&& final(self).justified_epoch == justified_epoch
                    &&& final(self).finalized_epoch == old(self).finalized_epoch
                    &&& final(self).finalized_root == old(self).finalized_root
                    &&& final(self).prune_threshold == old(self).prune_threshold
                })
                &&& (d0.len() == s0.len() && !deltas_fit(s0, d0) ==> (match r {
                    Result::Err(e) => e is DeltaOverflow,
                    Result::Ok(_) => false,
                }))
                &&& (r is Ok ==> {
                    &&& final(self).ffg_update_required == false
                    &&& final(self).wf()
                    &&& final(self).pointers_viable()
                    &&& final(self).closure_ok()
                    &&& final(self).viable_children_covered()
                    &&& forall|i: int|
                        0 <= i < s0.len() ==> (#[trigger] final(self).nodes@[i]).weight == s0[i].weight
                            + subtree_sum(s0, d0, i)
                })
                &&& (r is Ok && all_zero(d0) ==> final(self).stable())
                &&& (r is Ok && all_zero(d0) && justified_epoch == old(self).justified_epoch && old(
                    self,
                ).stable() ==> final(self).nodes@ == old(self).nodes@)
            }),
    {
        let n = self.nodes.len();
        if deltas.len() != n {
            return Result::Err(Error::InvalidDeltaLen { deltas: deltas.len(), indices: n });
        }
        let ghost pre = *old(self);
        let ghost s0 = self.nodes@;
        let ghost d0 = deltas_view(deltas@);
        let ffg_required = self.ffg_update_required || justified_epoch != self.justified_epoch;
        self.ffg_update_required = ffg_required;
        self.justified_epoch = justified_epoch;
        let fin_epoch = self.finalized_epoch;
        let mut deltas = deltas;
        let ghost dv0 = deltas@;
        let ghost cond_noop = all_zero(d0) && justified_epoch == pre.justified_epoch
            && pre.stable();
        proof {
            assert forall|i2: int| 0 <= i2 < n implies (#[trigger] deltas@[i2]) as int == d0[i2]
                + children_sum(s0, d0, i2, n as int) by {
                assert(children_sum(s0, d0, i2, n as int) == 0);
            }
            assert forall|i2: int, j2: int|
                0 <= i2 < n && i2 < j2 <= n && n <= j2 implies i64::MIN <= d0[i2]
                + #[trigger] children_sum(s0, d0, i2, j2) <= i64::MAX by {
                assert(j2 == n);
                assert(children_sum(s0, d0, i2, j2) == 0);
                assert(d0[i2] == deltas@[i2] as int);
            }
        }
        proof {
            lemma_pass_init(pre, s0, justified_epoch, fin_epoch, ffg_required);
        }
        let mut k: usize = n;
        while k > 0
            invariant
                k <= n,
                n == s0.len(),
                n == self.nodes@.len(),
                n == deltas@.len(),
                n == d0.len(),
                self.ffg_update_required == ffg_required,
                self.justified_epoch == justified_epoch,
                self.finalized_epoch == fin_epoch,
                fin_epoch == pre.finalized_epoch,
                self.finalized_root == pre.finalized_root,
                self.prune_threshold == pre.prune_threshold,
                shape_eq(self.nodes@, s0),
                links_ok(self.nodes@),
                forall|i2: int|
                    k <= i2 < n ==> (#[trigger] deltas@[i2]) as int == subtree_sum(s0, d0, i2),
                forall|i2: int|
                    0 <= i2 < k ==> (#[trigger] deltas@[i2]) as int == d0[i2] + children_sum(
                        s0,
                        d0,
                        i2,
                        k as int,
                    ),
                forall|i2: int|
                    k <= i2 < n ==> (#[trigger] self.nodes@[i2]).weight == s0[i2].weight
                        + subtree_sum(s0, d0, i2),
                forall|i2: int| 0 <= i2 < k ==> (#[trigger] self.nodes@[i2]).weight == s0[i2].weight,
                forall|i2: int, j2: int|
                    0 <= i2 < n && i2 < j2 <= n && k <= j2 ==> i64::MIN <= d0[i2]
                        + #[trigger] children_sum(s0, d0, i2, j2) <= i64::MAX,
                forall|p2: int|
                    0 <= p2 < n ==> (match (#[trigger] self.nodes@[p2]).best_child {
                        Option::Some(c) => (c as int >= k as int || !ffg_required)
                            ==> s0[c as int].spec_viable(justified_epoch, fin_epoch),
                        Option::None => true,
                    }),
                forall|p2: int|
                    0 <= p2 < n ==> (match (#[trigger] self.nodes@[p2]).best_child {
                        Option::Some(c) => c as int >= k as int ==> self.nodes@[p2].best_descendant
                            == opt_descendant(self.nodes@[c as int].best_descendant, c),
                        Option::None => true,
                    }),
                all_zero(d0) ==> forall|p2: int, c2: int| #[trigger] zeros_dominant_at(
                    self.nodes@,
                    s0,
                    justified_epoch,
                    fin_epoch,
                    k as int,
                    p2,
                    c2,
                ),
                forall|p2: int, c2: int| #[trigger] viable_covered_at(
                    self.nodes@,
                    s0,
                    justified_epoch,
                    fin_epoch,
                    k as int,
                    p2,
                    c2,
                ),
                cond_noop ==> self.nodes@ == s0 && deltas@ == dv0,
            decreases k,
        {
            let i = k - 1;
            let node = self.nodes[i];
            proof {
                assert(node_links_ok(self.nodes@, i as int));
                assert(deltas@[i as int] as int == d0[i as int] + children_sum(
                    s0,
                    d0,
                    i as int,
                    k as int,
                ));
                assert(subtree_sum(s0, d0, i as int) == d0[i as int] + children_sum(
                    s0,
                    d0,
                    i as int,
                    i as int + 1,
                ));
                assert(deltas@[i as int] as int == subtree_sum(s0, d0, i as int));
            }
            let d = deltas[i];
            // Apply the delta to the node's weight; overflow in either
            // direction is fatal.
            let new_weight: u64;
            if d < 0 {
                let mag_wide: i128 = -(d as i128);
                let mag: u64 = mag_wide as u64;
                proof {
                    assert(mag as int == -(d as int));
                }
                if mag > node.weight {
                    proof {
                        let ii = i as int;
                        assert(s0[ii].weight + subtree_sum(s0, d0, ii) < 0);
                        assert(!weights_fit(s0, d0));
                    }
                    return Result::Err(Error::DeltaOverflow(i));
                }
                new_weight = node.weight - mag;
            } else {
                let mag = d as u64;
                if mag > u64::MAX - node.weight {
                    proof {
                        let ii = i as int;
                        assert(s0[ii].weight + subtree_sum(s0, d0, ii) > u64::MAX);
                        assert(!weights_fit(s0, d0));
                    }
                    return Result::Err(Error::DeltaOverflow(i));
                }
                new_weight = node.weight + mag;
            }
            let ghost s_pre_weight = self.nodes@;
            self.nodes.set(i, ProtoNode { weight: new_weight, ..node });
            proof {
                assert(self.nodes@[i as int].weight == s0[i as int].weight + subtree_sum(
                    s0,
                    d0,
                    i as int,
                ));
                assert forall|i2: int| 0 <= i2 < n implies node_links_ok(self.nodes@, i2) by {
                    assert(node_links_ok(s_pre_weight, i2));
                    assert(self.nodes@[i2].parent == s_pre_weight[i2].parent);
                    assert(self.nodes@[i2].best_child == s_pre_weight[i2].best_child);
                    assert(self.nodes@[i2].best_descendant == s_pre_weight[i2].best_descendant);
                    if i2 != i as int {
                        assert(self.nodes@[i2] == s_pre_weight[i2]);
                    }
                }
                assert forall|i2: int|
                    0 <= i2 < n implies (#[trigger] self.nodes@[i2]).best_child == s_pre_weight[
                    i2].best_child && self.nodes@[i2].best_descendant == s_pre_weight[
                    i2].best_descendant && self.nodes@[i2].parent == s_pre_weight[i2].parent by {
                    if i2 != i as int {
                        assert(self.nodes@[i2] == s_pre_weight[i2]);
                    }
                }
                if all_zero(d0) {
                    lemma_subtree_sum_zero(s0, d0, i as int);
                    assert(new_weight == node.weight);
                    assert(self.nodes@ =~= s_pre_weight);
                }
            }
            let ghost s_mid = self.nodes@;
            // Back-propagate the delta and re-decide the parent's links.
            match node.parent {
                Option::None => {
                    proof {
                        let ki = i as int;
                        assert forall|i2: int|
                            0 <= i2 < ki implies (#[trigger] deltas@[i2]) as int == d0[i2]
                            + children_sum(s0, d0, i2, ki) by {
                            assert(s0[ki].parent is None);
                            assert(children_sum(s0, d0, i2, ki) == children_sum(
                                s0,
                                d0,
                                i2,
                                ki + 1,
                            ));
                        }
                        assert forall|i2: int, j2: int|
                            0 <= i2 < n && i2 < j2 <= n && ki <= j2 implies i64::MIN <= d0[i2]
                            + #[trigger] children_sum(s0, d0, i2, j2) <= i64::MAX by {
                            if j2 == ki {
                                assert(children_sum(s0, d0, i2, ki) == children_sum(
                                    s0,
                                    d0,
                                    i2,
                                    ki + 1,
                                ));
                            }
                        }

                        let ki = i as int;
                        let sc = self.nodes@;
                        assert forall|p2: int|
                            0 <= p2 < n implies (match (#[trigger] sc[p2]).best_child {
                            Option::Some(c) => (c as int >= ki || !ffg_required) ==> s0[
                                c as int].spec_viable(justified_epoch, fin_epoch),
                            Option::None => true,
                        }) by {
                            assert(node_links_ok(sc, p2));
                            assert(sc[p2] == s_mid[p2]);
                            match sc[p2].best_child {
                                Option::Some(c) => {
                                    if c as int == ki {
                                        assert(sc[ki].parent == Option::Some(p2 as usize));
                                    }
                                },
                                Option::None => {},
                            }
                        }
                        assert forall|p2: int|
                            0 <= p2 < n implies (match (#[trigger] sc[p2]).best_child {
                            Option::Some(c) => c as int >= ki ==> sc[p2].best_descendant
                                == opt_descendant(sc[c as int].best_descendant, c),
                            Option::None => true,
                        }) by {
                            assert(node_links_ok(sc, p2));
                            assert(sc[p2] == s_mid[p2]);
                            match sc[p2].best_child {
                                Option::Some(c) => {
                                    if c as int == ki {
                                        assert(sc[ki].parent == Option::Some(p2 as usize));
                                    } else if c as int >= ki {
                                        assert(sc[c as int] == s_mid[c as int]);
                                    }
                                },
                                Option::None => {},
                            }
                        }
                        if all_zero(d0) {
                            assert forall|p2: int| #[trigger] zeros_dominant_at(
                                sc,
                                s0,
                                justified_epoch,
                                fin_epoch,
                                ki,
                                p2,
                                ki,
                            ) by {
                                if 0 <= p2 < n && ki < n && sc[ki].parent == Option::Some(
                                    p2 as usize,
                                ) {
                                    assert(sc[ki].parent is None);
                                }
                            }
                            lemma_zeros_dominant_keep(sc, s0, justified_epoch, fin_epoch, k as int);
                        }
                        assert forall|p2: int| #[trigger] viable_covered_at(
                            sc,
                            s0,
                            justified_epoch,
                            fin_epoch,
                            ki,
                            p2,
                            ki,
                        ) by {
                            if 0 <= p2 < n && ki < n && sc[ki].parent == Option::Some(
                                p2 as usize,
                            ) {
                                assert(sc[ki].parent is None);
                            }
                        }
                        lemma_viable_covered_keep(sc, s_pre_weight, s0, justified_epoch, fin_epoch, k as int);
                    }
                },
                Option::Some(parent_index) => {
                    let p = parent_index;
                    proof {
                        assert((p as int) < i as int);
                    }
                    let pd = deltas[p];
                    let sum_wide: i128 = pd as i128 + d as i128;
                    if sum_wide > (i64::MAX as i128) || sum_wide < (i64::MIN as i128) {
                        proof {
                            let ki = i as int;
                            let pi = p as int;
                            assert(children_sum(s0, d0, pi, ki) == subtree_sum(s0, d0, ki)
                                + children_sum(s0, d0, pi, ki + 1));
                            assert(d0[pi] + children_sum(s0, d0, pi, ki) == pd as int + d as int);
                            assert(!partials_fit(s0, d0));
                        }
                        return Result::Err(Error::DeltaOverflow(p));
                    }
                    deltas.set(p, sum_wide as i64);
                    proof {
                        let ki = i as int;
                        let pi = p as int;
                        assert(children_sum(s0, d0, pi, ki) == subtree_sum(s0, d0, ki)
                            + children_sum(s0, d0, pi, ki + 1));
                        assert(deltas@[pi] as int == d0[pi] + children_sum(s0, d0, pi, ki));
                        assert forall|i2: int|
                            0 <= i2 < ki implies (#[trigger] deltas@[i2]) as int == d0[i2]
                            + children_sum(s0, d0, i2, ki) by {
                            if i2 != pi {
                                assert(s0[ki].parent != Option::Some(i2 as usize));
                                assert(children_sum(s0, d0, i2, ki) == children_sum(
                                    s0,
                                    d0,
                                    i2,
                                    ki + 1,
                                ));
                            }
                        }
                        assert forall|i2: int, j2: int|
                            0 <= i2 < n && i2 < j2 <= n && ki <= j2 implies i64::MIN <= d0[i2]
                            + #[trigger] children_sum(s0, d0, i2, j2) <= i64::MAX by {
                            if j2 == ki {
                                if i2 != pi {
                                    assert(s0[ki].parent != Option::Some(i2 as usize));
                                    assert(children_sum(s0, d0, i2, ki) == children_sum(
                                        s0,
                                        d0,
                                        i2,
                                        ki + 1,
                                    ));
                                } else {
                                    assert(d0[pi] + children_sum(s0, d0, pi, ki) == deltas@[
                                        pi] as int);
                                }
                            }
                        }
                        if cond_noop {
                            assert(d0[ki] == dv0[ki] as int);
                            assert(d == 0);
                            assert(deltas@ =~= dv0);
                        }
                    }
                    // Decide viability of the node under the (possibly new)
                    // filter and update the parent's links.
                    let viable = node.justified_epoch == justified_epoch && node.finalized_epoch
                        == fin_epoch;
                    if !viable {
                        // A non-viable node may not stay anyone's best
                        // child once an FFG update is required.
                        if ffg_required {
                            let pnode = self.nodes[p];
                            let clear = match pnode.best_child {
                                Option::Some(b) => b == i,
                                Option::None => false,
                            };
                            if clear {
                                let ghost s_pre_clear = self.nodes@;
                                self.nodes.set(
                                    p,
                                    ProtoNode {
                                        best_child: Option::None,
                                        best_descendant: Option::None,
                                        ..pnode
                                    },
                                );
                                proof {
                                    assert forall|i2: int|
                                        0 <= i2 < n implies node_links_ok(self.nodes@, i2) by {
                                        assert(node_links_ok(s_pre_clear, i2));
                                        assert(self.nodes@[i2].parent == s_pre_clear[i2].parent);
                                        if i2 != p as int {
                                            assert(self.nodes@[i2] == s_pre_clear[i2]);
                                        }
                                    }

                        let ki = i as int;
                        let sc = self.nodes@;
                        assert forall|p2: int|
                            0 <= p2 < n implies (match (#[trigger] sc[p2]).best_child {
                            Option::Some(c) => (c as int >= ki || !ffg_required) ==> s0[
                                c as int].spec_viable(justified_epoch, fin_epoch),
                            Option::None => true,
                        }) by {
                            assert(node_links_ok(sc, p2));
                            if p2 != p as int {
                                assert(sc[p2] == s_mid[p2]);
                            }
                            match sc[p2].best_child {
                                Option::Some(c) => {
                                    if c as int == ki {
                                        assert(sc[ki].parent == Option::Some(p2 as usize));
                                    }
                                },
                                Option::None => {},
                            }
                        }
                        assert forall|p2: int|
                            0 <= p2 < n implies (match (#[trigger] sc[p2]).best_child {
                            Option::Some(c) => c as int >= ki ==> sc[p2].best_descendant
                                == opt_descendant(sc[c as int].best_descendant, c),
                            Option::None => true,
                        }) by {
                            assert(node_links_ok(sc, p2));
                            if p2 != p as int {
                                assert(sc[p2] == s_mid[p2]);
                            }
                            match sc[p2].best_child {
                                Option::Some(c) => {
                                    if c as int == ki {
                                        assert(sc[ki].parent == Option::Some(p2 as usize));
                                    } else if c as int >= ki {
                                        assert(sc[c as int] == s_mid[c as int]);
                                    }
                                },
                                Option::None => {},
                            }
                        }
                        if all_zero(d0) {
                            assert(s0[ki].justified_epoch == node.justified_epoch);
                            assert(s0[ki].finalized_epoch == node.finalized_epoch);
                            assert forall|x: int|
                                0 <= x < n && x != p as int implies sc[x] == s_pre_clear[x] by {}
                            lemma_zeros_dominant_clear(
                                sc,
                                s_pre_clear,
                                s0,
                                justified_epoch,
                                fin_epoch,
                                k as int,
                                ki,
                                p as int,
                            );
                        }
                        if cond_noop {
                            assert(!ffg_required);
                        }
                        assert(s0[ki].justified_epoch == node.justified_epoch);
                        assert(s0[ki].finalized_epoch == node.finalized_epoch);
                        assert forall|x: int|
                            0 <= x < n implies (#[trigger] sc[x]).parent == s_pre_weight[
                            x].parent by {
                            if x != p as int {
                                assert(sc[x] == s_pre_clear[x]);
                            }
                        }
                        assert forall|x: int|
                            0 <= x < n && x != p as int implies (#[trigger] sc[x]).best_child
                            == s_pre_weight[x].best_child by {
                            assert(sc[x] == s_pre_clear[x]);
                        }
                        assert(s_pre_weight[p as int].best_child == Option::Some(i));
                        lemma_viable_covered_clear(
                            sc,
                            s_pre_weight,
                            s0,
                            justified_epoch,
                            fin_epoch,
                            k as int,
                            ki,
                            p as int,
                        );
                                }
                            } else {
                                proof {

                        let ki = i as int;
                        let sc = self.nodes@;
                        assert forall|p2: int|
                            0 <= p2 < n implies (match (#[trigger] sc[p2]).best_child {
                            Option::Some(c) => (c as int >= ki || !ffg_required) ==> s0[
                                c as int].spec_viable(justified_epoch, fin_epoch),
                            Option::None => true,
                        }) by {
                            assert(node_links_ok(sc, p2));
                            assert(sc[p2] == s_mid[p2]);
                            match sc[p2].best_child {
                                Option::Some(c) => {
                                    if c as int == ki {
                                        assert(sc[ki].parent == Option::Some(p2 as usize));
                                    }
                                },
                                Option::None => {},
                            }
                        }
                        assert forall|p2: int|
                            0 <= p2 < n implies (match (#[trigger] sc[p2]).best_child {
                            Option::Some(c) => c as int >= ki ==> sc[p2].best_descendant
                                == opt_descendant(sc[c as int].best_descendant, c),
                            Option::None => true,
                        }) by {
                            assert(node_links_ok(sc, p2));
                            assert(sc[p2] == s_mid[p2]);
                            match sc[p2].best_child {
                                Option::Some(c) => {
                                    if c as int == ki {
                                        assert(sc[ki].parent == Option::Some(p2 as usize));
                                    } else if c as int >= ki {
                                        assert(sc[c as int] == s_mid[c as int]);
                                    }
                                },
                                Option::None => {},
                            }
                        }
                        if all_zero(d0) {
                            assert(s0[ki].justified_epoch == node.justified_epoch);
                            assert(s0[ki].finalized_epoch == node.finalized_epoch);
                            assert forall|p2: int| #[trigger] zeros_dominant_at(
                                sc,
                                s0,
                                justified_epoch,
                                fin_epoch,
                                ki,
                                p2,
                                ki,
                            ) by {}
                            lemma_zeros_dominant_keep(sc, s0, justified_epoch, fin_epoch, k as int);
                        }
                        if cond_noop {
                            assert(!ffg_required);
                        }
                        assert(s0[ki].justified_epoch == node.justified_epoch);
                        assert(s0[ki].finalized_epoch == node.finalized_epoch);
                        assert forall|p2: int| #[trigger] viable_covered_at(
                            sc,
                            s0,
                            justified_epoch,
                            fin_epoch,
                            ki,
                            p2,
                            ki,
                        ) by {}
                        lemma_viable_covered_keep(sc, s_pre_weight, s0, justified_epoch, fin_epoch, k as int);
                                }
                            }
                        } else {
                            proof {

                        let ki = i as int;
                        let sc = self.nodes@;
                        assert forall|p2: int|
                            0 <= p2 < n implies (match (#[trigger] sc[p2]).best_child {
                            Option::Some(c) => (c as int >= ki || !ffg_required) ==> s0[
                                c as int].spec_viable(justified_epoch, fin_epoch),
                            Option::None => true,
                        }) by {
                            assert(node_links_ok(sc, p2));
                            assert(sc[p2] == s_mid[p2]);
                            match sc[p2].best_child {
                                Option::Some(c) => {
                                    if c as int == ki {
                                        assert(sc[ki].parent == Option::Some(p2 as usize));
                                    }
                                },
                                Option::None => {},
                            }
                        }
                        assert forall|p2: int|
                            0 <= p2 < n implies (match (#[trigger] sc[p2]).best_child {
                            Option::Some(c) => c as int >= ki ==> sc[p2].best_descendant
                                == opt_descendant(sc[c as int].best_descendant, c),
                            Option::None => true,
                        }) by {
                            assert(node_links_ok(sc, p2));
                            assert(sc[p2] == s_mid[p2]);
                            match sc[p2].best_child {
                                Option::Some(c) => {
                                    if c as int == ki {
                                        assert(sc[ki].parent == Option::Some(p2 as usize));
                                    } else if c as int >= ki {
                                        assert(sc[c as int] == s_mid[c as int]);
                                    }
                                },
                                Option::None => {},
                            }
                        }
                        if all_zero(d0) {
                            assert(s0[ki].justified_epoch == node.justified_epoch);
                            assert(s0[ki].finalized_epoch == node.finalized_epoch);
                            assert forall|p2: int| #[trigger] zeros_dominant_at(
                                sc,
                                s0,
                                justified_epoch,
                                fin_epoch,
                                ki,
                                p2,
                                ki,
                            ) by {}
                            lemma_zeros_dominant_keep(sc, s0, justified_epoch, fin_epoch, k as int);
                        }
                        assert(s0[ki].justified_epoch == node.justified_epoch);
                        assert(s0[ki].finalized_epoch == node.finalized_epoch);
                        assert forall|p2: int| #[trigger] viable_covered_at(
                            sc,
                            s0,
                            justified_epoch,
                            fin_epoch,
                            ki,
                            p2,
                            ki,
                        ) by {}
                        lemma_viable_covered_keep(sc, s_pre_weight, s0, justified_epoch, fin_epoch, k as int);
                            }
                        }
                    } else {
                        let pbc = self.nodes[p].best_child;
                        match pbc {
                            Option::None => {
                                self.set_best_child(p, i);
                                proof {
                                    let ki = i as int;
                                    let pi = p as int;
                                    let sc = self.nodes@;
                                    assert(node == s_pre_weight[ki]);
                                    assert(s0[ki].spec_viable(justified_epoch, fin_epoch));
                                    assert forall|p2: int|
                                        0 <= p2 < n implies (match (#[trigger] sc[p2]).best_child {
                                        Option::Some(c) => (c as int >= ki || !ffg_required) ==> s0[
                                            c as int].spec_viable(justified_epoch, fin_epoch),
                                        Option::None => true,
                                    }) by {
                                        assert(node_links_ok(sc, p2));
                                        if p2 != pi {
                                            assert(sc[p2] == s_mid[p2]);
                                        }
                                        match sc[p2].best_child {
                                            Option::Some(c) => {
                                                if p2 != pi && c as int == ki {
                                                    assert(sc[ki].parent == Option::Some(
                                                        p2 as usize,
                                                    ));
                                                }
                                            },
                                            Option::None => {},
                                        }
                                    }
                                    assert forall|p2: int|
                                        0 <= p2 < n implies (match (#[trigger] sc[p2]).best_child {
                                        Option::Some(c) => c as int >= ki ==> sc[
                                            p2].best_descendant == opt_descendant(
                                            sc[c as int].best_descendant,
                                            c,
                                        ),
                                        Option::None => true,
                                    }) by {
                                        assert(node_links_ok(sc, p2));
                                        if p2 != pi {
                                            assert(sc[p2] == s_mid[p2]);
                                        }
                                        match sc[p2].best_child {
                                            Option::Some(c) => {
                                                if p2 == pi {
                                                    assert(c as int == ki);
                                                    assert(sc[ki] == s_mid[ki]);
                                                } else if c as int == ki {
                                                    assert(sc[ki].parent == Option::Some(
                                                        p2 as usize,
                                                    ));
                                                } else if c as int >= ki {
                                                    assert(sc[c as int] == s_mid[c as int]);
                                                }
                                            },
                                            Option::None => {},
                                        }
                                    }
                                    if all_zero(d0) {
                                        assert forall|x: int|
                                            0 <= x < n && x != pi implies sc[x] == s_mid[x] by {}
                                        lemma_zeros_dominant_set(
                                            sc,
                                            s_mid,
                                            s0,
                                            justified_epoch,
                                            fin_epoch,
                                            k as int,
                                            ki,
                                            pi,
                                        );
                                    }
                                    if cond_noop {
                                        assert(pre.dominant_at(pi, ki));
                                    }
                                    assert forall|x: int|
                                        0 <= x < n implies (#[trigger] sc[x]).parent
                                        == s_pre_weight[x].parent by {
                                        if x != pi {
                                            assert(sc[x] == s_mid[x]);
                                        }
                                    }
                                    assert forall|x: int|
                                        0 <= x < n && x != pi implies (#[trigger] sc[x]).best_child
                                        == s_pre_weight[x].best_child by {
                                        assert(sc[x] == s_mid[x]);
                                    }
                                    lemma_viable_covered_set(
                                        sc,
                                        s_pre_weight,
                                        s0,
                                        justified_epoch,
                                        fin_epoch,
                                        k as int,
                                        ki,
                                        pi,
                                    );
                                }
                            },
                            Option::Some(b) => {
                                if b == i {
                                    self.set_best_child(p, i);
                                    proof {
                                    let ki = i as int;
                                    let pi = p as int;
                                    let sc = self.nodes@;
                                    assert(node == s_pre_weight[ki]);
                                    assert(s0[ki].spec_viable(justified_epoch, fin_epoch));
                                    assert forall|p2: int|
                                        0 <= p2 < n implies (match (#[trigger] sc[p2]).best_child {
                                        Option::Some(c) => (c as int >= ki || !ffg_required) ==> s0[
                                            c as int].spec_viable(justified_epoch, fin_epoch),
                                        Option::None => true,
                                    }) by {
                                        assert(node_links_ok(sc, p2));
                                        if p2 != pi {
                                            assert(sc[p2] == s_mid[p2]);
                                        }
                                        match sc[p2].best_child {
                                            Option::Some(c) => {
                                                if p2 != pi && c as int == ki {
                                                    assert(sc[ki].parent == Option::Some(
                                                        p2 as usize,
                                                    ));
                                                }
                                            },
                                            Option::None => {},
                                        }
                                    }
                                    assert forall|p2: int|
                                        0 <= p2 < n implies (match (#[trigger] sc[p2]).best_child {
                                        Option::Some(c) => c as int >= ki ==> sc[
                                            p2].best_descendant == opt_descendant(
                                            sc[c as int].best_descendant,
                                            c,
                                        ),
                                        Option::None => true,
                                    }) by {
                                        assert(node_links_ok(sc, p2));
                                        if p2 != pi {
                                            assert(sc[p2] == s_mid[p2]);
                                        }
                                        match sc[p2].best_child {
                                            Option::Some(c) => {
                                                if p2 == pi {
                                                    assert(c as int == ki);
                                                    assert(sc[ki] == s_mid[ki]);
                                                } else if c as int == ki {
                                                    assert(sc[ki].parent == Option::Some(
                                                        p2 as usize,
                                                    ));
                                                } else if c as int >= ki {
                                                    assert(sc[c as int] == s_mid[c as int]);
                                                }
                                            },
                                            Option::None => {},
                                        }
                                    }
                                    if all_zero(d0) {
                                        assert forall|x: int|
                                            0 <= x < n && x != pi implies sc[x] == s_mid[x] by {}
                                        lemma_zeros_dominant_set(
                                            sc,
                                            s_mid,
                                            s0,
                                            justified_epoch,
                                            fin_epoch,
                                            k as int,
                                            ki,
                                            pi,
                                        );
                                    }
                                    if cond_noop {
                                        assert(pre.closure_at(pi));
                                        assert(sc =~= s_mid);
                                    }
                                    assert forall|x: int|
                                        0 <= x < n implies (#[trigger] sc[x]).parent
                                        == s_pre_weight[x].parent by {
                                        if x != pi {
                                            assert(sc[x] == s_mid[x]);
                                        }
                                    }
                                    assert forall|x: int|
                                        0 <= x < n && x != pi implies (#[trigger] sc[x]).best_child
                                        == s_pre_weight[x].best_child by {
                                        assert(sc[x] == s_mid[x]);
                                    }
                                    lemma_viable_covered_set(
                                        sc,
                                        s_pre_weight,
                                        s0,
                                        justified_epoch,
                                        fin_epoch,
                                        k as int,
                                        ki,
                                        pi,
                                    );
                                }
                                } else {
                                    proof {
                                        assert(node_links_ok(self.nodes@, p as int));
                                    }
                                    let nnode = self.nodes[i];
                                    let bnode = self.nodes[b];
                                    let better = nnode.is_better_than(&bnode);
                                    let b_viable = bnode.justified_epoch == justified_epoch
                                        && bnode.finalized_epoch == fin_epoch;
                                    if better || !b_viable {
                                        self.set_best_child(p, i);
                                        proof {
                                    let ki = i as int;
                                    let pi = p as int;
                                    let sc = self.nodes@;
                                    assert(node == s_pre_weight[ki]);
                                    assert(s0[ki].spec_viable(justified_epoch, fin_epoch));
                                    assert forall|p2: int|
                                        0 <= p2 < n implies (match (#[trigger] sc[p2]).best_child {
                                        Option::Some(c) => (c as int >= ki || !ffg_required) ==> s0[
                                            c as int].spec_viable(justified_epoch, fin_epoch),
                                        Option::None => true,
                                    }) by {
                                        assert(node_links_ok(sc, p2));
                                        if p2 != pi {
                                            assert(sc[p2] == s_mid[p2]);
                                        }
                                        match sc[p2].best_child {
                                            Option::Some(c) => {
                                                if p2 != pi && c as int == ki {
                                                    assert(sc[ki].parent == Option::Some(
                                                        p2 as usize,
                                                    ));
                                                }
                                            },
                                            Option::None => {},
                                        }
                                    }
                                    assert forall|p2: int|
                                        0 <= p2 < n implies (match (#[trigger] sc[p2]).best_child {
                                        Option::Some(c) => c as int >= ki ==> sc[
                                            p2].best_descendant == opt_descendant(
                                            sc[c as int].best_descendant,
                                            c,
                                        ),
                                        Option::None => true,
                                    }) by {
                                        assert(node_links_ok(sc, p2));
                                        if p2 != pi {
                                            assert(sc[p2] == s_mid[p2]);
                                        }
                                        match sc[p2].best_child {
                                            Option::Some(c) => {
                                                if p2 == pi {
                                                    assert(c as int == ki);
                                                    assert(sc[ki] == s_mid[ki]);
                                                } else if c as int == ki {
                                                    assert(sc[ki].parent == Option::Some(
                                                        p2 as usize,
                                                    ));
                                                } else if c as int >= ki {
                                                    assert(sc[c as int] == s_mid[c as int]);
                                                }
                                            },
                                            Option::None => {},
                                        }
                                    }
                                    if all_zero(d0) {
                                        assert forall|x: int|
                                            0 <= x < n && x != pi implies sc[x] == s_mid[x] by {}
                                        assert(sc[ki] == s_mid[ki]);
                                        assert(nnode == sc[ki]);
                                        assert(bnode == s_mid[b as int]);
                                        assert(s0[b as int].justified_epoch
                                            == bnode.justified_epoch);
                                        assert(s0[b as int].finalized_epoch
                                            == bnode.finalized_epoch);
                                        lemma_zeros_dominant_set(
                                            sc,
                                            s_mid,
                                            s0,
                                            justified_epoch,
                                            fin_epoch,
                                            k as int,
                                            ki,
                                            pi,
                                        );
                                    }
                                    if cond_noop {
                                        assert(pre.dominant_at(pi, ki));
                                        assert(pre.bc_viable_at(pi));
                                        assert(s_mid[ki].root != s_mid[b as int].root);
                                        lemma_better_than_total(s_mid[ki], s_mid[b as int]);
                                    }
                                    assert forall|x: int|
                                        0 <= x < n implies (#[trigger] sc[x]).parent
                                        == s_pre_weight[x].parent by {
                                        if x != pi {
                                            assert(sc[x] == s_mid[x]);
                                        }
                                    }
                                    assert forall|x: int|
                                        0 <= x < n && x != pi implies (#[trigger] sc[x]).best_child
                                        == s_pre_weight[x].best_child by {
                                        assert(sc[x] == s_mid[x]);
                                    }
                                    lemma_viable_covered_set(
                                        sc,
                                        s_pre_weight,
                                        s0,
                                        justified_epoch,
                                        fin_epoch,
                                        k as int,
                                        ki,
                                        pi,
                                    );
                                }
                                    } else {
                                        proof {
                                            let ki = i as int;
                                            let sc = self.nodes@;
                                            assert(sc == s_mid);
                                            assert(bnode == s_mid[b as int]);
                                            assert(s0[b as int].spec_viable(
                                                justified_epoch,
                                                fin_epoch,
                                            ));
                                            assert forall|p2: int|
                                                0 <= p2 < n implies (match (#[trigger] sc[p2]).best_child {
                                                Option::Some(c) => (c as int >= ki
                                                    || !ffg_required) ==> s0[
                                                    c as int].spec_viable(
                                                    justified_epoch,
                                                    fin_epoch,
                                                ),
                                                Option::None => true,
                                            }) by {
                                                assert(node_links_ok(sc, p2));
                                                match sc[p2].best_child {
                                                    Option::Some(c) => {
                                                        if c as int == ki {
                                                            assert(sc[ki].parent == Option::Some(
                                                                p2 as usize,
                                                            ));
                                                        }
                                                    },
                                                    Option::None => {},
                                                }
                                            }
                                            assert forall|p2: int|
                                                0 <= p2 < n implies (match (#[trigger] sc[p2]).best_child {
                                                Option::Some(c) => c as int >= ki ==> sc[
                                                    p2].best_descendant == opt_descendant(
                                                    sc[c as int].best_descendant,
                                                    c,
                                                ),
                                                Option::None => true,
                                            }) by {
                                                assert(node_links_ok(sc, p2));
                                                match sc[p2].best_child {
                                                    Option::Some(c) => {
                                                        if c as int == ki {
                                                            assert(sc[ki].parent == Option::Some(
                                                                p2 as usize,
                                                            ));
                                                        }
                                                    },
                                                    Option::None => {},
                                                }
                                            }
                                            if all_zero(d0) {
                                                assert(s0[b as int].justified_epoch
                                                    == bnode.justified_epoch);
                                                assert(s0[b as int].finalized_epoch
                                                    == bnode.finalized_epoch);
                                                assert(bnode == sc[b as int]);
                                                assert(nnode == sc[ki]);
                                                lemma_better_than_total(sc[b as int], sc[ki]);
                                                assert forall|p2: int| #[trigger] zeros_dominant_at(
                                                    sc,
                                                    s0,
                                                    justified_epoch,
                                                    fin_epoch,
                                                    ki,
                                                    p2,
                                                    ki,
                                                ) by {
                                                    if 0 <= p2 < n && ki < n && sc[ki].parent
                                                        == Option::Some(p2 as usize) && s0[
                                                        ki].spec_viable(
                                                        justified_epoch,
                                                        fin_epoch,
                                                    ) {
                                                        assert(p2 == p as int);
                                                        assert(sc[p2].best_child == Option::Some(
                                                            b,
                                                        ));
                                                    }
                                                }
                                                lemma_zeros_dominant_keep(
                                                    sc,
                                                    s0,
                                                    justified_epoch,
                                                    fin_epoch,
                                                    k as int,
                                                );
                                            }
                                            assert(s0[b as int].justified_epoch
                                                == bnode.justified_epoch);
                                            assert(s0[b as int].finalized_epoch
                                                == bnode.finalized_epoch);
                                            assert forall|p2: int| #[trigger] viable_covered_at(
                                                sc,
                                                s0,
                                                justified_epoch,
                                                fin_epoch,
                                                ki,
                                                p2,
                                                ki,
                                            ) by {
                                                if 0 <= p2 < n && ki < n && sc[ki].parent
                                                    == Option::Some(p2 as usize) && s0[
                                                    ki].spec_viable(justified_epoch, fin_epoch) {
                                                    assert(p2 == p as int);
                                                    assert(sc[p2].best_child == Option::Some(b));
                                                }
                                            }
                                            lemma_viable_covered_keep(
                                                sc,
                                                s_pre_weight,
                                                s0,
                                                justified_epoch,
                                                fin_epoch,
                                                k as int,
                                            );
                                        }
                                    }
                                }
                            },
                        }
                    }
                },
            }
            k = i;
        }
        self.ffg_update_required = false;
        proof {
            assert forall|i2: int, j2: int|
                0 <= i2 < n && 0 <= j2 < n && i2 != j2 implies self.nodes@[i2].root != self.nodes@[
                j2].root by {
                assert(self.nodes@[i2].root == s0[i2].root);
                assert(self.nodes@[j2].root == s0[j2].root);
            }
            assert forall|i2: int| 0 <= i2 < n implies !(#[trigger] self.nodes@[i2]).root.spec_is_zero() by {
                assert(self.nodes@[i2].root == s0[i2].root);
            }
            lemma_fit_complete(*self, s0, d0);
            lemma_pass_complete(*self, s0, justified_epoch, fin_epoch);
            lemma_covered_complete(*self, s0, justified_epoch, fin_epoch);
            if all_zero(d0) {
                lemma_zeros_dominant_complete(*self, s0, justified_epoch, fin_epoch);
            }
        }
        Result::Ok(())
    }

    /// Whether `query` appears while walking parents from `cur` down to
    /// `base` (inclusive).
    pub open spec fn spec_on_chain(s: Seq<ProtoNode>, cur: int, base: int, query: Root) -> bool
        decreases cur,
    {
        if 0 <= cur < s.len() {
            if s[cur].root == query {
                true
            } else if cur == base {
                false
            } else {
                match s[cur].parent {
                    Option::Some(p) => if (p as int) < cur {
                        Self::spec_on_chain(s, p as int, base, query)
                    } else {
                        false
                    },
                    Option::None => false,
                }
            }
        } else {
            false
        }
    }

    /// Whether `query` lies on the canonical chain that starts at `base`:
    /// the segment from the base's deepest favored descendant back down to
    /// the base itself. An unknown base yields `false`.
    pub open spec fn spec_on_canonical_chain(self, base: Root, query: Root) -> bool {
        match spec_lookup(self.nodes@, base) {
            Option::Some(bi) => {
                let hi = match self.nodes@[bi as int].best_descendant {
                    Option::Some(d) => d as int,
                    Option::None => bi as int,
                };
                Self::spec_on_chain(self.nodes@, hi, bi as int, query)
            },
            Option::None => false,
        }
    }

    /// Walk the canonical chain from `base` looking for `query`.
    #[verifier::loop_isolation(false)]
    pub fn is_on_canonical_chain(&self, base: &Root, query: &Root) -> (r: bool)
        requires
            self.wf(),
        ensures
            r == self.spec_on_canonical_chain(*base, *query),
    {
        let base_index = match self.lookup_index(base) {
            Option::Some(bi) => bi,
            Option::None => {
                return false;
            },
        };
        proof {
            assert(node_links_ok(self.nodes@, base_index as int));
        }
        let mut cur = match self.nodes[base_index].best_descendant {
            Option::Some(d) => d,
            Option::None => base_index,
        };
        loop
            invariant
                (cur as int) < self.nodes@.len(),
                Self::spec_on_chain(self.nodes@, cur as int, base_index as int, *query)
                    == self.spec_on_canonical_chain(*base, *query),
            decreases cur,
        {
            proof {
                assert(node_links_ok(self.nodes@, cur as int));
            }
            if self.nodes[cur].root == *query {
                return true;
            }
            if cur == base_index {
                return false;
            }
            match self.nodes[cur].parent {
                Option::Some(p) => {
                    cur = p;
                },
                Option::None => {
                    return false;
                },
            }
        }
    }

    /// Check the always-holding invariant on an array that did not come
    /// from this module's own operations (one rebuilt from the wire form):
    /// the wire form itself cannot guarantee it.
    #[verifier::loop_isolation(false)]
    pub fn check_well_formed(&self) -> (r: bool)
        ensures
            r == self.wf(),
    {
        let n = self.nodes.len();
        let mut i: usize = 0;
        while i < n
            invariant
                i <= n,
                forall|t: int| 0 <= t < i as int ==> node_links_ok(self.nodes@, t),
            decreases n - i,
        {
            let node = self.nodes[i];
            let ok_parent = match node.parent {
                Option::Some(p) => p < i,
                Option::None => true,
            };
            let ok_best_child = match node.best_child {
                Option::Some(c) => if i < c && c < n {
                    match self.nodes[c].parent {
                        Option::Some(q) => q == i,
                        Option::None => false,
                    }
                } else {
                    false
                },
                Option::None => true,
            };
            let ok_best_descendant = match node.best_descendant {
                Option::Some(d) => i < d && d < n,
                Option::None => true,
            };
            let ok_paired = node.best_child.is_some() == node.best_descendant.is_some();
            if !(ok_parent && ok_best_child && ok_best_descendant && ok_paired) {
                proof {
                    assert(!node_links_ok(self.nodes@, i as int));
                }
                return false;
            }
            i = i + 1;
        }
        let mut a: usize = 0;
        while a < n
            invariant
                a <= n,
                forall|x: int, y: int|
                    0 <= x < a as int && 0 <= y < n as int && x != y ==> self.nodes@[x].root
                        != self.nodes@[y].root,
                forall|x: int| 0 <= x < a as int ==> !(#[trigger] self.nodes@[x]).root.spec_is_zero(),
            decreases n - a,
        {
            if self.nodes[a].root.is_zero() {
                return false;
            }
            let mut b: usize = 0;
            while b < n
                invariant
                    b <= n,
                    a < n,
                    forall|y: int|
                        0 <= y < b as int && y != a as int ==> self.nodes@[a as int].root
                            != self.nodes@[y].root,
                decreases n - b,
            {
                if b != a && self.nodes[a].root == self.nodes[b].root {
                    return false;
                }
                b = b + 1;
            }
            proof {
                assert forall|x: int, y: int|
                    0 <= x < a as int + 1 && 0 <= y < n as int && x != y implies self.nodes@[
                    x].root != self.nodes@[y].root by {
                    if x == a as int {
                        assert(self.nodes@[x].root != self.nodes@[y].root);
                    } else if y == a as int {
                        assert(self.nodes@[y].root != self.nodes@[x].root);
                    }
                }
            }
            a = a + 1;
        }
        if !self.ffg_update_required {
            let mut v: usize = 0;
            while v < n
                invariant
                    v <= n,
                    forall|t: int| 0 <= t < v as int ==> self.bc_viable_at(t),
                decreases n - v,
            {
                proof {
                    assert(node_links_ok(self.nodes@, v as int));
                }
                match self.nodes[v].best_child {
                    Option::Some(c) => {
                        let child = self.nodes[c];
                        if child.justified_epoch != self.justified_epoch || child.finalized_epoch
                            != self.finalized_epoch {
                            proof {
                                assert(!self.bc_viable_at(v as int));
                            }
                            return false;
                        }
                    },
                    Option::None => {},
                }
                v = v + 1;
            }
            proof {
                assert(self.pointers_viable());
            }
        }
        proof {
            assert(self.wf());
        }
        true
    }

    /// A node as it looks after everything below `fi` is pruned away: index
    /// fields shift down by `fi`; a parent that falls below the cut is gone.
    pub open spec fn spec_pruned_node(nd: ProtoNode, fi: int) -> ProtoNode {
        ProtoNode {
            parent: match nd.parent {
                Option::Some(p) => if p as int >= fi {
                    Option::Some((p as int - fi) as usize)
                } else {
                    Option::None
                },
                Option::None => Option::None,
            },
            best_child: match nd.best_child {
                Option::Some(c) => Option::Some((c as int - fi) as usize),
                Option::None => Option::None,
            },
            best_descendant: match nd.best_descendant {
                Option::Some(d) => Option::Some((d as int - fi) as usize),
                Option::None => Option::None,
            },
            ..nd
        }
    }

    /// Update the array with new finalization information, and compact it
    /// so that the finalized node becomes index 0 once the finalized node
    /// sits at least `prune_threshold` deep.
    ///
    /// Finalization is monotone: rewriting the root at the same epoch or
    /// rewinding the epoch is refused and leaves the array unchanged. When
    /// the pair advances, an FFG update is left pending for the next score
    /// pass to filter stale pointers.
    #[verifier::loop_isolation(false)]
    pub fn maybe_prune(&mut self, finalized_epoch: u64, finalized_root: Root) -> (r: Result<
        (),
        Error,
    >)
        requires
            old(self).wf(),
        ensures
            final(self).wf(),
            final(self).justified_epoch == old(self).justified_epoch,
            final(self).prune_threshold == old(self).prune_threshold,
            final(self).finalized_epoch >= old(self).finalized_epoch,
            final(self).finalized_epoch == old(self).finalized_epoch ==> final(self).finalized_root
                == old(self).finalized_root,
            match r {
                Result::Ok(()) => {
                    let fi_opt = spec_lookup(old(self).nodes@, finalized_root);
                    &&& !(finalized_epoch == old(self).finalized_epoch && finalized_root != old(
                        self,
                    ).finalized_root)
                    &&& finalized_epoch >= old(self).finalized_epoch
                    &&& final(self).finalized_epoch == finalized_epoch
                    &&& final(self).finalized_root == finalized_root
                    &&& final(self).ffg_update_required == (old(self).ffg_update_required
                        || finalized_epoch != old(self).finalized_epoch)
                    &&& fi_opt is Some
                    &&& {
                        let fi = fi_opt->0 as int;
                        if fi < old(self).prune_threshold as int {
                            final(self).nodes@ == old(self).nodes@
                        } else {
                            &&& final(self).nodes@.len() == old(self).nodes@.len() - fi
                            &&& forall|j: int|
                                0 <= j < final(self).nodes@.len() ==> #[trigger] final(self).nodes@[j]
                                    == Self::spec_pruned_node(old(self).nodes@[fi + j], fi)
                        }
                    }
                },
                Result::Err(e) => match e {
                    Error::InvalidFinalizedRootChange => {
                        &&& finalized_epoch == old(self).finalized_epoch
                        &&& finalized_root != old(self).finalized_root
                        &&& *final(self) == *old(self)
                    },
                    Error::RevertedFinalizedEpoch => {
                        &&& finalized_epoch < old(self).finalized_epoch
                        &&& *final(self) == *old(self)
                    },
                    Error::FinalizedNodeUnknown(fr) => {
                        &&& fr == finalized_root
                        &&& !has_root(old(self).nodes@, finalized_root)
                        &&& !(finalized_epoch == old(self).finalized_epoch && finalized_root
                            != old(self).finalized_root)
                        &&& finalized_epoch >= old(self).finalized_epoch
                        &&& final(self).nodes@ == old(self).nodes@
                        &&& final(self).finalized_epoch == finalized_epoch
                        &&& final(self).finalized_root == finalized_root
                    },
                    _ => false,
                },
            },
    {
        if finalized_epoch == self.finalized_epoch && self.finalized_root != finalized_root {
            // Swapping the finalized root at the same epoch would revert a
            // finalized block.
            return Result::Err(Error::InvalidFinalizedRootChange);
        } else if finalized_epoch < self.finalized_epoch {
            // So would moving to an earlier finalized epoch.
            return Result::Err(Error::RevertedFinalizedEpoch);
        } else if finalized_epoch != self.finalized_epoch {
            self.finalized_epoch = finalized_epoch;
            self.finalized_root = finalized_root;
            self.ffg_update_required = true;
        }
        let finalized_index = match self.lookup_index(&self.finalized_root) {
            Option::Some(fi) => fi,
            Option::None => {
                return Result::Err(Error::FinalizedNodeUnknown(self.finalized_root));
            },
        };
        if finalized_index < self.prune_threshold {
            // Pruning at small numbers incurs more cost than benefit.
            return Result::Ok(());
        }
        let n = self.nodes.len();
        let ghost s_old = self.nodes@;
        let ghost fi = finalized_index as int;
        let mut new_nodes: Vec<ProtoNode> = Vec::new();
        let mut j = finalized_index;
        while j < n
            invariant
                finalized_index <= j <= n,
                n == self.nodes@.len(),
                s_old == self.nodes@,
                fi == finalized_index as int,
                new_nodes@.len() == j - finalized_index,
                forall|t: int|
                    0 <= t < new_nodes@.len() ==> #[trigger] new_nodes@[t]
                        == Self::spec_pruned_node(s_old[fi + t], fi),
            decreases n - j,
        {
            proof {
                assert(node_links_ok(self.nodes@, j as int));
            }
            let node = self.nodes[j];
            let parent: Option<usize> = match node.parent {
                Option::Some(p) => if p >= finalized_index {
                    Option::Some(p - finalized_index)
                } else {
                    // The parent was pruned away: this node starts the new
                    // anchor line.
                    Option::None
                },
                Option::None => Option::None,
            };
            let best_child: Option<usize> = match node.best_child {
                Option::Some(c) => {
                    if c < finalized_index {
                        // Cannot happen: a best-child sits above its node.
                        return Result::Err(Error::IndexOverflow(c));
                    }
                    Option::Some(c - finalized_index)
                },
                Option::None => Option::None,
            };
            let best_descendant: Option<usize> = match node.best_descendant {
                Option::Some(d) => {
                    if d < finalized_index {
                        // Cannot happen: a best-descendant sits above its
                        // node.
                        return Result::Err(Error::IndexOverflow(d));
                    }
                    Option::Some(d - finalized_index)
                },
                Option::None => Option::None,
            };
            new_nodes.push(ProtoNode { parent, best_child, best_descendant, ..node });
            j = j + 1;
        }
        self.nodes = new_nodes;
        proof {
            let sc = self.nodes@;
            assert forall|t: int| 0 <= t < sc.len() implies node_links_ok(sc, t) by {
                assert(node_links_ok(s_old, fi + t));
                assert(sc[t] == Self::spec_pruned_node(s_old[fi + t], fi));
                match sc[t].best_child {
                    Option::Some(c) => {
                        assert(s_old[fi + c as int].parent == Option::Some((fi + t) as usize));
                        assert(sc[c as int] == Self::spec_pruned_node(s_old[fi + c as int], fi));
                    },
                    Option::None => {},
                }
            }
            assert forall|t1: int, t2: int|
                0 <= t1 < sc.len() && 0 <= t2 < sc.len() && t1 != t2 implies sc[t1].root != sc[
                t2].root by {
                assert(sc[t1].root == s_old[fi + t1].root);
                assert(sc[t2].root == s_old[fi + t2].root);
            }
            assert forall|t: int| 0 <= t < sc.len() implies !sc[t].root.spec_is_zero() by {
                assert(sc[t].root == s_old[fi + t].root);
            }
            if !self.ffg_update_required {
                assert forall|t: int| 0 <= t < sc.len() implies self.bc_viable_at(t) by {
                    assert(old(self).bc_viable_at(fi + t));
                    assert(sc[t] == Self::spec_pruned_node(s_old[fi + t], fi));
                    match sc[t].best_child {
                        Option::Some(c) => {
                            assert(node_links_ok(s_old, fi + t));
                            assert(sc[c as int] == Self::spec_pruned_node(
                                s_old[fi + c as int],
                                fi,
                            ));
                        },
                        Option::None => {},
                    }
                }
            }
        }
        Result::Ok(())
    }

    /// Follows the best-descendant link of the justified node to find the
    /// head block.
    ///
    /// The result is only guaranteed fresh when a score pass has run since
    /// the last new block: `on_new_block` does not walk back through the
    /// tree updating the links.
    pub fn find_head(&self, justified_root: &Root) -> (r: Result<Root, Error>)
        requires
            self.wf(),
        ensures
            match r {
                Result::Ok(h) => {
                    let ji = index_of_root(self.nodes@, *justified_root);
                    let hi = match self.nodes@[ji].best_descendant {
                        Option::Some(d) => d as int,
                        Option::None => ji,
                    };
                    &&& has_root(self.nodes@, *justified_root)
                    &&& self.spec_viable_at(ji)
                    &&& h == self.nodes@[hi].root
                },
                Result::Err(e) => match e {
                    Error::JustifiedNodeUnknown(fr) => !has_root(self.nodes@, *justified_root)
                        && fr == self.finalized_root,
                    Error::InvalidFindHeadStartRoot => has_root(self.nodes@, *justified_root)
                        && !self.spec_viable_at(index_of_root(self.nodes@, *justified_root)),
                    _ => false,
                },
            },
    {
        let justified_index = match self.lookup_index(justified_root) {
            Option::Some(i) => i,
            Option::None => {
                return Result::Err(Error::JustifiedNodeUnknown(self.finalized_root));
            },
        };
        proof {
            assert(has_root(self.nodes@, *justified_root));
            let j = index_of_root(self.nodes@, *justified_root);
            assert(0 <= j < self.nodes@.len() && self.nodes@[j].root == *justified_root);
            assert(self.nodes@[j].root == self.nodes@[justified_index as int].root);
            assert(j == justified_index as int);
            assert(node_links_ok(self.nodes@, j));
        }
        let justified_node = self.nodes[justified_index];
        // It is a logic error to start from a block that the FFG filter
        // would remove.
        if justified_node.justified_epoch != self.justified_epoch || justified_node.finalized_epoch
            != self.finalized_epoch {
            return Result::Err(Error::InvalidFindHeadStartRoot);
        }
        let best_descendant_index = match justified_node.best_descendant {
            Option::Some(d) => d,
            Option::None => justified_index,
        };
        let best_node = self.nodes[best_descendant_index];
        Result::Ok(best_node.root)
    }
}

} // verus!
