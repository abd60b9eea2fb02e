use vstd::prelude::*;
use crate::checkpoints::{Checkpoint, CheckpointManager, CheckpointWithBalances, FfgCheckpoints};
use crate::error::Error;
use crate::engine::{
    lemma_pointers_viable_bridge, links_ok, nodes_pointers_viable, roots_distinct, roots_nonzero,
};
use crate::node::ProtoNode;
use crate::root::Root;
use crate::votes::Vote;

verus! {

// The wire form is deterministic and compact: every field is one or more
// 64-bit words, laid out in declared order, and the word stream is written
// little-endian. Lists are length-prefixed; an optional index is a tag word
// (0 or 1) followed by a value word that is zero when absent.

/// The mathematical content of a serialized fork-choice core.
pub struct ForkChoiceModel {
    pub genesis_block_root: Root,
    pub current_justified_epoch: u64,
    pub current_justified_root: Root,
    pub current_balances: Seq<u64>,
    pub current_finalized: Checkpoint,
    pub best_justified_epoch: u64,
    pub best_justified_root: Root,
    pub best_balances: Seq<u64>,
    pub best_finalized: Checkpoint,
    pub prune_threshold: usize,
    pub ffg_update_required: bool,
    pub justified_epoch: u64,
    pub finalized_epoch: u64,
    pub finalized_root: Root,
    pub nodes: Seq<ProtoNode>,
    pub votes: Seq<Vote>,
}

pub open spec fn fc_model(fc: crate::fork_choice::ForkChoice) -> ForkChoiceModel {
    ForkChoiceModel {
        genesis_block_root: fc.genesis_block_root,
        current_justified_epoch: fc.checkpoint_manager.current.justified.epoch,
        current_justified_root: fc.checkpoint_manager.current.justified.root,
        current_balances: fc.checkpoint_manager.current.justified.balances@,
        current_finalized: fc.checkpoint_manager.current.finalized,
        best_justified_epoch: fc.checkpoint_manager.best.justified.epoch,
        best_justified_root: fc.checkpoint_manager.best.justified.root,
        best_balances: fc.checkpoint_manager.best.justified.balances@,
        best_finalized: fc.checkpoint_manager.best.finalized,
        prune_threshold: fc.backend.prune_threshold,
        ffg_update_required: fc.backend.ffg_update_required,
        justified_epoch: fc.backend.justified_epoch,
        finalized_epoch: fc.backend.finalized_epoch,
        finalized_root: fc.backend.finalized_root,
        nodes: fc.backend.nodes@,
        votes: fc.votes.votes@,
    }
}

pub open spec fn root_words(r: Root) -> Seq<u64> {
    seq![r.l0, r.l1, r.l2, r.l3]
}

pub open spec fn opt_words(o: Option<usize>) -> Seq<u64> {
    match o {
        Option::Some(x) => seq![1u64, x as u64],
        Option::None => seq![0u64, 0u64],
    }
}

/// Word `t` of the 13-word record of one node.
pub open spec fn node_word(n: ProtoNode, t: int) -> u64 {
    if t < 4 {
        root_words(n.root)[t]
    } else if t < 6 {
        opt_words(n.parent)[t - 4]
    } else if t == 6 {
        n.justified_epoch
    } else if t == 7 {
        n.finalized_epoch
    } else if t == 8 {
        n.weight
    } else if t < 11 {
        opt_words(n.best_child)[t - 9]
    } else {
        opt_words(n.best_descendant)[t - 11]
    }
}

/// Word `t` of the 9-word record of one vote.
pub open spec fn vote_word(v: Vote, t: int) -> u64 {
    if t < 4 {
        root_words(v.current_root)[t]
    } else if t < 8 {
        root_words(v.next_root)[t - 4]
    } else {
        v.next_epoch
    }
}

pub open spec fn mgr_words_len(m: ForkChoiceModel) -> int {
    22 + m.current_balances.len() as int + m.best_balances.len() as int
}

/// Word `k` of the checkpoint-manager section.
pub open spec fn mgr_word(m: ForkChoiceModel, k: int) -> u64 {
    let cbl = m.current_balances.len() as int;
    let bbl = m.best_balances.len() as int;
    if k == 0 {
        m.current_justified_epoch
    } else if k < 5 {
        root_words(m.current_justified_root)[k - 1]
    } else if k == 5 {
        cbl as u64
    } else if k < 6 + cbl {
        m.current_balances[k - 6]
    } else if k == 6 + cbl {
        m.current_finalized.epoch
    } else if k < 11 + cbl {
        root_words(m.current_finalized.root)[k - 7 - cbl]
    } else if k == 11 + cbl {
        m.best_justified_epoch
    } else if k < 16 + cbl {
        root_words(m.best_justified_root)[k - 12 - cbl]
    } else if k == 16 + cbl {
        bbl as u64
    } else if k < 17 + cbl + bbl {
        m.best_balances[k - 17 - cbl]
    } else if k == 17 + cbl + bbl {
        m.best_finalized.epoch
    } else {
        root_words(m.best_finalized.root)[k - 18 - cbl - bbl]
    }
}

pub open spec fn bk_words_len(m: ForkChoiceModel) -> int {
    10 + 13 * m.nodes.len() as int + 9 * m.votes.len() as int
}

/// Word `k` of the engine-and-votes section: what the original persisted
/// as the opaque backend byte blob.
pub open spec fn bk_word(m: ForkChoiceModel, k: int) -> u64 {
    let nc = m.nodes.len() as int;
    if k == 0 {
        m.prune_threshold as u64
    } else if k == 1 {
        if m.ffg_update_required {
            1u64
        } else {
            0u64
        }
    } else if k == 2 {
        m.justified_epoch
    } else if k == 3 {
        m.finalized_epoch
    } else if k < 8 {
        root_words(m.finalized_root)[k - 4]
    } else if k == 8 {
        nc as u64
    } else if k < 9 + 13 * nc {
        node_word(m.nodes[(k - 9) / 13], (k - 9) % 13)
    } else if k == 9 + 13 * nc {
        m.votes.len() as u64
    } else {
        vote_word(m.votes[(k - 10 - 13 * nc) / 9], (k - 10 - 13 * nc) % 9)
    }
}

pub open spec fn backend_words(m: ForkChoiceModel) -> Seq<u64> {
    Seq::new(bk_words_len(m) as nat, |k: int| bk_word(m, k))
}

pub open spec fn manager_words(m: ForkChoiceModel) -> Seq<u64> {
    Seq::new(mgr_words_len(m) as nat, |k: int| mgr_word(m, k))
}

/// The full wire form, as 64-bit words.
pub open spec fn fc_words(m: ForkChoiceModel) -> Seq<u64> {
    root_words(m.genesis_block_root) + manager_words(m) + backend_words(m)
}

pub open spec fn wroot(w: Seq<u64>, i: int) -> Root {
    Root { l0: w[i], l1: w[i + 1], l2: w[i + 2], l3: w[i + 3] }
}

/// An optional index is well-formed when its tag is 0 (with a zero value
/// word) or 1 (with a value that fits a `usize`).
pub open spec fn wopt_valid(w: Seq<u64>, i: int) -> bool {
    ||| (w[i] == 0 && w[i + 1] == 0)
    ||| (w[i] == 1 && w[i + 1] <= usize::MAX as u64)
}

pub open spec fn wopt(w: Seq<u64>, i: int) -> Option<usize> {
    if w[i] == 1 {
        Option::Some(w[i + 1] as usize)
    } else {
        Option::None
    }
}

pub open spec fn wnode_valid(w: Seq<u64>, j: int) -> bool {
    wopt_valid(w, j + 4) && wopt_valid(w, j + 9) && wopt_valid(w, j + 11)
}

pub open spec fn wnode(w: Seq<u64>, j: int) -> ProtoNode {
    ProtoNode {
        root: wroot(w, j),
        parent: wopt(w, j + 4),
        justified_epoch: w[j + 6],
        finalized_epoch: w[j + 7],
        weight: w[j + 8],
        best_child: wopt(w, j + 9),
        best_descendant: wopt(w, j + 11),
    }
}

pub open spec fn wvote(w: Seq<u64>, j: int) -> Vote {
    Vote { current_root: wroot(w, j), next_root: wroot(w, j + 4), next_epoch: w[j + 8] }
}

/// Parse one checkpoint-with-balances section starting at word `i`.
pub open spec fn parse_cwb(w: Seq<u64>, i: int) -> Option<((u64, Root, Seq<u64>), int)> {
    if i + 6 <= w.len() && w[i + 5] <= usize::MAX as u64 && i + 6 + w[i + 5] as int <= w.len() {
        let bl = w[i + 5] as int;
        Option::Some(((w[i], wroot(w, i + 1), w.subrange(i + 6, i + 6 + bl)), i + 6 + bl))
    } else {
        Option::None
    }
}

/// Parse one plain checkpoint starting at word `i`.
pub open spec fn parse_cp(w: Seq<u64>, i: int) -> Option<(Checkpoint, int)> {
    if i + 5 <= w.len() {
        Option::Some((Checkpoint { epoch: w[i], root: wroot(w, i + 1) }, i + 5))
    } else {
        Option::None
    }
}

/// Parse the engine and vote table starting at word `i`.
pub open spec fn parse_backend(w: Seq<u64>, i: int) -> Option<
    ((usize, bool, u64, u64, Root, Seq<ProtoNode>, Seq<Vote>), int),
> {
    if i + 9 <= w.len() && w[i] <= usize::MAX as u64 && (w[i + 1] == 0 || w[i + 1] == 1) && w[i + 8]
        <= usize::MAX as u64 {
        let nc = w[i + 8] as int;
        let nodes_base = i + 9;
        if nodes_base + 13 * nc + 1 <= w.len() && (forall|t: int|
            0 <= t < nc ==> #[trigger] wnode_valid(w, nodes_base + 13 * t)) && w[nodes_base + 13
            * nc] <= usize::MAX as u64 {
            let vc = w[nodes_base + 13 * nc] as int;
            let votes_base = nodes_base + 13 * nc + 1;
            if votes_base + 9 * vc <= w.len() {
                Option::Some(
                    (
                        (
                            w[i] as usize,
                            w[i + 1] == 1,
                            w[i + 2],
                            w[i + 3],
                            wroot(w, i + 4),
                            Seq::new(nc as nat, |t: int| wnode(w, nodes_base + 13 * t)),
                            Seq::new(vc as nat, |t: int| wvote(w, votes_base + 9 * t)),
                        ),
                        votes_base + 9 * vc,
                    ),
                )
            } else {
                Option::None
            }
        } else {
            Option::None
        }
    } else {
        Option::None
    }
}

/// Parse a full fork-choice core from words; every word must be consumed.
pub open spec fn parse_fc_words(w: Seq<u64>) -> Option<ForkChoiceModel> {
    if w.len() < 4 {
        Option::None
    } else {
        match parse_cwb(w, 4) {
            Option::Some((cj, p1)) => match parse_cp(w, p1) {
                Option::Some((cf, p2)) => match parse_cwb(w, p2) {
                    Option::Some((bj, p3)) => match parse_cp(w, p3) {
                        Option::Some((bf, p4)) => match parse_backend(w, p4) {
                            Option::Some((bk, p5)) => if p5 == w.len() {
                                Option::Some(
                                    ForkChoiceModel {
                                        genesis_block_root: wroot(w, 0),
                                        current_justified_epoch: cj.0,
                                        current_justified_root: cj.1,
                                        current_balances: cj.2,
                                        current_finalized: cf,
                                        best_justified_epoch: bj.0,
                                        best_justified_root: bj.1,
                                        best_balances: bj.2,
                                        best_finalized: bf,
                                        prune_threshold: bk.0,
                                        ffg_update_required: bk.1,
                                        justified_epoch: bk.2,
                                        finalized_epoch: bk.3,
                                        finalized_root: bk.4,
                                        nodes: bk.5,
                                        votes: bk.6,
                                    },
                                )
                            } else {
                                Option::None
                            },
                            Option::None => Option::None,
                        },
                        Option::None => Option::None,
                    },
                    Option::None => Option::None,
                },
                Option::None => Option::None,
            },
            Option::None => Option::None,
        }
    }
}

/// One little-endian byte of a word.
pub open spec fn word_byte(x: u64, j: int) -> u8 {
    (x >> (8 * j as u64)) as u8
}

/// The word stream written little-endian, word by word.
pub open spec fn words_bytes(w: Seq<u64>) -> Seq<u8> {
    Seq::new(8 * w.len(), |k: int| word_byte(w[k / 8], k % 8))
}

/// The word recomposed from eight little-endian bytes.
pub open spec fn word_of_bytes(
    b0: u8,
    b1: u8,
    b2: u8,
    b3: u8,
    b4: u8,
    b5: u8,
    b6: u8,
    b7: u8,
) -> u64 {
    (b0 as u64) | (b1 as u64) << 8 | (b2 as u64) << 16 | (b3 as u64) << 24 | (b4 as u64) << 32 | (
    b5 as u64) << 40 | (b6 as u64) << 48 | (b7 as u64) << 56
}

/// Recomposing the little-endian bytes of a word yields the word back.
pub proof fn lemma_word_bytes_roundtrip(x: u64)
    ensures
        word_of_bytes(
            word_byte(x, 0),
            word_byte(x, 1),
            word_byte(x, 2),
            word_byte(x, 3),
            word_byte(x, 4),
            word_byte(x, 5),
            word_byte(x, 6),
            word_byte(x, 7),
        ) == x,
{
    assert(((x >> 0) as u8 as u64) | ((x >> 8) as u8 as u64) << 8 | ((x >> 16) as u8 as u64) << 16
        | ((x >> 24) as u8 as u64) << 24 | ((x >> 32) as u8 as u64) << 32 | ((x >> 40) as u8 as u64)
        << 40 | ((x >> 48) as u8 as u64) << 48 | ((x >> 56) as u8 as u64) << 56 == x) by (bit_vector);
    assert(word_byte(x, 0) == (x >> 0) as u8);
}

/// The bytes parsed back into words; fails when the length is not a
/// multiple of eight.
pub open spec fn bytes_words(b: Seq<u8>) -> Option<Seq<u64>> {
    if b.len() % 8 == 0 {
        Option::Some(
            Seq::new(
                b.len() / 8,
                |i: int|
                    word_of_bytes(
                        b[8 * i],
                        b[8 * i + 1],
                        b[8 * i + 2],
                        b[8 * i + 3],
                        b[8 * i + 4],
                        b[8 * i + 5],
                        b[8 * i + 6],
                        b[8 * i + 7],
                    ),
            ),
        )
    } else {
        Option::None
    }
}

/// The byte layer round-trips.
pub proof fn lemma_bytes_words_roundtrip(w: Seq<u64>)
    ensures
        bytes_words(words_bytes(w)) == Option::Some(w),
{
    let b = words_bytes(w);
    assert(b.len() == 8 * w.len());
    assert(b.len() % 8 == 0) by {
        assert((8 * w.len()) % 8 == 0) by (nonlinear_arith);
    }
    let w2 = bytes_words(b)->0;
    assert(w2.len() == w.len()) by {
        assert(8 * w.len() / 8 == w.len()) by (nonlinear_arith);
    }
    assert forall|i: int| 0 <= i < w.len() implies w2[i] == w[i] by {
        assert forall|j: int| 0 <= j < 8 implies b[8 * i + j] == word_byte(w[i], j) by {
            assert((8 * i + j) / 8 == i && (8 * i + j) % 8 == j) by (nonlinear_arith)
                requires
                    0 <= j < 8,
            ;
        }
        lemma_word_bytes_roundtrip(w[i]);
    }
    assert(w2 =~= w);
}


/// An engine state that a restored core may hold: the array invariant of
/// the live engine, with at least the anchor present.
pub open spec fn backend_restorable(
    ffg_update_required: bool,
    justified_epoch: u64,
    finalized_epoch: u64,
    nodes: Seq<ProtoNode>,
) -> bool {
    &&& links_ok(nodes)
    &&& roots_distinct(nodes)
    &&& roots_nonzero(nodes)
    &&& (!ffg_update_required ==> nodes_pointers_viable(nodes, justified_epoch, finalized_epoch))
    &&& nodes.len() > 0
}

/// A serialized core that deserialization accepts: a well-formed engine
/// plus a non-zero alias anchor.
pub open spec fn model_restorable(m: ForkChoiceModel) -> bool {
    &&& backend_restorable(m.ffg_update_required, m.justified_epoch, m.finalized_epoch, m.nodes)
    &&& !m.genesis_block_root.spec_is_zero()
}

/// A model that came from an actual in-memory core: every list fits a
/// `usize`.
pub open spec fn model_fits(m: ForkChoiceModel) -> bool {
    &&& m.current_balances.len() <= usize::MAX
    &&& m.best_balances.len() <= usize::MAX
    &&& m.nodes.len() <= usize::MAX
    &&& m.votes.len() <= usize::MAX
}

/// Parsing the engine-and-votes section of a serialized model yields the
/// model's engine fields back.
#[verifier::rlimit(100)]
pub proof fn lemma_backend_roundtrip(m: ForkChoiceModel, w: Seq<u64>, base: int)
    requires
        model_fits(m),
        0 <= base,
        w.len() == base + bk_words_len(m),
        forall|k: int| 0 <= k < bk_words_len(m) ==> w[base + k] == #[trigger] bk_word(m, k),
    ensures
        parse_backend(w, base) == Option::Some(
            (
                (
                    m.prune_threshold,
                    m.ffg_update_required,
                    m.justified_epoch,
                    m.finalized_epoch,
                    m.finalized_root,
                    m.nodes,
                    m.votes,
                ),
                base + bk_words_len(m),
            ),
        ),
{
    let nc = m.nodes.len() as int;
    let vc = m.votes.len() as int;
    let nodes_base = base + 9;
    let votes_base = nodes_base + 13 * nc + 1;
    assert(w[base + 0int] == bk_word(m, 0));
    assert(w[base + 1] == bk_word(m, 1));
    assert(w[base + 2] == bk_word(m, 2));
    assert(w[base + 3] == bk_word(m, 3));
    assert(w[base + 8] == bk_word(m, 8));
    assert(wroot(w, base + 4) == m.finalized_root) by {
        assert(w[base + 4] == bk_word(m, 4));
        assert(w[base + 5] == bk_word(m, 5));
        assert(w[base + 6] == bk_word(m, 6));
        assert(w[base + 7] == bk_word(m, 7));
    }
    assert forall|t: int, q: int| 0 <= t < nc && 0 <= q < 13 implies w[nodes_base + 13 * t + q]
        == node_word(m.nodes[t], q) by {
        assert(w[base + (9 + 13 * t + q)] == bk_word(m, 9 + 13 * t + q));
        assert((13 * t + q) / 13 == t && (13 * t + q) % 13 == q) by (nonlinear_arith)
            requires
                0 <= q < 13,
        ;
    }
    assert forall|t: int, q: int| 0 <= t < vc && 0 <= q < 9 implies w[votes_base + 9 * t + q]
        == vote_word(m.votes[t], q) by {
        assert(w[base + (10 + 13 * nc + 9 * t + q)] == bk_word(m, 10 + 13 * nc + 9 * t + q));
        assert((9 * t + q) / 9 == t && (9 * t + q) % 9 == q) by (nonlinear_arith)
            requires
                0 <= q < 9,
        ;
    }
    assert(w[nodes_base + 13 * nc] == bk_word(m, 9 + 13 * nc));
    assert forall|t: int| 0 <= t < nc implies #[trigger] wnode_valid(w, nodes_base + 13 * t) by {
        let j = nodes_base + 13 * t;
        assert(w[j + 4] == node_word(m.nodes[t], 4));
        assert(w[j + 5] == node_word(m.nodes[t], 5));
        assert(w[j + 9] == node_word(m.nodes[t], 9));
        assert(w[j + 10] == node_word(m.nodes[t], 10));
        assert(w[j + 11] == node_word(m.nodes[t], 11));
        assert(w[j + 12] == node_word(m.nodes[t], 12));
    }
    assert forall|t: int|
        0 <= t < nc implies #[trigger] wnode(w, nodes_base + 13 * t) == m.nodes[t] by {
        let j = nodes_base + 13 * t;
        assert(w[j + 0int] == node_word(m.nodes[t], 0));
        assert(w[j + 1] == node_word(m.nodes[t], 1));
        assert(w[j + 2] == node_word(m.nodes[t], 2));
        assert(w[j + 3] == node_word(m.nodes[t], 3));
        assert(w[j + 4] == node_word(m.nodes[t], 4));
        assert(w[j + 5] == node_word(m.nodes[t], 5));
        assert(w[j + 6] == node_word(m.nodes[t], 6));
        assert(w[j + 7] == node_word(m.nodes[t], 7));
        assert(w[j + 8] == node_word(m.nodes[t], 8));
        assert(w[j + 9] == node_word(m.nodes[t], 9));
        assert(w[j + 10] == node_word(m.nodes[t], 10));
        assert(w[j + 11] == node_word(m.nodes[t], 11));
        assert(w[j + 12] == node_word(m.nodes[t], 12));
    }
    assert forall|t: int| 0 <= t < vc implies wvote(w, votes_base + 9 * t) == m.votes[t] by {
        let j = votes_base + 9 * t;
        assert(w[j + 0int] == vote_word(m.votes[t], 0));
        assert(w[j + 1] == vote_word(m.votes[t], 1));
        assert(w[j + 2] == vote_word(m.votes[t], 2));
        assert(w[j + 3] == vote_word(m.votes[t], 3));
        assert(w[j + 4] == vote_word(m.votes[t], 4));
        assert(w[j + 5] == vote_word(m.votes[t], 5));
        assert(w[j + 6] == vote_word(m.votes[t], 6));
        assert(w[j + 7] == vote_word(m.votes[t], 7));
        assert(w[j + 8] == vote_word(m.votes[t], 8));
    }
    assert(Seq::new(nc as nat, |t: int| wnode(w, nodes_base + 13 * t)) =~= m.nodes);
    assert(Seq::new(vc as nat, |t: int| wvote(w, votes_base + 9 * t)) =~= m.votes);
}

/// The word layer round-trips: parsing the serialized words of a model
/// yields the model back.
#[verifier::rlimit(100)]
pub proof fn lemma_fc_words_roundtrip(m: ForkChoiceModel)
    requires
        model_fits(m),
    ensures
        parse_fc_words(fc_words(m)) == Option::Some(m),
{
    let w = fc_words(m);
    let cbl = m.current_balances.len() as int;
    let bbl = m.best_balances.len() as int;
    let ml = mgr_words_len(m);
    let p1 = 10 + cbl;
    let p2 = p1 + 5;
    let p3 = p2 + 6 + bbl;
    let p4 = p3 + 5;
    assert(p4 == 4 + ml);
    assert(w.len() == 4 + ml + bk_words_len(m));
    assert forall|k: int| 0 <= k < ml implies w[4 + k] == #[trigger] mgr_word(m, k) by {
        assert(manager_words(m)[k] == mgr_word(m, k));
    }
    assert forall|k: int| 0 <= k < bk_words_len(m) implies w[p4 + k] == #[trigger] bk_word(
        m,
        k,
    ) by {
        assert(backend_words(m)[k] == bk_word(m, k));
    }
    assert(wroot(w, 0) == m.genesis_block_root);
    assert(parse_cwb(w, 4) == Option::Some(
        ((m.current_justified_epoch, m.current_justified_root, m.current_balances), p1),
    )) by {
        assert(w[4int + 0] == mgr_word(m, 0));
        assert(w[4int + 5] == mgr_word(m, 5));
        assert(wroot(w, 5) == m.current_justified_root) by {
            assert(w[4int + 1] == mgr_word(m, 1));
            assert(w[4int + 2] == mgr_word(m, 2));
            assert(w[4int + 3] == mgr_word(m, 3));
            assert(w[4int + 4] == mgr_word(m, 4));
        }
        assert forall|k: int| 0 <= k < cbl implies w[10 + k] == m.current_balances[k] by {
            assert(w[4 + (6 + k)] == mgr_word(m, 6 + k));
        }
        assert(w.subrange(10, 10 + cbl) =~= m.current_balances);
    }
    assert(parse_cp(w, p1) == Option::Some((m.current_finalized, p2))) by {
        assert(w[4 + (6 + cbl)] == mgr_word(m, 6 + cbl));
        assert(wroot(w, p1 + 1) == m.current_finalized.root) by {
            assert(w[4 + (7 + cbl)] == mgr_word(m, 7 + cbl));
            assert(w[4 + (8 + cbl)] == mgr_word(m, 8 + cbl));
            assert(w[4 + (9 + cbl)] == mgr_word(m, 9 + cbl));
            assert(w[4 + (10 + cbl)] == mgr_word(m, 10 + cbl));
        }
    }
    assert(parse_cwb(w, p2) == Option::Some(
        ((m.best_justified_epoch, m.best_justified_root, m.best_balances), p3),
    )) by {
        assert(w[4 + (11 + cbl)] == mgr_word(m, 11 + cbl));
        assert(w[4 + (16 + cbl)] == mgr_word(m, 16 + cbl));
        assert(wroot(w, p2 + 1) == m.best_justified_root) by {
            assert(w[4 + (12 + cbl)] == mgr_word(m, 12 + cbl));
            assert(w[4 + (13 + cbl)] == mgr_word(m, 13 + cbl));
            assert(w[4 + (14 + cbl)] == mgr_word(m, 14 + cbl));
            assert(w[4 + (15 + cbl)] == mgr_word(m, 15 + cbl));
        }
        assert forall|k: int| 0 <= k < bbl implies w[p2 + 6 + k] == m.best_balances[k] by {
            assert(w[4 + (17 + cbl + k)] == mgr_word(m, 17 + cbl + k));
        }
        assert(w.subrange(p2 + 6, p2 + 6 + bbl) =~= m.best_balances);
    }
    assert(parse_cp(w, p3) == Option::Some((m.best_finalized, p4))) by {
        assert(w[4 + (17 + cbl + bbl)] == mgr_word(m, 17 + cbl + bbl));
        assert(wroot(w, p3 + 1) == m.best_finalized.root) by {
            assert(w[4 + (18 + cbl + bbl)] == mgr_word(m, 18 + cbl + bbl));
            assert(w[4 + (19 + cbl + bbl)] == mgr_word(m, 19 + cbl + bbl));
            assert(w[4 + (20 + cbl + bbl)] == mgr_word(m, 20 + cbl + bbl));
            assert(w[4 + (21 + cbl + bbl)] == mgr_word(m, 21 + cbl + bbl));
        }
    }
    lemma_backend_roundtrip(m, w, p4);
}


/// The eight little-endian bytes of one word.
pub open spec fn word_bytes8(x: u64) -> Seq<u8> {
    Seq::new(8, |j: int| word_byte(x, j))
}

/// Appending a word to a stream appends its eight bytes.
pub proof fn lemma_words_bytes_push(s: Seq<u64>, x: u64)
    ensures
        words_bytes(s.push(x)) == words_bytes(s) + word_bytes8(x),
{
    let a = words_bytes(s.push(x));
    let b = words_bytes(s) + word_bytes8(x);
    assert(a.len() == b.len());
    assert forall|k: int| 0 <= k < a.len() implies a[k] == b[k] by {
        if k < 8 * s.len() {
            assert(0 <= k / 8 < s.len() && 0 <= k % 8 < 8);
            assert(s.push(x)[k / 8] == s[k / 8]);
        } else {
            let j = k - 8 * s.len();
            assert((8 * s.len() + j) / 8 == s.len() && (8 * s.len() + j) % 8 == j)
                by (nonlinear_arith)
                requires
                    0 <= j < 8,
            ;
            assert(s.push(x)[k / 8] == x);
        }
    }
    assert(a =~= b);
}

fn push_word(out: &mut Vec<u8>, x: u64)
    ensures
        final(out)@ == old(out)@ + word_bytes8(x),
{
    let ghost pre = out@;
    out.push(x as u8);
    out.push((x >> 8) as u8);
    out.push((x >> 16) as u8);
    out.push((x >> 24) as u8);
    out.push((x >> 32) as u8);
    out.push((x >> 40) as u8);
    out.push((x >> 48) as u8);
    out.push((x >> 56) as u8);
    proof {
        assert(word_byte(x, 0) == x as u8) by (bit_vector);
        assert(out@ =~= pre + word_bytes8(x));
    }
}

/// Write a word vector as little-endian bytes.
fn words_to_bytes_vec(w: &Vec<u64>) -> (r: Vec<u8>)
    ensures
        r@ == words_bytes(w@),
{
    let mut out: Vec<u8> = Vec::new();
    let mut i: usize = 0;
    while i < w.len()
        invariant
            i <= w@.len(),
            out@ == words_bytes(w@.subrange(0, i as int)),
        decreases w@.len() - i,
    {
        proof {
            lemma_words_bytes_push(w@.subrange(0, i as int), w@[i as int]);
            assert(w@.subrange(0, i as int).push(w@[i as int]) =~= w@.subrange(0, i as int + 1));
        }
        push_word(&mut out, w[i]);
        i = i + 1;
    }
    proof {
        assert(w@.subrange(0, w@.len() as int) =~= w@);
    }
    out
}

/// Read the little-endian bytes back as words; `None` when the length is
/// not a multiple of eight.
fn bytes_to_words_vec(b: &Vec<u8>) -> (r: Option<Vec<u64>>)
    ensures
        match r {
            Option::Some(w) => bytes_words(b@) == Option::Some(w@),
            Option::None => bytes_words(b@) is None,
        },
{
    if b.len() % 8 != 0 {
        return Option::None;
    }
    let n = b.len() / 8;
    let ghost target = bytes_words(b@)->0;
    let mut out: Vec<u64> = Vec::new();
    let mut i: usize = 0;
    while i < n
        invariant
            i <= n,
            n == b@.len() / 8,
            b@.len() % 8 == 0,
            8 * n <= b@.len(),
            b@.len() <= usize::MAX,
            target == bytes_words(b@)->0,
            target.len() == n,
            out@.len() == i as int,
            forall|t: int| 0 <= t < i as int ==> out@[t] == target[t],
        decreases n - i,
    {
        proof {
            assert(8 * (i as int) + 7 < 8 * n) by (nonlinear_arith)
                requires
                    (i as int) < n,
            ;
            assert(8 * (i as int) + 7 < b@.len());
            assert(8 * (i as int) <= usize::MAX);
        }
        let base = 8 * i;
        let x: u64 = (b[base] as u64) | (b[base + 1] as u64) << 8 | (b[base + 2] as u64) << 16 | (
        b[base + 3] as u64) << 24 | (b[base + 4] as u64) << 32 | (b[base + 5] as u64) << 40 | (b[
            base + 6] as u64) << 48 | (b[base + 7] as u64) << 56;
        proof {
            assert(x == target[i as int]);
        }
        out.push(x);
        i = i + 1;
    }
    proof {
        assert(out@ =~= target);
        assert(8 * n == b@.len()) by (nonlinear_arith)
            requires
                n == b@.len() / 8,
                b@.len() % 8 == 0,
        ;
    }
    Option::Some(out)
}


fn push_expected(w: &mut Vec<u64>, x: u64, Ghost(m): Ghost<ForkChoiceModel>)
    requires
        forall|k: int| 0 <= k < old(w)@.len() ==> old(w)@[k] == fc_words(m)[k],
        old(w)@.len() < fc_words(m).len(),
        fc_words(m)[old(w)@.len() as int] == x,
    ensures
        final(w)@.len() == old(w)@.len() + 1,
        forall|k: int| 0 <= k < final(w)@.len() ==> final(w)@[k] == fc_words(m)[k],
{
    w.push(x);
}

fn push_root(w: &mut Vec<u64>, r: Root, Ghost(m): Ghost<ForkChoiceModel>)
    requires
        forall|k: int| 0 <= k < old(w)@.len() ==> old(w)@[k] == fc_words(m)[k],
        old(w)@.len() + 4 <= fc_words(m).len(),
        forall|q: int|
            0 <= q < 4 ==> fc_words(m)[old(w)@.len() + q] == #[trigger] root_words(r)[q],
    ensures
        final(w)@.len() == old(w)@.len() + 4,
        forall|k: int| 0 <= k < final(w)@.len() ==> final(w)@[k] == fc_words(m)[k],
{
    proof {
        assert(root_words(r)[0] == r.l0);
        assert(root_words(r)[1] == r.l1);
        assert(root_words(r)[2] == r.l2);
        assert(root_words(r)[3] == r.l3);
    }
    push_expected(w, r.l0, Ghost(m));
    push_expected(w, r.l1, Ghost(m));
    push_expected(w, r.l2, Ghost(m));
    push_expected(w, r.l3, Ghost(m));
}

fn push_opt(w: &mut Vec<u64>, o: Option<usize>, Ghost(m): Ghost<ForkChoiceModel>)
    requires
        forall|k: int| 0 <= k < old(w)@.len() ==> old(w)@[k] == fc_words(m)[k],
        old(w)@.len() + 2 <= fc_words(m).len(),
        forall|q: int| 0 <= q < 2 ==> fc_words(m)[old(w)@.len() + q] == #[trigger] opt_words(o)[q],
    ensures
        final(w)@.len() == old(w)@.len() + 2,
        forall|k: int| 0 <= k < final(w)@.len() ==> final(w)@[k] == fc_words(m)[k],
{
    proof {
        assert(opt_words(o)[0] == (match o {
            Option::Some(_) => 1u64,
            Option::None => 0u64,
        }));
        assert(opt_words(o)[1] == (match o {
            Option::Some(x) => x as u64,
            Option::None => 0u64,
        }));
    }
    match o {
        Option::Some(x) => {
            push_expected(w, 1, Ghost(m));
            push_expected(w, x as u64, Ghost(m));
        },
        Option::None => {
            push_expected(w, 0, Ghost(m));
            push_expected(w, 0, Ghost(m));
        },
    }
}

/// Write the checkpoint-manager section.
#[verifier::rlimit(100)]
#[verifier::loop_isolation(false)]
fn push_manager(w: &mut Vec<u64>, fc: &crate::fork_choice::ForkChoice, Ghost(m): Ghost<
    ForkChoiceModel,
>)
    requires
        m == fc_model(*fc),
        old(w)@.len() == 4,
        forall|k: int| 0 <= k < old(w)@.len() ==> old(w)@[k] == fc_words(m)[k],
    ensures
        final(w)@.len() == 4 + mgr_words_len(m),
        forall|k: int| 0 <= k < final(w)@.len() ==> final(w)@[k] == fc_words(m)[k],
{
    let ghost ml = mgr_words_len(m);
    proof {
        assert(fc_words(m).len() == 4 + ml + bk_words_len(m));
        assert forall|k: int| 0 <= k < ml implies fc_words(m)[4 + k] == #[trigger] mgr_word(
            m,
            k,
        ) by {
            assert(manager_words(m)[k] == mgr_word(m, k));
        }
    }
    let cbl = fc.checkpoint_manager.current.justified.balances.len();
    let bbl = fc.checkpoint_manager.best.justified.balances.len();
    push_expected(w, fc.checkpoint_manager.current.justified.epoch, Ghost(m));
    push_root(w, fc.checkpoint_manager.current.justified.root, Ghost(m));
    push_expected(w, cbl as u64, Ghost(m));
    let mut t: usize = 0;
    while t < cbl
        invariant
            t <= cbl,
            w@.len() == 10 + t as int,
            forall|k: int| 0 <= k < w@.len() ==> w@[k] == fc_words(m)[k],
        decreases cbl - t,
    {
        proof {
            assert(mgr_word(m, 6 + t as int) == m.current_balances[t as int]);
        }
        push_expected(w, fc.checkpoint_manager.current.justified.balances[t], Ghost(m));
        t = t + 1;
    }
    push_expected(w, fc.checkpoint_manager.current.finalized.epoch, Ghost(m));
    push_root(w, fc.checkpoint_manager.current.finalized.root, Ghost(m));
    push_expected(w, fc.checkpoint_manager.best.justified.epoch, Ghost(m));
    push_root(w, fc.checkpoint_manager.best.justified.root, Ghost(m));
    push_expected(w, bbl as u64, Ghost(m));
    let mut t2: usize = 0;
    while t2 < bbl
        invariant
            t2 <= bbl,
            w@.len() == 21 + cbl as int + t2 as int,
            forall|k: int| 0 <= k < w@.len() ==> w@[k] == fc_words(m)[k],
        decreases bbl - t2,
    {
        proof {
            assert(mgr_word(m, 17 + cbl as int + t2 as int) == m.best_balances[t2 as int]);
        }
        push_expected(w, fc.checkpoint_manager.best.justified.balances[t2], Ghost(m));
        t2 = t2 + 1;
    }
    push_expected(w, fc.checkpoint_manager.best.finalized.epoch, Ghost(m));
    push_root(w, fc.checkpoint_manager.best.finalized.root, Ghost(m));
}

/// Write the engine-and-votes section.
#[verifier::rlimit(100)]
#[verifier::loop_isolation(false)]
fn push_backend(w: &mut Vec<u64>, fc: &crate::fork_choice::ForkChoice, Ghost(m): Ghost<
    ForkChoiceModel,
>)
    requires
        m == fc_model(*fc),
        old(w)@.len() == 4 + mgr_words_len(m),
        forall|k: int| 0 <= k < old(w)@.len() ==> old(w)@[k] == fc_words(m)[k],
    ensures
        final(w)@.len() == fc_words(m).len(),
        forall|k: int| 0 <= k < final(w)@.len() ==> final(w)@[k] == fc_words(m)[k],
{
    let ghost ml = mgr_words_len(m);
    proof {
        assert(fc_words(m).len() == 4 + ml + bk_words_len(m));
        assert forall|k: int|
            0 <= k < bk_words_len(m) implies fc_words(m)[4 + ml + k] == #[trigger] bk_word(
            m,
            k,
        ) by {
            assert(backend_words(m)[k] == bk_word(m, k));
        }
    }
    let nc = fc.backend.nodes.len();
    let vc = fc.votes.votes.len();
    push_expected(w, fc.backend.prune_threshold as u64, Ghost(m));
    push_expected(
        w,
        if fc.backend.ffg_update_required {
            1
        } else {
            0
        },
        Ghost(m),
    );
    push_expected(w, fc.backend.justified_epoch, Ghost(m));
    push_expected(w, fc.backend.finalized_epoch, Ghost(m));
    push_root(w, fc.backend.finalized_root, Ghost(m));
    push_expected(w, nc as u64, Ghost(m));
    let mut t3: usize = 0;
    while t3 < nc
        invariant
            t3 <= nc,
            w@.len() == 4 + ml + 9 + 13 * t3 as int,
            forall|k: int| 0 <= k < w@.len() ==> w@[k] == fc_words(m)[k],
        decreases nc - t3,
    {
        let node = fc.backend.nodes[t3];
        proof {
            assert forall|q: int|
                0 <= q < 13 implies #[trigger] bk_word(m, 9 + 13 * t3 as int + q) == node_word(
                m.nodes[t3 as int],
                q,
            ) by {
                assert((13 * t3 as int + q) / 13 == t3 as int && (13 * t3 as int + q) % 13 == q)
                    by (nonlinear_arith)
                    requires
                        0 <= q < 13,
                ;
            }
            assert(node == m.nodes[t3 as int]);
        }
        push_root(w, node.root, Ghost(m));
        push_opt(w, node.parent, Ghost(m));
        push_expected(w, node.justified_epoch, Ghost(m));
        push_expected(w, node.finalized_epoch, Ghost(m));
        push_expected(w, node.weight, Ghost(m));
        push_opt(w, node.best_child, Ghost(m));
        push_opt(w, node.best_descendant, Ghost(m));
        t3 = t3 + 1;
    }
    push_expected(w, vc as u64, Ghost(m));
    let mut t4: usize = 0;
    while t4 < vc
        invariant
            t4 <= vc,
            w@.len() == 4 + ml + 10 + 13 * nc as int + 9 * t4 as int,
            forall|k: int| 0 <= k < w@.len() ==> w@[k] == fc_words(m)[k],
        decreases vc - t4,
    {
        let vote = fc.votes.votes[t4];
        proof {
            assert forall|q: int|
                0 <= q < 9 implies #[trigger] bk_word(
                m,
                10 + 13 * nc as int + 9 * t4 as int + q,
            ) == vote_word(m.votes[t4 as int], q) by {
                assert((9 * t4 as int + q) / 9 == t4 as int && (9 * t4 as int + q) % 9 == q)
                    by (nonlinear_arith)
                    requires
                        0 <= q < 9,
                ;
            }
            assert(vote == m.votes[t4 as int]);
        }
        push_root(w, vote.current_root, Ghost(m));
        push_root(w, vote.next_root, Ghost(m));
        push_expected(w, vote.next_epoch, Ghost(m));
        t4 = t4 + 1;
    }
}

/// Serialize the full core as 64-bit words, fields in declared order.
pub fn fc_to_words(fc: &crate::fork_choice::ForkChoice) -> (r: Vec<u64>)
    ensures
        r@ == fc_words(fc_model(*fc)),
{
    let ghost m = fc_model(*fc);
    proof {
        assert(fc_words(m).len() == 4 + mgr_words_len(m) + bk_words_len(m));
        assert forall|q: int|
            0 <= q < 4 implies fc_words(m)[0 + q] == #[trigger] root_words(
            m.genesis_block_root,
        )[q] by {}
    }
    let mut w: Vec<u64> = Vec::new();
    push_root(&mut w, fc.genesis_block_root, Ghost(m));
    push_manager(&mut w, fc, Ghost(m));
    push_backend(&mut w, fc, Ghost(m));
    proof {
        assert(w@ =~= fc_words(m));
    }
    w
}


fn read_root(w: &Vec<u64>, i: usize) -> (r: Root)
    requires
        i + 4 <= w@.len(),
        w@.len() <= usize::MAX,
    ensures
        r == wroot(w@, i as int),
{
    Root { l0: w[i], l1: w[i + 1], l2: w[i + 2], l3: w[i + 3] }
}

fn read_opt(w: &Vec<u64>, i: usize) -> (r: Option<Option<usize>>)
    requires
        i + 2 <= w@.len(),
        w@.len() <= usize::MAX,
    ensures
        match r {
            Option::Some(o) => wopt_valid(w@, i as int) && o == wopt(w@, i as int),
            Option::None => !wopt_valid(w@, i as int),
        },
{
    let tag = w[i];
    let value = w[i + 1];
    if tag == 0 && value == 0 {
        Option::Some(Option::None)
    } else if tag == 1 && value <= usize::MAX as u64 {
        Option::Some(Option::Some(value as usize))
    } else {
        Option::None
    }
}

fn read_balances(w: &Vec<u64>, i: usize, n: usize) -> (r: Vec<u64>)
    requires
        i + n <= w@.len(),
        w@.len() <= usize::MAX,
    ensures
        r@ == w@.subrange(i as int, i as int + n as int),
{
    let mut out: Vec<u64> = Vec::new();
    let mut t: usize = 0;
    while t < n
        invariant
            t <= n,
            i + n <= w@.len(),
            w@.len() <= usize::MAX,
            out@ == w@.subrange(i as int, i as int + t as int),
        decreases n - t,
    {
        out.push(w[i + t]);
        proof {
            assert(out@ =~= w@.subrange(i as int, i as int + t as int + 1));
        }
        t = t + 1;
    }
    out
}

/// Parse one checkpoint-with-balances section.
fn read_cwb(w: &Vec<u64>, i: usize) -> (r: Option<(u64, Root, Vec<u64>, usize)>)
    requires
        i <= w@.len(),
    ensures
        match r {
            Option::Some(v) => parse_cwb(w@, i as int) == Option::Some(
                ((v.0, v.1, v.2@), v.3 as int),
            ),
            Option::None => parse_cwb(w@, i as int) is None,
        },
{
    let n = w.len();
    if n - i < 6 {
        return Option::None;
    }
    let bl_word = w[i + 5];
    if bl_word > usize::MAX as u64 {
        return Option::None;
    }
    let bl = bl_word as usize;
    if n - i - 6 < bl {
        return Option::None;
    }
    let epoch = w[i];
    let root = read_root(w, i + 1);
    let balances = read_balances(w, i + 6, bl);
    Option::Some((epoch, root, balances, i + 6 + bl))
}

/// Parse one plain checkpoint.
fn read_cp(w: &Vec<u64>, i: usize) -> (r: Option<(Checkpoint, usize)>)
    requires
        i <= w@.len(),
    ensures
        match r {
            Option::Some(v) => parse_cp(w@, i as int) == Option::Some((v.0, v.1 as int)),
            Option::None => parse_cp(w@, i as int) is None,
        },
{
    let n = w.len();
    if n - i < 5 {
        return Option::None;
    }
    Option::Some((Checkpoint { epoch: w[i], root: read_root(w, i + 1) }, i + 5))
}

/// Parse the engine and vote table.
#[verifier::rlimit(100)]
#[verifier::loop_isolation(false)]
fn read_backend(w: &Vec<u64>, i: usize) -> (r: Option<
    (usize, bool, u64, u64, Root, Vec<ProtoNode>, Vec<Vote>, usize),
>)
    requires
        i <= w@.len(),
    ensures
        match r {
            Option::Some(v) => parse_backend(w@, i as int) == Option::Some(
                ((v.0, v.1, v.2, v.3, v.4, v.5@, v.6@), v.7 as int),
            ),
            Option::None => parse_backend(w@, i as int) is None,
        },
{
    let n = w.len();
    if n - i < 10 {
        return Option::None;
    }
    let pt_word = w[i];
    let ffg_word = w[i + 1];
    let nc_word = w[i + 8];
    if pt_word > usize::MAX as u64 || (ffg_word != 0 && ffg_word != 1) || nc_word
        > usize::MAX as u64 {
        return Option::None;
    }
    let nc = nc_word as usize;
    let avail = n - i - 10;
    if nc > avail / 13 {
        proof {
            assert(i as int + 9 + 13 * (nc as int) + 1 > n as int) by (nonlinear_arith)
                requires
                    (nc as int) > (avail as int) / 13,
                    (avail as int) == (n as int) - (i as int) - 10,
                    (n as int) - (i as int) >= 10,
            ;
        }
        return Option::None;
    }
    proof {
        assert(13 * (nc as int) <= avail as int) by (nonlinear_arith)
            requires
                nc as int <= (avail as int) / 13,
                avail as int >= 0,
        ;
    }
    let nodes_base = i + 9;
    let mut nodes: Vec<ProtoNode> = Vec::new();
    let mut t: usize = 0;
    while t < nc
        invariant
            t <= nc,
            nodes@.len() == t as int,
            nodes_base as int + 13 * nc as int + 1 <= n as int,
            forall|u: int|
                0 <= u < t as int ==> #[trigger] wnode_valid(w@, nodes_base as int + 13 * u),
            forall|u: int|
                0 <= u < t as int ==> nodes@[u] == wnode(w@, nodes_base as int + 13 * u),
        decreases nc - t,
    {
        proof {
            assert(13 * (t as int) + 13 <= 13 * (nc as int)) by (nonlinear_arith)
                requires
                    (t as int) < (nc as int),
            ;
        }
        let j = nodes_base + 13 * t;
        let root = read_root(w, j);
        let parent = match read_opt(w, j + 4) {
            Option::Some(o) => o,
            Option::None => {
                proof {
                    assert(!wnode_valid(w@, i as int + 9 + 13 * (t as int)));
                }
                return Option::None;
            },
        };
        let best_child = match read_opt(w, j + 9) {
            Option::Some(o) => o,
            Option::None => {
                proof {
                    assert(!wnode_valid(w@, i as int + 9 + 13 * (t as int)));
                }
                return Option::None;
            },
        };
        let best_descendant = match read_opt(w, j + 11) {
            Option::Some(o) => o,
            Option::None => {
                proof {
                    assert(!wnode_valid(w@, i as int + 9 + 13 * (t as int)));
                }
                return Option::None;
            },
        };
        nodes.push(
            ProtoNode {
                root,
                parent,
                justified_epoch: w[j + 6],
                finalized_epoch: w[j + 7],
                weight: w[j + 8],
                best_child,
                best_descendant,
            },
        );
        t = t + 1;
    }
    let vc_pos = nodes_base + 13 * nc;
    let vc_word = w[vc_pos];
    if vc_word > usize::MAX as u64 {
        return Option::None;
    }
    let vc = vc_word as usize;
    let votes_base = vc_pos + 1;
    let avail2 = n - votes_base;
    if vc > avail2 / 9 {
        proof {
            assert(votes_base as int + 9 * (vc as int) > n as int) by (nonlinear_arith)
                requires
                    (vc as int) > (avail2 as int) / 9,
                    (avail2 as int) == (n as int) - (votes_base as int),
                    (avail2 as int) >= 0,
            ;
        }
        return Option::None;
    }
    proof {
        assert(9 * (vc as int) <= avail2 as int) by (nonlinear_arith)
            requires
                vc as int <= (avail2 as int) / 9,
                avail2 as int >= 0,
        ;
    }
    let mut votes: Vec<Vote> = Vec::new();
    let mut t2: usize = 0;
    while t2 < vc
        invariant
            t2 <= vc,
            votes@.len() == t2 as int,
            votes_base as int + 9 * vc as int <= n as int,
            forall|u: int|
                0 <= u < t2 as int ==> votes@[u] == wvote(w@, votes_base as int + 9 * u),
        decreases vc - t2,
    {
        proof {
            assert(9 * (t2 as int) + 9 <= 9 * (vc as int)) by (nonlinear_arith)
                requires
                    (t2 as int) < (vc as int),
            ;
        }
        let j = votes_base + 9 * t2;
        votes.push(
            Vote {
                current_root: read_root(w, j),
                next_root: read_root(w, j + 4),
                next_epoch: w[j + 8],
            },
        );
        t2 = t2 + 1;
    }
    proof {
        assert(nodes@ =~= Seq::new(nc as nat, |u: int| wnode(w@, i as int + 9 + 13 * u)));
        assert(votes@ =~= Seq::new(
            vc as nat,
            |u: int| wvote(w@, i as int + 9 + 13 * nc as int + 1 + 9 * u),
        ));
    }
    Option::Some(
        (
            pt_word as usize,
            ffg_word == 1,
            w[i + 2],
            w[i + 3],
            read_root(w, i + 4),
            nodes,
            votes,
            votes_base + 9 * vc,
        ),
    )
}

/// Parse a full fork-choice core from words; every word must be consumed.
pub fn words_to_fc(w: &Vec<u64>) -> (r: Option<crate::fork_choice::ForkChoice>)
    ensures
        match r {
            Option::Some(fc) => parse_fc_words(w@) == Option::Some(fc_model(fc)),
            Option::None => parse_fc_words(w@) is None,
        },
{
    if w.len() < 4 {
        return Option::None;
    }
    let genesis_block_root = read_root(w, 0);
    let (cje, cjr, cbal, p1) = match read_cwb(w, 4) {
        Option::Some(v) => v,
        Option::None => {
            return Option::None;
        },
    };
    let (cf, p2) = match read_cp(w, p1) {
        Option::Some(v) => v,
        Option::None => {
            return Option::None;
        },
    };
    let (bje, bjr, bbal, p3) = match read_cwb(w, p2) {
        Option::Some(v) => v,
        Option::None => {
            return Option::None;
        },
    };
    let (bf, p4) = match read_cp(w, p3) {
        Option::Some(v) => v,
        Option::None => {
            return Option::None;
        },
    };
    let (pt, ffg, je, fe, froot, nodes, votes, p5) = match read_backend(w, p4) {
        Option::Some(v) => v,
        Option::None => {
            return Option::None;
        },
    };
    if p5 != w.len() {
        return Option::None;
    }
    let fc = crate::fork_choice::ForkChoice {
        backend: crate::engine::ProtoArray {
            prune_threshold: pt,
            ffg_update_required: ffg,
            justified_epoch: je,
            finalized_epoch: fe,
            finalized_root: froot,
            nodes,
        },
        votes: crate::votes::VoteTracker { votes },
        genesis_block_root,
        checkpoint_manager: CheckpointManager {
            current: FfgCheckpoints {
                justified: CheckpointWithBalances { epoch: cje, root: cjr, balances: cbal },
                finalized: cf,
            },
            best: FfgCheckpoints {
                justified: CheckpointWithBalances { epoch: bje, root: bjr, balances: bbal },
                finalized: bf,
            },
        },
    };
    Option::Some(fc)
}


/// Helper struct that is used to persist the state of the core: the alias
/// anchor, the checkpoint manager, and the engine-and-votes wire bytes.
pub struct SszForkChoice {
    pub genesis_block_root: Root,
    pub checkpoint_manager: CheckpointManager,
    pub backend_bytes: Vec<u8>,
}

fn copy_words(w: &Vec<u64>, i: usize, n: usize) -> (r: Vec<u64>)
    requires
        i + n <= w@.len(),
        w@.len() <= usize::MAX,
    ensures
        r@ == w@.subrange(i as int, i as int + n as int),
{
    let mut out: Vec<u64> = Vec::new();
    let mut t: usize = 0;
    while t < n
        invariant
            t <= n,
            i + n <= w@.len(),
            w@.len() <= usize::MAX,
            out@ == w@.subrange(i as int, i as int + t as int),
        decreases n - t,
    {
        out.push(w[i + t]);
        proof {
            assert(out@ =~= w@.subrange(i as int, i as int + t as int + 1));
        }
        t = t + 1;
    }
    out
}

impl crate::fork_choice::ForkChoice {
    /// Serialize the full core: anchor root, checkpoint manager snapshot,
    /// engine and vote table. The result is a pure function of the state.
    pub fn to_bytes(&self) -> (r: Vec<u8>)
        ensures
            r@ == words_bytes(fc_words(fc_model(*self))),
    {
        let words = fc_to_words(self);
        words_to_bytes_vec(&words)
    }

    /// Rebuild a core from its serialized form. Succeeds exactly when the
    /// bytes are a well-formed wire form whose engine passes the array
    /// invariant: the restored core is then well-formed and every verified
    /// operation accepts it.
    pub fn from_bytes(bytes: &Vec<u8>) -> (r: Result<crate::fork_choice::ForkChoice, Error>)
        ensures
            r is Ok <==> (bytes_words(bytes@) is Some && parse_fc_words(bytes_words(bytes@)->0)
                is Some && model_restorable(parse_fc_words(bytes_words(bytes@)->0)->0)),
            match r {
                Result::Ok(fc) => {
                    &&& parse_fc_words(bytes_words(bytes@)->0) == Option::Some(fc_model(fc))
                    &&& fc.wf()
                },
                Result::Err(e) => e is BackendError,
            },
    {
        let words = match bytes_to_words_vec(bytes) {
            Option::Some(w) => w,
            Option::None => {
                return Result::Err(
                    Error::BackendError("byte stream is not a whole number of words".to_string()),
                );
            },
        };
        let fc = match words_to_fc(&words) {
            Option::Some(fc) => fc,
            Option::None => {
                return Result::Err(
                    Error::BackendError("word stream is not a fork-choice core".to_string()),
                );
            },
        };
        if fc.genesis_block_root.is_zero() || fc.backend.nodes.len() == 0
            || !fc.backend.check_well_formed() {
            proof {
                lemma_pointers_viable_bridge(fc.backend);
            }
            return Result::Err(
                Error::BackendError("serialized engine breaks the array invariant".to_string()),
            );
        }
        proof {
            lemma_pointers_viable_bridge(fc.backend);
        }
        Result::Ok(fc)
    }

    /// Returns a container which holds the current state of the core, with
    /// the engine and vote table already in wire form.
    pub fn as_ssz_container(&self) -> (r: SszForkChoice)
        ensures
            r.genesis_block_root == self.genesis_block_root,
            crate::checkpoints::ffg_view(r.checkpoint_manager.current)
                == crate::checkpoints::ffg_view(self.checkpoint_manager.current),
            crate::checkpoints::ffg_view(r.checkpoint_manager.best)
                == crate::checkpoints::ffg_view(self.checkpoint_manager.best),
            r.backend_bytes@ == words_bytes(backend_words(fc_model(*self))),
    {
        let ghost m = fc_model(*self);
        let words = fc_to_words(self);
        let nc = self.backend.nodes.len();
        let vc = self.votes.votes.len();
        let total = words.len();
        proof {
            assert(words@.len() == 4 + mgr_words_len(m) + bk_words_len(m));
            assert(13 * (nc as int) <= bk_words_len(m));
            assert(9 * (vc as int) <= bk_words_len(m));
            assert(bk_words_len(m) <= total as int);
            assert(total <= usize::MAX);
        }
        let bk_len = 10 + 13 * nc + 9 * vc;
        let start = words.len() - bk_len;
        let bw = copy_words(&words, start, bk_len);
        proof {
            assert forall|k: int| 0 <= k < bk_words_len(m) implies bw@[k] == #[trigger] bk_word(
                m,
                k,
            ) by {
                assert(bw@[k] == words@[start as int + k]);
                assert(fc_words(m)[4 + mgr_words_len(m) + k] == backend_words(m)[k]);
            }
            assert(bw@ =~= backend_words(m));
        }
        let backend_bytes = words_to_bytes_vec(&bw);
        SszForkChoice {
            genesis_block_root: self.genesis_block_root,
            checkpoint_manager: self.checkpoint_manager.duplicate(),
            backend_bytes,
        }
    }

    /// Instantiates the core from a prior container: the created core has
    /// the same state as the one that produced it. Succeeds exactly when
    /// the backend bytes are a whole, well-formed engine section and the
    /// container's anchor is not the zero alias; the restored core is then
    /// well-formed.
    pub fn from_ssz_container(container: SszForkChoice) -> (r: Result<
        crate::fork_choice::ForkChoice,
        Error,
    >)
        ensures
            r is Ok <==> ({
                let wopt = bytes_words(container.backend_bytes@);
                &&& wopt is Some
                &&& (match parse_backend(wopt->0, 0) {
                    Option::Some((bk, consumed)) => consumed == wopt->0.len()
                        && backend_restorable(bk.1, bk.2, bk.3, bk.5),
                    Option::None => false,
                })
                &&& !container.genesis_block_root.spec_is_zero()
            }),
            match r {
                Result::Ok(fc) => {
                    let wopt = bytes_words(container.backend_bytes@);
                    &&& fc.wf()
                    &&& fc.genesis_block_root == container.genesis_block_root
                    &&& crate::checkpoints::ffg_view(fc.checkpoint_manager.current)
                        == crate::checkpoints::ffg_view(container.checkpoint_manager.current)
                    &&& crate::checkpoints::ffg_view(fc.checkpoint_manager.best)
                        == crate::checkpoints::ffg_view(container.checkpoint_manager.best)
                    &&& wopt is Some
                    &&& parse_backend(wopt->0, 0) == Option::Some(
                        (
                            (
                                fc.backend.prune_threshold,
                                fc.backend.ffg_update_required,
                                fc.backend.justified_epoch,
                                fc.backend.finalized_epoch,
                                fc.backend.finalized_root,
                                fc.backend.nodes@,
                                fc.votes.votes@,
                            ),
                            wopt->0.len() as int,
                        ),
                    )
                },
                Result::Err(e) => e is BackendError,
            },
    {
        let words = match bytes_to_words_vec(&container.backend_bytes) {
            Option::Some(w) => w,
            Option::None => {
                return Result::Err(
                    Error::BackendError("byte stream is not a whole number of words".to_string()),
                );
            },
        };
        let parsed = match read_backend(&words, 0) {
            Option::Some(v) => v,
            Option::None => {
                return Result::Err(
                    Error::BackendError("word stream is not an engine snapshot".to_string()),
                );
            },
        };
        let (pt, ffg, je, fe, froot, nodes, votes, consumed) = parsed;
        if consumed != words.len() {
            return Result::Err(Error::BackendError("trailing words after engine".to_string()));
        }
        let fc = crate::fork_choice::ForkChoice {
            backend: crate::engine::ProtoArray {
                prune_threshold: pt,
                ffg_update_required: ffg,
                justified_epoch: je,
                finalized_epoch: fe,
                finalized_root: froot,
                nodes,
            },
            votes: crate::votes::VoteTracker { votes },
            genesis_block_root: container.genesis_block_root,
            checkpoint_manager: container.checkpoint_manager,
        };
        if fc.genesis_block_root.is_zero() || fc.backend.nodes.len() == 0
            || !fc.backend.check_well_formed() {
            proof {
                lemma_pointers_viable_bridge(fc.backend);
            }
            return Result::Err(
                Error::BackendError("serialized engine breaks the array invariant".to_string()),
            );
        }
        proof {
            lemma_pointers_viable_bridge(fc.backend);
        }
        Result::Ok(fc)
    }
}

/// Round-trip law for the wire form: the bytes written for a core parse
/// back to exactly the same mathematical state, so `from_bytes` after
/// `to_bytes` rebuilds the core structurally.
pub proof fn lemma_wire_roundtrip(m: ForkChoiceModel)
    requires
        model_fits(m),
    ensures
        bytes_words(words_bytes(fc_words(m))) == Option::Some(fc_words(m)),
        parse_fc_words(fc_words(m)) == Option::Some(m),
{
    lemma_bytes_words_roundtrip(fc_words(m));
    lemma_fc_words_roundtrip(m);
}

/// Round-trip law for the container form: the backend bytes written for a
/// core parse back to exactly the engine and vote table they came from,
/// so `from_ssz_container` after `as_ssz_container` rebuilds the core.
pub proof fn lemma_container_roundtrip(m: ForkChoiceModel)
    requires
        model_fits(m),
    ensures
        bytes_words(words_bytes(backend_words(m))) == Option::Some(backend_words(m)),
        parse_backend(backend_words(m), 0) == Option::Some(
            (
                (
                    m.prune_threshold,
                    m.ffg_update_required,
                    m.justified_epoch,
                    m.finalized_epoch,
                    m.finalized_root,
                    m.nodes,
                    m.votes,
                ),
                bk_words_len(m),
            ),
        ),
{
    lemma_bytes_words_roundtrip(backend_words(m));
    assert forall|k: int|
        0 <= k < bk_words_len(m) implies backend_words(m)[0 + k] == #[trigger] bk_word(m, k) by {}
    lemma_backend_roundtrip(m, backend_words(m), 0);
}

} // verus!