use vstd::prelude::*;
use crate::checkpoints::{
    ffg_view, Checkpoint, CheckpointManager, CheckpointWithBalances,
};
use crate::checkpoints::{spec_promotion_deltas, spec_promotion_fits, SLOTS_PER_EPOCH};
use crate::engine::{has_root, index_of_root, lemma_lookup_shape_eq, shape_eq, spec_lookup, subtree_sum, ProtoArray};
use crate::error::Error;
use crate::root::Root;
use crate::votes::{spec_committed, VoteTracker};

verus! {

/// Prunes smaller than this are not worth their cost.
pub const DEFAULT_PRUNE_THRESHOLD: usize = 256;

/// One attestation, already resolved against the chain state: the block it
/// votes for, its target epoch, and the attesting validator indices that
/// the host resolved from the aggregation bitfield.
pub struct BlockAttestation {
    pub block_root: Root,
    pub target_epoch: u64,
    pub attesting_indices: Vec<usize>,
}

/// The vote table after the first `k` attestations of a block body have
/// been folded in: an attestation counts exactly when the block it names
/// is already known to the engine; the rest are skipped without error.
pub open spec fn spec_fold_attestations(
    votes: Seq<crate::votes::Vote>,
    s: Seq<crate::node::ProtoNode>,
    atts: Seq<BlockAttestation>,
    k: int,
) -> Seq<crate::votes::Vote>
    decreases k,
{
    if k <= 0 {
        votes
    } else {
        let prev = spec_fold_attestations(votes, s, atts, k - 1);
        if has_root(s, atts[k - 1].block_root) {
            crate::votes::spec_fold_votes(
                prev,
                atts[k - 1].attesting_indices@,
                atts[k - 1].attesting_indices@.len() as int,
                atts[k - 1].block_root,
                atts[k - 1].target_epoch,
            )
        } else {
            prev
        }
    }
}

/// The fork-choice core: proto-array engine, vote tracker and checkpoint
/// manager behind one facade. Mutating calls need exclusive access to the
/// whole triple; the host serializes them.
pub struct ForkChoice {
    pub backend: ProtoArray,
    pub votes: VoteTracker,
    /// Used for resolving the all-zero alias back to the anchor. It need
    /// not be the actual genesis: the finalized root the core was seeded
    /// from suffices.
    pub genesis_block_root: Root,
    pub checkpoint_manager: CheckpointManager,
}

impl ForkChoice {
    pub open spec fn wf(self) -> bool {
        &&& self.backend.wf()
        &&& self.backend.nodes@.len() > 0
        &&& !self.genesis_block_root.spec_is_zero()
    }

    pub open spec fn spec_remove_alias(self, root: Root) -> Root {
        if root.spec_is_zero() {
            self.genesis_block_root
        } else {
            root
        }
    }

    /// The all-zero root aliases the anchor: every entry point that takes
    /// a root remaps it here before lookup, so a query for the zero root
    /// behaves as one for the anchor root.
    pub fn remove_alias(&self, root: Root) -> (r: Root)
        ensures
            r == self.spec_remove_alias(root),
    {
        if root.is_zero() {
            self.genesis_block_root
        } else {
            root
        }
    }

    /// Instantiate a new fork chooser, seeded with a single anchor block
    /// whose checkpoint pair is both current and best.
    pub fn new(genesis_block_root: Root, genesis_epoch: u64, genesis_balances: Vec<u64>) -> (r:
        ForkChoice)
        requires
            !genesis_block_root.spec_is_zero(),
        ensures
            r.wf(),
            r.backend.stable(),
            r.genesis_block_root == genesis_block_root,
            r.backend.nodes@.len() == 1,
            r.backend.nodes@[0].root == genesis_block_root,
            r.backend.justified_epoch == genesis_epoch,
            r.backend.finalized_epoch == genesis_epoch,
            r.backend.finalized_root == genesis_block_root,
            r.backend.prune_threshold == DEFAULT_PRUNE_THRESHOLD,
            r.votes.votes@.len() == 0,
            ffg_view(r.checkpoint_manager.current) == (
                genesis_epoch,
                genesis_block_root,
                genesis_balances@,
                Checkpoint { epoch: genesis_epoch, root: genesis_block_root },
            ),
            ffg_view(r.checkpoint_manager.best) == ffg_view(r.checkpoint_manager.current),
    {
        ForkChoice {
            backend: ProtoArray::new(DEFAULT_PRUNE_THRESHOLD, genesis_block_root, genesis_epoch),
            votes: VoteTracker::new(),
            genesis_block_root,
            checkpoint_manager: CheckpointManager::new(
                CheckpointWithBalances {
                    epoch: genesis_epoch,
                    root: genesis_block_root,
                    balances: genesis_balances,
                },
            ),
        }
    }

    /// Run the fork-choice rule: promote the best checkpoint pair if it is
    /// due, then chase the best-descendant link from the current justified
    /// block.
    pub fn find_head(&mut self, current_slot: u64) -> (r: Result<Root, Error>)
        requires
            old(self).wf(),
        ensures
            r is Ok ==> final(self).wf(),
            final(self).genesis_block_root == old(self).genesis_block_root,
            ffg_view(final(self).checkpoint_manager.best) == ffg_view(
                old(self).checkpoint_manager.best,
            ),
            ({
                let due = current_slot / SLOTS_PER_EPOCH > old(
                    self,
                ).checkpoint_manager.best.justified.epoch;
                let ob = old(self).checkpoint_manager.current.justified.balances@;
                let nb = old(self).checkpoint_manager.best.justified.balances@;
                let fits = spec_promotion_fits(
                    old(self).votes.votes@,
                    old(self).backend.nodes@,
                    ob,
                    nb,
                );
                &&& (!due ==> {
                    &&& final(self).backend == old(self).backend
                    &&& final(self).votes.votes@ == old(self).votes.votes@
                    &&& ffg_view(final(self).checkpoint_manager.current) == ffg_view(
                        old(self).checkpoint_manager.current,
                    )
                })
                &&& (due && !fits ==> {
                    // all-or-nothing: a failed promotion changes nothing
                    // the head query would act on
                    &&& (match r {
                        Result::Err(e) => e is DeltaOverflow,
                        Result::Ok(_) => false,
                    })
                    &&& ffg_view(final(self).checkpoint_manager.current) == ffg_view(
                        old(self).checkpoint_manager.current,
                    )
                    &&& final(self).votes.votes@ == old(self).votes.votes@
                })
                &&& (due && fits ==> {
                    // best is promoted before the backend is queried
                    &&& ffg_view(final(self).checkpoint_manager.current) == ffg_view(
                        old(self).checkpoint_manager.best,
                    )
                    &&& final(self).backend.wf()
                    &&& final(self).backend.justified_epoch == old(
                        self,
                    ).checkpoint_manager.best.justified.epoch
                    &&& final(self).backend.ffg_update_required == false
                    &&& final(self).backend.finalized_epoch == old(self).backend.finalized_epoch
                    &&& final(self).backend.finalized_root == old(self).backend.finalized_root
                    &&& shape_eq(final(self).backend.nodes@, old(self).backend.nodes@)
                    &&& final(self).votes.votes@ == spec_committed(old(self).votes.votes@)
                    &&& forall|i: int|
                        0 <= i < old(self).backend.nodes@.len() ==> (#[trigger] final(self).backend.nodes@[i]).weight
                            == old(self).backend.nodes@[i].weight + subtree_sum(
                            old(self).backend.nodes@,
                            spec_promotion_deltas(
                                old(self).votes.votes@,
                                old(self).backend.nodes@,
                                ob,
                                nb,
                            ),
                            i,
                        )
                })
                &&& (r is Ok <==> {
                    let jroot = final(self).spec_remove_alias(
                        final(self).checkpoint_manager.current.justified.root,
                    );
                    let s = final(self).backend.nodes@;
                    &&& (due ==> fits)
                    &&& has_root(s, jroot)
                    &&& final(self).backend.spec_viable_at(index_of_root(s, jroot))
                })
            }),
            match r {
                Result::Ok(h) => {
                    let jroot = final(self).spec_remove_alias(
                        final(self).checkpoint_manager.current.justified.root,
                    );
                    let s = final(self).backend.nodes@;
                    let ji = index_of_root(s, jroot);
                    &&& has_root(s, jroot)
                    &&& final(self).backend.spec_viable_at(ji)
                    &&& h == s[match s[ji].best_descendant {
                        Option::Some(d) => d as int,
                        Option::None => ji,
                    }].root
                },
                Result::Err(e) => match e {
                    Error::DeltaOverflow(_) => true,
                    Error::JustifiedNodeUnknown(fr) => {
                        let jroot = final(self).spec_remove_alias(
                            final(self).checkpoint_manager.current.justified.root,
                        );
                        &&& !has_root(final(self).backend.nodes@, jroot)
                        &&& fr == final(self).backend.finalized_root
                    },
                    Error::InvalidFindHeadStartRoot => {
                        let jroot = final(self).spec_remove_alias(
                            final(self).checkpoint_manager.current.justified.root,
                        );
                        let s = final(self).backend.nodes@;
                        &&& has_root(s, jroot)
                        &&& !final(self).backend.spec_viable_at(index_of_root(s, jroot))
                    },
                    _ => false,
                },
            },
    {
        match self.checkpoint_manager.maybe_update(current_slot, &mut self.backend, &mut self.votes
        ) {
            Result::Ok(()) => {},
            Result::Err(e) => {
                return Result::Err(e);
            },
        }
        let justified_root = self.remove_alias(self.checkpoint_manager.current.justified.root);
        self.backend.find_head(&justified_root)
    }

    /// Returns true if the given block is known to fork choice.
    pub fn contains_block(&self, block_root: &Root) -> (r: bool)
        requires
            self.wf(),
        ensures
            r == has_root(self.backend.nodes@, *block_root),
    {
        self.backend.contains_block(block_root)
    }

    /// Returns the latest message for a given validator, if any.
    pub fn latest_message(&self, validator_index: usize) -> (r: Option<(Root, u64)>)
        ensures
            r == (if (validator_index as int) < self.votes.votes@.len() && !self.votes.votes@[
                validator_index as int].next_root.spec_is_zero() {
                Option::Some(
                    (
                        self.votes.votes@[validator_index as int].next_root,
                        self.votes.votes@[validator_index as int].next_epoch,
                    ),
                )
            } else {
                Option::<(Root, u64)>::None
            }),
    {
        self.votes.latest_message(validator_index)
    }

    /// Process one attestation which references a block by its root:
    /// record the latest message of every attesting validator. The vote
    /// tracker holds votes for blocks the engine does not yet know, and
    /// ignores votes for the zero alias; nothing else changes.
    #[verifier::loop_isolation(false)]
    pub fn process_attestation(&mut self, attestation: &BlockAttestation)
        requires
            old(self).wf(),
            forall|vi: int|
                0 <= vi < attestation.attesting_indices@.len()
                    ==> attestation.attesting_indices@[vi] < usize::MAX,
        ensures
            final(self).wf(),
            final(self).backend == old(self).backend,
            final(self).genesis_block_root == old(self).genesis_block_root,
            ffg_view(final(self).checkpoint_manager.current) == ffg_view(
                old(self).checkpoint_manager.current,
            ),
            ffg_view(final(self).checkpoint_manager.best) == ffg_view(
                old(self).checkpoint_manager.best,
            ),
            final(self).votes.votes@ == crate::votes::spec_fold_votes(
                old(self).votes.votes@,
                attestation.attesting_indices@,
                attestation.attesting_indices@.len() as int,
                attestation.block_root,
                attestation.target_epoch,
            ),
            forall|w: int|
                0 <= w < old(self).votes.votes@.len() ==> (#[trigger] final(self).votes.votes@[w]).next_epoch
                    >= old(self).votes.votes@[w].next_epoch,
    {
        let mut vi: usize = 0;
        while vi < attestation.attesting_indices.len()
            invariant
                vi <= attestation.attesting_indices@.len(),
                self.backend == old(self).backend,
                self.genesis_block_root == old(self).genesis_block_root,
                ffg_view(self.checkpoint_manager.current) == ffg_view(
                    old(self).checkpoint_manager.current,
                ),
                ffg_view(self.checkpoint_manager.best) == ffg_view(
                    old(self).checkpoint_manager.best,
                ),
                self.votes.votes@ == crate::votes::spec_fold_votes(
                    old(self).votes.votes@,
                    attestation.attesting_indices@,
                    vi as int,
                    attestation.block_root,
                    attestation.target_epoch,
                ),
                forall|w: int|
                    0 <= w < old(self).votes.votes@.len() ==> (#[trigger] self.votes.votes@[w]).next_epoch
                        >= old(self).votes.votes@[w].next_epoch,
                old(self).votes.votes@.len() <= self.votes.votes@.len(),
            decreases attestation.attesting_indices@.len() - vi,
        {
            let validator_index = attestation.attesting_indices[vi];
            self.votes.process_attestation(
                validator_index,
                attestation.block_root,
                attestation.target_epoch,
            );
            vi = vi + 1;
        }
    }

    /// Process all attestations of a validated block, then register the
    /// block itself. The checkpoint manager folds in the block's observed
    /// checkpoint pair and promotes it if due; then exactly those
    /// attestations naming blocks the engine already knows are recorded as
    /// votes (the block itself is never counted as a latest message);
    /// finally the block joins the tree. A block already known, or
    /// carrying the zero alias as its root, is a no-op; an unknown parent
    /// is refused.
    #[verifier::loop_isolation(false)]
    pub fn process_block(
        &mut self,
        current_slot: u64,
        block_root: Root,
        parent_root: Root,
        justified: CheckpointWithBalances,
        finalized: Checkpoint,
        attestations: &Vec<BlockAttestation>,
    ) -> (r: Result<(), Error>)
        requires
            old(self).wf(),
            forall|ai: int, vi: int|
                0 <= ai < attestations@.len() && 0 <= vi
                    < attestations@[ai].attesting_indices@.len()
                    ==> attestations@[ai].attesting_indices@[vi] < usize::MAX,
        ensures
            r is Ok ==> final(self).wf(),
            final(self).genesis_block_root == old(self).genesis_block_root,
            r is Ok && !block_root.spec_is_zero() ==> has_root(
                final(self).backend.nodes@,
                block_root,
            ),
            forall|w: int|
                0 <= w < old(self).votes.votes@.len() ==> (#[trigger] final(self).votes.votes@[w]).next_epoch
                    >= old(self).votes.votes@[w].next_epoch,
            ({
                let s0 = old(self).backend.nodes@;
                let beats = old(self).checkpoint_manager.spec_beats(
                    old(self).backend,
                    justified.epoch,
                    justified.root,
                );
                let best1_je = if beats {
                    justified.epoch
                } else {
                    old(self).checkpoint_manager.best.justified.epoch
                };
                let best1_jr = if beats {
                    justified.root
                } else {
                    old(self).checkpoint_manager.best.justified.root
                };
                let best1_bal = if beats {
                    justified.balances@
                } else {
                    old(self).checkpoint_manager.best.justified.balances@
                };
                let best1_fin = if beats {
                    if finalized.epoch > old(self).checkpoint_manager.best.finalized.epoch {
                        finalized
                    } else {
                        old(self).checkpoint_manager.best.finalized
                    }
                } else {
                    old(self).checkpoint_manager.best.finalized
                };
                let due = current_slot / SLOTS_PER_EPOCH > best1_je;
                let fits = spec_promotion_fits(
                    old(self).votes.votes@,
                    s0,
                    old(self).checkpoint_manager.current.justified.balances@,
                    best1_bal,
                );
                let promoted = due && fits;
                let mid_votes = if promoted {
                    spec_committed(old(self).votes.votes@)
                } else {
                    old(self).votes.votes@
                };
                let remapped_parent = old(self).spec_remove_alias(parent_root);
                &&& ffg_view(final(self).checkpoint_manager.best) == (
                    best1_je,
                    best1_jr,
                    best1_bal,
                    best1_fin,
                )
                &&& (due && !fits ==> {
                    &&& (match r {
                        Result::Err(e) => e is DeltaOverflow,
                        Result::Ok(_) => false,
                    })
                    &&& ffg_view(final(self).checkpoint_manager.current) == ffg_view(
                        old(self).checkpoint_manager.current,
                    )
                    &&& final(self).votes.votes@ == old(self).votes.votes@
                })
                &&& (!due ==> ffg_view(final(self).checkpoint_manager.current) == ffg_view(
                    old(self).checkpoint_manager.current,
                ))
                &&& (promoted ==> {
                    &&& ffg_view(final(self).checkpoint_manager.current) == (
                        best1_je,
                        best1_jr,
                        best1_bal,
                        best1_fin,
                    )
                    &&& final(self).backend.justified_epoch == best1_je
                })
                &&& (!(due && !fits) ==> {
                    // the attestations naming known blocks are folded in,
                    // after any promotion commit and before the block is
                    // registered; nothing else touches the vote table
                    &&& final(self).votes.votes@ == spec_fold_attestations(
                        mid_votes,
                        s0,
                        attestations@,
                        attestations@.len() as int,
                    )
                    &&& (r is Ok <==> (block_root.spec_is_zero() || has_root(s0, block_root)
                        || spec_lookup(s0, remapped_parent) is Some))
                    &&& (r is Ok && !block_root.spec_is_zero() && !has_root(s0, block_root) ==> {
                        &&& final(self).backend.nodes@.len() == s0.len() + 1
                        &&& final(self).backend.nodes@.last() == (crate::node::ProtoNode {
                            root: block_root,
                            parent: spec_lookup(s0, remapped_parent),
                            justified_epoch: justified.epoch,
                            finalized_epoch: finalized.epoch,
                            weight: 0,
                            best_child: Option::None,
                            best_descendant: Option::None,
                        })
                    })
                    &&& (r is Ok && (block_root.spec_is_zero() || has_root(s0, block_root))
                        ==> final(self).backend.nodes@.len() == s0.len())
                })
                &&& (match r {
                    Result::Ok(()) => true,
                    Result::Err(e) => match e {
                        Error::DeltaOverflow(_) => due && !fits,
                        Error::UnknownParent(pr) => {
                            &&& pr == remapped_parent
                            &&& !block_root.spec_is_zero()
                            &&& !has_root(s0, block_root)
                            &&& spec_lookup(s0, remapped_parent) is None
                        },
                        _ => false,
                    },
                })
            }),
    {
        let ghost s0 = old(self).backend.nodes@;
        let justified_epoch = justified.epoch;
        let finalized_epoch = finalized.epoch;
        self.checkpoint_manager.process_state(justified, finalized, &self.backend);
        match self.checkpoint_manager.maybe_update(current_slot, &mut self.backend, &mut self.votes
        ) {
            Result::Ok(()) => {},
            Result::Err(e) => {
                return Result::Err(e);
            },
        }
        let ghost b_mid = self.backend;
        let ghost mid_votes = self.votes.votes@;
        let ghost cur_mid = ffg_view(self.checkpoint_manager.current);
        let ghost best_mid = ffg_view(self.checkpoint_manager.best);
        proof {
            assert(shape_eq(b_mid.nodes@, s0));
        }
        // Note: the block is never counted as a latest message, only its
        // attestations.
        let mut ai: usize = 0;
        while ai < attestations.len()
            invariant
                ai <= attestations@.len(),
                self.wf(),
                self.backend == b_mid,
                self.genesis_block_root == old(self).genesis_block_root,
                ffg_view(self.checkpoint_manager.current) == cur_mid,
                ffg_view(self.checkpoint_manager.best) == best_mid,
                self.votes.votes@ == spec_fold_attestations(mid_votes, s0, attestations@, ai as int),
                forall|w: int|
                    0 <= w < mid_votes.len() ==> (#[trigger] self.votes.votes@[w]).next_epoch
                        >= mid_votes[w].next_epoch,
                mid_votes.len() <= self.votes.votes@.len(),
            decreases attestations@.len() - ai,
        {
            let attestation = &attestations[ai];
            proof {
                lemma_lookup_shape_eq(s0, b_mid.nodes@, attestation.block_root);
            }
            if self.backend.contains_block(&attestation.block_root) {
                let ghost votes_pre = self.votes.votes@;
                let mut vi: usize = 0;
                while vi < attestation.attesting_indices.len()
                    invariant
                        vi <= attestation.attesting_indices@.len(),
                        self.backend == b_mid,
                        self.genesis_block_root == old(self).genesis_block_root,
                        ffg_view(self.checkpoint_manager.current) == cur_mid,
                        ffg_view(self.checkpoint_manager.best) == best_mid,
                        self.votes.votes@ == crate::votes::spec_fold_votes(
                            votes_pre,
                            attestation.attesting_indices@,
                            vi as int,
                            attestation.block_root,
                            attestation.target_epoch,
                        ),
                        forall|w: int|
                            0 <= w < mid_votes.len() ==> (#[trigger] self.votes.votes@[w]).next_epoch
                                >= mid_votes[w].next_epoch,
                        mid_votes.len() <= self.votes.votes@.len(),
                        forall|w: int|
                            0 <= w < votes_pre.len() ==> (#[trigger] self.votes.votes@[w]).next_epoch
                                >= votes_pre[w].next_epoch,
                        votes_pre.len() <= self.votes.votes@.len(),
                        votes_pre == spec_fold_attestations(mid_votes, s0, attestations@, ai as int),
                    decreases attestation.attesting_indices@.len() - vi,
                {
                    let validator_index = attestation.attesting_indices[vi];
                    self.votes.process_attestation(
                        validator_index,
                        attestation.block_root,
                        attestation.target_epoch,
                    );
                    vi = vi + 1;
                }
            }
            ai = ai + 1;
        }
        // Make fork choice aware of the block so it can be chosen as head
        // even if it has no votes.
        if block_root.is_zero() {
            return Result::Ok(());
        }
        proof {
            lemma_lookup_shape_eq(s0, b_mid.nodes@, block_root);
        }
        if self.backend.contains_block(&block_root) {
            return Result::Ok(());
        }
        let resolved_parent = self.remove_alias(parent_root);
        proof {
            lemma_lookup_shape_eq(s0, b_mid.nodes@, resolved_parent);
        }
        let ghost votes_done = self.votes.votes@;
        match self.backend.on_new_block(
            block_root,
            Option::Some(resolved_parent),
            justified_epoch,
            finalized_epoch,
        ) {
            Result::Ok(()) => {
                proof {
                    assert(self.backend.nodes@.last() == (crate::node::ProtoNode {
                        root: block_root,
                        parent: spec_lookup(s0, old(self).spec_remove_alias(parent_root)),
                        justified_epoch,
                        finalized_epoch,
                        weight: 0,
                        best_child: Option::None,
                        best_descendant: Option::None,
                    }));
                }
                Result::Ok(())
            },
            Result::Err(e) => Result::Err(e),
        }
    }

    /// Trigger a prune on the engine with the current finalized pair, the
    /// zero alias remapped to the anchor.
    pub fn prune(&mut self) -> (r: Result<(), Error>)
        requires
            old(self).wf(),
        ensures
            final(self).wf(),
            final(self).genesis_block_root == old(self).genesis_block_root,
            final(self).votes.votes@ == old(self).votes.votes@,
            ffg_view(final(self).checkpoint_manager.current) == ffg_view(
                old(self).checkpoint_manager.current,
            ),
            ffg_view(final(self).checkpoint_manager.best) == ffg_view(
                old(self).checkpoint_manager.best,
            ),
            final(self).backend.finalized_epoch >= old(self).backend.finalized_epoch,
            final(self).backend.finalized_epoch == old(self).backend.finalized_epoch ==> final(self).backend.finalized_root
                == old(self).backend.finalized_root,
            final(self).backend.justified_epoch == old(self).backend.justified_epoch,
            final(self).backend.prune_threshold == old(self).backend.prune_threshold,
            ({
                let fe = old(self).checkpoint_manager.current.finalized.epoch;
                let fr = old(self).spec_remove_alias(
                    old(self).checkpoint_manager.current.finalized.root,
                );
                match r {
                    Result::Ok(()) => {
                        let fi_opt = spec_lookup(old(self).backend.nodes@, fr);
                        &&& !(fe == old(self).backend.finalized_epoch && fr != old(
                            self,
                        ).backend.finalized_root)
                        &&& fe >= old(self).backend.finalized_epoch
                        &&& final(self).backend.finalized_epoch == fe
                        &&& final(self).backend.finalized_root == fr
                        &&& fi_opt is Some
                        &&& {
                            let fi = fi_opt->0 as int;
                            if fi < old(self).backend.prune_threshold as int {
                                final(self).backend.nodes@ == old(self).backend.nodes@
                            } else {
                                &&& final(self).backend.nodes@.len() == old(
                                    self,
                                ).backend.nodes@.len() - fi
                                &&& forall|j: int|
                                    0 <= j < final(self).backend.nodes@.len()
                                        ==> #[trigger] final(self).backend.nodes@[j]
                                        == ProtoArray::spec_pruned_node(
                                        old(self).backend.nodes@[fi + j],
                                        fi,
                                    )
                            }
                        }
                    },
                    Result::Err(e) => match e {
                        Error::InvalidFinalizedRootChange => {
                            &&& fe == old(self).backend.finalized_epoch
                            &&& fr != old(self).backend.finalized_root
                            &&& final(self).backend == old(self).backend
                        },
                        Error::RevertedFinalizedEpoch => {
                            &&& fe < old(self).backend.finalized_epoch
                            &&& final(self).backend == old(self).backend
                        },
                        Error::FinalizedNodeUnknown(missing) => {
                            &&& missing == fr
                            &&& !has_root(old(self).backend.nodes@, fr)
                            &&& final(self).backend.nodes@ == old(self).backend.nodes@
                            &&& final(self).backend.finalized_epoch == fe
                            &&& final(self).backend.finalized_root == fr
                        },
                        _ => false,
                    },
                }
            }),
    {
        let finalized_epoch = self.checkpoint_manager.current.finalized.epoch;
        let finalized_root = self.remove_alias(self.checkpoint_manager.current.finalized.root);
        match self.backend.maybe_prune(finalized_epoch, finalized_root) {
            Result::Ok(()) => Result::Ok(()),
            Result::Err(e) => Result::Err(e),
        }
    }
}

} // verus!
