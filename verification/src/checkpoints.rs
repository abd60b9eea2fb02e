use vstd::prelude::*;
use crate::engine::{deltas_fit, deltas_view, shape_eq, subtree_sum, ProtoArray};
use crate::error::Error;
use crate::root::Root;
use crate::votes::{spec_committed, spec_delta_at, VoteTracker};

verus! {

/// Slots per epoch of the consensus protocol.
pub const SLOTS_PER_EPOCH: u64 = 32;

/// An (epoch, block root) pair naming a distinguished block.
#[derive(Clone, Copy, PartialEq, Eq, Structural, Debug)]
pub struct Checkpoint {
    pub epoch: u64,
    pub root: Root,
}

/// A checkpoint together with the validator effective-balance vector at its
/// block.
#[derive(Debug)]
pub struct CheckpointWithBalances {
    pub epoch: u64,
    pub root: Root,
    pub balances: Vec<u64>,
}

/// The (justified, finalized) pair the fork choice acts on.
#[derive(Debug)]
pub struct FfgCheckpoints {
    pub justified: CheckpointWithBalances,
    pub finalized: Checkpoint,
}

/// The mathematical content of an FFG pair.
pub open spec fn ffg_view(f: FfgCheckpoints) -> (u64, Root, Seq<u64>, Checkpoint) {
    (f.justified.epoch, f.justified.root, f.justified.balances@, f.finalized)
}

fn clone_balances(b: &Vec<u64>) -> (r: Vec<u64>)
    ensures
        r@ == b@,
{
    let mut r: Vec<u64> = Vec::new();
    let mut i: usize = 0;
    while i < b.len()
        invariant
            i <= b@.len(),
            r@ == b@.subrange(0, i as int),
        decreases b@.len() - i,
    {
        r.push(b[i]);
        proof {
            assert(r@ =~= b@.subrange(0, i as int + 1));
        }
        i = i + 1;
    }
    proof {
        assert(r@ =~= b@);
    }
    r
}

/// The delta vector a promotion hands to the engine: one signed change
/// per node, moving the applied votes from the old to the new justified
/// balances.
pub open spec fn spec_promotion_deltas(
    votes: Seq<crate::votes::Vote>,
    s: Seq<crate::node::ProtoNode>,
    ob: Seq<u64>,
    nb: Seq<u64>,
) -> Seq<int> {
    Seq::new(s.len(), |i: int| spec_delta_at(votes, s, ob, nb, i))
}

/// A promotion succeeds exactly when every per-node delta fits an `i64`
/// and every accumulation of the score pass stays in range.
pub open spec fn spec_promotion_fits(
    votes: Seq<crate::votes::Vote>,
    s: Seq<crate::node::ProtoNode>,
    ob: Seq<u64>,
    nb: Seq<u64>,
) -> bool {
    let d0 = spec_promotion_deltas(votes, s, ob, nb);
    &&& forall|i: int| 0 <= i < s.len() ==> i64::MIN <= #[trigger] d0[i] <= i64::MAX
    &&& deltas_fit(s, d0)
}

/// Tracks the (justified, finalized) pair the engine currently acts on
/// (`current`) and the best pair observed so far that has not yet been
/// promoted (`best`).
pub struct CheckpointManager {
    pub current: FfgCheckpoints,
    pub best: FfgCheckpoints,
}

impl CheckpointManager {
    /// Start from the anchor: both pairs name the anchor checkpoint.
    pub fn new(genesis: CheckpointWithBalances) -> (r: CheckpointManager)
        ensures
            ffg_view(r.current) == (
                genesis.epoch,
                genesis.root,
                genesis.balances@,
                Checkpoint { epoch: genesis.epoch, root: genesis.root },
            ),
            ffg_view(r.best) == ffg_view(r.current),
    {
        let finalized = Checkpoint { epoch: genesis.epoch, root: genesis.root };
        let balances_copy = clone_balances(&genesis.balances);
        CheckpointManager {
            current: FfgCheckpoints {
                justified: CheckpointWithBalances {
                    epoch: genesis.epoch,
                    root: genesis.root,
                    balances: balances_copy,
                },
                finalized,
            },
            best: FfgCheckpoints { justified: genesis, finalized },
        }
    }

    /// A copy of the manager with the same mathematical content.
    pub fn duplicate(&self) -> (r: CheckpointManager)
        ensures
            ffg_view(r.current) == ffg_view(self.current),
            ffg_view(r.best) == ffg_view(self.best),
    {
        CheckpointManager {
            current: FfgCheckpoints {
                justified: CheckpointWithBalances {
                    epoch: self.current.justified.epoch,
                    root: self.current.justified.root,
                    balances: clone_balances(&self.current.justified.balances),
                },
                finalized: self.current.finalized,
            },
            best: FfgCheckpoints {
                justified: CheckpointWithBalances {
                    epoch: self.best.justified.epoch,
                    root: self.best.justified.root,
                    balances: clone_balances(&self.best.justified.balances),
                },
                finalized: self.best.finalized,
            },
        }
    }

    /// Whether an observed justified checkpoint beats the best one seen so
    /// far: a strictly greater epoch, or the same epoch with a root that
    /// already lies on the engine's canonical chain from the best root.
    pub open spec fn spec_beats(
        self,
        engine: ProtoArray,
        justified_epoch: u64,
        justified_root: Root,
    ) -> bool {
        ||| justified_epoch > self.best.justified.epoch
        ||| (justified_epoch == self.best.justified.epoch && engine.spec_on_canonical_chain(
            self.best.justified.root,
            justified_root,
        ))
    }

    /// Fold in the checkpoint pair observed in a processed block's
    /// post-state. When its justified checkpoint beats `best.justified`,
    /// the best pair is replaced: the justified side always, the finalized
    /// side only when it advances the best finalized epoch.
    pub fn process_state(
        &mut self,
        justified: CheckpointWithBalances,
        finalized: Checkpoint,
        engine: &ProtoArray,
    )
        requires
            engine.wf(),
        ensures
            ffg_view(final(self).current) == ffg_view(old(self).current),
            ({
                let beats = old(self).spec_beats(*engine, justified.epoch, justified.root);
                ffg_view(final(self).best) == (if beats {
                    (
                        justified.epoch,
                        justified.root,
                        justified.balances@,
                        if finalized.epoch > old(self).best.finalized.epoch {
                            finalized
                        } else {
                            old(self).best.finalized
                        },
                    )
                } else {
                    ffg_view(old(self).best)
                })
            }),
    {
        let beats = if justified.epoch > self.best.justified.epoch {
            true
        } else if justified.epoch == self.best.justified.epoch {
            engine.is_on_canonical_chain(&self.best.justified.root, &justified.root)
        } else {
            false
        };
        if beats {
            let new_finalized = if finalized.epoch > self.best.finalized.epoch {
                finalized
            } else {
                self.best.finalized
            };
            self.best = FfgCheckpoints { justified, finalized: new_finalized };
        }
    }

    /// Promote `best` into `current` once the current slot's epoch is
    /// strictly past the best justified epoch. Promotion recomputes the
    /// vote deltas between the old and new justified balances, applies them
    /// to the engine under the new justified epoch, and only then commits
    /// the vote table and replaces `current`: a failure from the engine
    /// leaves `current` and the vote table unchanged.
    pub fn maybe_update(
        &mut self,
        current_slot: u64,
        engine: &mut ProtoArray,
        votes: &mut VoteTracker,
    ) -> (r: Result<(), Error>)
        requires
            old(engine).wf(),
        ensures
            ffg_view(final(self).best) == ffg_view(old(self).best),
            current_slot / SLOTS_PER_EPOCH <= old(self).best.justified.epoch ==> {
                &&& ffg_view(final(self).current) == ffg_view(old(self).current)
                &&& *final(engine) == *old(engine)
                &&& final(votes).votes@ == old(votes).votes@
                &&& r is Ok
            },
            current_slot / SLOTS_PER_EPOCH > old(self).best.justified.epoch ==> (r is Ok
                <==> spec_promotion_fits(
                old(votes).votes@,
                old(engine).nodes@,
                old(self).current.justified.balances@,
                old(self).best.justified.balances@,
            )),
            current_slot / SLOTS_PER_EPOCH > old(self).best.justified.epoch ==> (match r {
                Result::Ok(()) => {
                    let d0 = Seq::new(
                        old(engine).nodes@.len(),
                        |i: int|
                            spec_delta_at(
                                old(votes).votes@,
                                old(engine).nodes@,
                                old(self).current.justified.balances@,
                                old(self).best.justified.balances@,
                                i,
                            ),
                    );
                    &&& ffg_view(final(self).current) == ffg_view(old(self).best)
                    &&& final(engine).wf()
                    &&& final(engine).justified_epoch == old(self).best.justified.epoch
                    &&& final(engine).ffg_update_required == false
                    &&& final(engine).finalized_epoch == old(engine).finalized_epoch
                    &&& final(engine).finalized_root == old(engine).finalized_root
                    &&& final(engine).prune_threshold == old(engine).prune_threshold
                    &&& shape_eq(final(engine).nodes@, old(engine).nodes@)
                    &&& final(votes).votes@ == spec_committed(old(votes).votes@)
                    &&& forall|i: int|
                        0 <= i < old(engine).nodes@.len() ==> (#[trigger] final(engine).nodes@[i]).weight
                            == old(engine).nodes@[i].weight + subtree_sum(
                            old(engine).nodes@,
                            d0,
                            i,
                        )
                    &&& final(votes).votes@.len() == old(votes).votes@.len()
                    &&& forall|w: int|
                        0 <= w < old(votes).votes@.len() ==> #[trigger] final(votes).votes@[w]
                            == (crate::votes::Vote {
                            current_root: old(votes).votes@[w].next_root,
                            ..old(votes).votes@[w]
                        })
                },
                Result::Err(e) => {
                    &&& e is DeltaOverflow
                    &&& ffg_view(final(self).current) == ffg_view(old(self).current)
                    &&& final(votes).votes@ == old(votes).votes@
                },
            }),
    {
        let current_epoch = current_slot / SLOTS_PER_EPOCH;
        if current_epoch <= self.best.justified.epoch {
            return Result::Ok(());
        }
        let deltas = match votes.compute_deltas(
            engine,
            &self.current.justified.balances,
            &self.best.justified.balances,
        ) {
            Result::Ok(d) => d,
            Result::Err(e) => {
                proof {
                    let ob = old(self).current.justified.balances@;
                    let nb = old(self).best.justified.balances@;
                    let d0 = spec_promotion_deltas(
                        old(votes).votes@,
                        old(engine).nodes@,
                        ob,
                        nb,
                    );
                    if spec_promotion_fits(old(votes).votes@, old(engine).nodes@, ob, nb) {
                        assert forall|i: int|
                            0 <= i < old(engine).nodes@.len() implies i64::MIN
                            <= #[trigger] spec_delta_at(
                            old(votes).votes@,
                            old(engine).nodes@,
                            ob,
                            nb,
                            i,
                        ) <= i64::MAX by {
                            assert(i64::MIN <= d0[i] <= i64::MAX);
                        }
                        assert(false);
                    }
                }
                return Result::Err(e);
            },
        };
        let ghost d_exec = deltas@;
        let ghost d0 = spec_promotion_deltas(
            old(votes).votes@,
            old(engine).nodes@,
            old(self).current.justified.balances@,
            old(self).best.justified.balances@,
        );
        proof {
            assert(deltas_view(d_exec) =~= d0);
        }
        match engine.apply_score_changes(deltas, self.best.justified.epoch) {
            Result::Ok(()) => {
                proof {
                    assert(spec_promotion_fits(
                        old(votes).votes@,
                        old(engine).nodes@,
                        old(self).current.justified.balances@,
                        old(self).best.justified.balances@,
                    ));
                }
            },
            Result::Err(e) => {
                proof {
                    assert(e is DeltaOverflow);
                    assert(!deltas_fit(old(engine).nodes@, d0));
                }
                return Result::Err(e);
            },
        }
        votes.commit_votes();
        self.current = FfgCheckpoints {
            justified: CheckpointWithBalances {
                epoch: self.best.justified.epoch,
                root: self.best.justified.root,
                balances: clone_balances(&self.best.justified.balances),
            },
            finalized: self.best.finalized,
        };
        Result::Ok(())
    }
}

} // verus!
