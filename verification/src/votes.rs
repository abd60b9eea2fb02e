use vstd::prelude::*;
use crate::engine::{spec_lookup, ProtoArray};
use crate::error::Error;
use crate::root::Root;

verus! {

/// One validator's vote state: the latest message seen (`next_root`,
/// `next_epoch`) and the vote that the engine's weights currently reflect
/// (`current_root`). The all-zero root means "no vote".
#[derive(Clone, Copy, Debug)]
pub struct Vote {
    pub current_root: Root,
    pub next_root: Root,
    pub next_epoch: u64,
}

pub open spec fn spec_empty_vote() -> Vote {
    Vote { current_root: Root::spec_zero(), next_root: Root::spec_zero(), next_epoch: 0 }
}

/// The vote table grown with empty entries so that index `v` exists.
pub open spec fn spec_grown(votes: Seq<Vote>, v: int) -> Seq<Vote> {
    if v < votes.len() {
        votes
    } else {
        votes + Seq::new((v + 1 - votes.len()) as nat, |t: int| spec_empty_vote())
    }
}

/// A balance vector read out of range yields zero.
pub open spec fn spec_bal(b: Seq<u64>, v: int) -> int {
    if 0 <= v < b.len() {
        b[v] as int
    } else {
        0
    }
}

/// Sum over the first `v` validators of the new balance each adds at node
/// `i` through its latest message.
pub open spec fn added_at(votes: Seq<Vote>, s: Seq<crate::node::ProtoNode>, nb: Seq<u64>, i: int, v: int) -> int
    decreases v,
{
    if v <= 0 {
        0
    } else {
        added_at(votes, s, nb, i, v - 1) + (if 0 <= v - 1 < votes.len() && spec_lookup(
            s,
            votes[v - 1].next_root,
        ) == Option::Some(i as usize) {
            spec_bal(nb, v - 1)
        } else {
            0
        })
    }
}

/// Sum over the first `v` validators of the old balance each removes at
/// node `i` through its previously applied vote.
pub open spec fn removed_at(votes: Seq<Vote>, s: Seq<crate::node::ProtoNode>, ob: Seq<u64>, i: int, v: int) -> int
    decreases v,
{
    if v <= 0 {
        0
    } else {
        removed_at(votes, s, ob, i, v - 1) + (if 0 <= v - 1 < votes.len() && spec_lookup(
            s,
            votes[v - 1].current_root,
        ) == Option::Some(i as usize) {
            spec_bal(ob, v - 1)
        } else {
            0
        })
    }
}

/// The signed weight change owed to node `i` when the applied votes move
/// from the previous table entries to the latest messages, with balances
/// moving from `ob` to `nb`.
pub open spec fn spec_delta_at(
    votes: Seq<Vote>,
    s: Seq<crate::node::ProtoNode>,
    ob: Seq<u64>,
    nb: Seq<u64>,
    i: int,
) -> int {
    added_at(votes, s, nb, i, votes.len() as int) - removed_at(votes, s, ob, i, votes.len() as int)
}

/// The table after one vote is recorded: grown to hold the validator,
/// with the latest message replaced only on a strictly greater target
/// epoch, and votes for the all-zero alias ignored.
pub open spec fn spec_vote_update(votes: Seq<Vote>, v: int, block_root: Root, target_epoch: u64) -> Seq<Vote> {
    if block_root.spec_is_zero() {
        votes
    } else {
        let grown = spec_grown(votes, v);
        if target_epoch > grown[v].next_epoch {
            grown.update(
                v,
                Vote {
                    current_root: grown[v].current_root,
                    next_root: block_root,
                    next_epoch: target_epoch,
                },
            )
        } else {
            grown
        }
    }
}

/// The table after the first `k` of a list of validator indices have voted
/// for one block.
pub open spec fn spec_fold_votes(
    votes: Seq<Vote>,
    idxs: Seq<usize>,
    k: int,
    block_root: Root,
    target_epoch: u64,
) -> Seq<Vote>
    decreases k,
{
    if k <= 0 {
        votes
    } else {
        spec_vote_update(
            spec_fold_votes(votes, idxs, k - 1, block_root, target_epoch),
            idxs[k - 1] as int,
            block_root,
            target_epoch,
        )
    }
}

/// The table after every latest message has been marked as applied.
pub open spec fn spec_committed(votes: Seq<Vote>) -> Seq<Vote> {
    Seq::new(votes.len(), |w: int| Vote { current_root: votes[w].next_root, ..votes[w] })
}

/// Per-validator latest-message table keyed by validator index.
pub struct VoteTracker {
    pub votes: Vec<Vote>,
}

impl VoteTracker {
    pub fn new() -> (r: VoteTracker)
        ensures
            r.votes@.len() == 0,
    {
        VoteTracker { votes: Vec::new() }
    }

    /// The latest message of a validator: its block root and target epoch,
    /// or nothing when the validator has never voted.
    pub fn latest_message(&self, validator_index: usize) -> (r: Option<(Root, u64)>)
        ensures
            r == (if (validator_index as int) < self.votes@.len() && !self.votes@[
                validator_index as int].next_root.spec_is_zero() {
                Option::Some(
                    (
                        self.votes@[validator_index as int].next_root,
                        self.votes@[validator_index as int].next_epoch,
                    ),
                )
            } else {
                Option::<(Root, u64)>::None
            }),
    {
        if validator_index < self.votes.len() {
            let vote = self.votes[validator_index];
            if !vote.next_root.is_zero() {
                return Option::Some((vote.next_root, vote.next_epoch));
            }
        }
        Option::None
    }

    /// Record a validator's vote. The latest message is replaced only when
    /// the new vote's target epoch is strictly greater than the stored one;
    /// votes for the all-zero alias are ignored. The target epoch of a
    /// stored latest message therefore never decreases.
    pub fn process_attestation(
        &mut self,
        validator_index: usize,
        block_root: Root,
        target_epoch: u64,
    )
        requires
            validator_index < usize::MAX,
        ensures
            final(self).votes@ == spec_vote_update(
                old(self).votes@,
                validator_index as int,
                block_root,
                target_epoch,
            ),
            ({
                let grown = spec_grown(old(self).votes@, validator_index as int);
                final(self).votes@ == (if block_root.spec_is_zero() {
                    old(self).votes@
                } else if target_epoch > grown[validator_index as int].next_epoch {
                    grown.update(
                        validator_index as int,
                        Vote {
                            current_root: grown[validator_index as int].current_root,
                            next_root: block_root,
                            next_epoch: target_epoch,
                        },
                    )
                } else {
                    grown
                })
            }),
            forall|w: int|
                0 <= w < old(self).votes@.len() ==> (#[trigger] final(self).votes@[w]).next_epoch
                    >= old(self).votes@[w].next_epoch,
    {
        if block_root.is_zero() {
            return ;
        }
        let ghost pre = self.votes@;
        while self.votes.len() <= validator_index
            invariant
                validator_index < usize::MAX,
                pre.len() <= self.votes@.len(),
                pre.len() > validator_index as int ==> self.votes@ == pre,
                pre.len() <= validator_index as int ==> self.votes@.len() <= validator_index as int
                    + 1,
                self.votes@ == pre + Seq::new(
                    (self.votes@.len() - pre.len()) as nat,
                    |t: int| spec_empty_vote(),
                ),
            decreases validator_index + 1 - self.votes.len(),
        {
            self.votes.push(
                Vote { current_root: Root::zero(), next_root: Root::zero(), next_epoch: 0 },
            );
            proof {
                assert(self.votes@ =~= pre + Seq::new(
                    (self.votes@.len() - pre.len()) as nat,
                    |t: int| spec_empty_vote(),
                ));
            }
        }
        proof {
            assert(self.votes@ =~= spec_grown(pre, validator_index as int));
        }
        let vote = self.votes[validator_index];
        if target_epoch > vote.next_epoch {
            self.votes.set(
                validator_index,
                Vote {
                    current_root: vote.current_root,
                    next_root: block_root,
                    next_epoch: target_epoch,
                },
            );
        }
    }

    /// Produce one signed weight change per engine node: each validator
    /// with a latest message adds its new balance at the node that message
    /// names, and removes its old balance at the node its previously
    /// applied vote names. Votes naming blocks unknown to the engine
    /// contribute nothing. Fails with `DeltaOverflow` exactly when some
    /// node's total change does not fit an `i64`.
    ///
    /// This only reads the table; after the engine has accepted the deltas
    /// the caller commits them with `commit_votes`, so a failed promotion
    /// is all-or-nothing.
    #[verifier::loop_isolation(false)]
    pub fn compute_deltas(
        &self,
        engine: &ProtoArray,
        old_balances: &Vec<u64>,
        new_balances: &Vec<u64>,
    ) -> (r: Result<Vec<i64>, Error>)
        requires
            engine.wf(),
        ensures
            ({
                let votes = self.votes@;
                let s = engine.nodes@;
                let ob = old_balances@;
                let nb = new_balances@;
                &&& (r is Ok <==> forall|i: int|
                    0 <= i < s.len() ==> i64::MIN <= #[trigger] spec_delta_at(votes, s, ob, nb, i)
                        <= i64::MAX)
                &&& (match r {
                    Result::Ok(d) => d@.len() == s.len() && forall|i: int|
                        0 <= i < s.len() ==> (#[trigger] d@[i]) as int == spec_delta_at(
                            votes,
                            s,
                            ob,
                            nb,
                            i,
                        ),
                    Result::Err(e) => e is DeltaOverflow,
                })
            }),
    {
        let n = engine.nodes.len();
        let nv = self.votes.len();
        let ghost votes = self.votes@;
        let ghost s = engine.nodes@;
        let ghost ob = old_balances@;
        let ghost nb = new_balances@;
        let mut adds: Vec<u128> = Vec::new();
        let mut subs: Vec<u128> = Vec::new();
        let mut t: usize = 0;
        while t < n
            invariant
                t <= n,
                adds@.len() == t as int,
                subs@.len() == t as int,
                forall|i: int| 0 <= i < t as int ==> (#[trigger] adds@[i]) == 0,
                forall|i: int| 0 <= i < t as int ==> (#[trigger] subs@[i]) == 0,
            decreases n - t,
        {
            adds.push(0);
            subs.push(0);
            t = t + 1;
        }
        let mut v: usize = 0;
        while v < nv
            invariant
                v <= nv,
                adds@.len() == n as int,
                subs@.len() == n as int,
                forall|i: int|
                    0 <= i < n as int ==> (#[trigger] adds@[i]) as int == added_at(
                        votes,
                        s,
                        nb,
                        i,
                        v as int,
                    ),
                forall|i: int|
                    0 <= i < n as int ==> (#[trigger] subs@[i]) as int == removed_at(
                        votes,
                        s,
                        ob,
                        i,
                        v as int,
                    ),
                forall|i: int|
                    0 <= i < n as int ==> (#[trigger] adds@[i]) as int <= v as int * (
                    u64::MAX as int),
                forall|i: int|
                    0 <= i < n as int ==> (#[trigger] subs@[i]) as int <= v as int * (
                    u64::MAX as int),
            decreases nv - v,
        {
            let vote = self.votes[v];
            let ob_v: u64 = if v < old_balances.len() {
                old_balances[v]
            } else {
                0
            };
            let nb_v: u64 = if v < new_balances.len() {
                new_balances[v]
            } else {
                0
            };
            proof {
                assert(v as int * (u64::MAX as int) <= 0xffff_ffff_ffff_ffff
                    * 0xffff_ffff_ffff_ffffint) by {
                    assert(v as int <= 0xffff_ffff_ffff_ffff);
                }
            }
            let ghost adds_pre = adds@;
            let ghost subs_pre = subs@;
            match engine.lookup_index(&vote.current_root) {
                Option::Some(ci) => {
                    let cur = subs[ci];
                    subs.set(ci, cur + (ob_v as u128));
                },
                Option::None => {},
            }
            match engine.lookup_index(&vote.next_root) {
                Option::Some(ni) => {
                    let cur = adds[ni];
                    adds.set(ni, cur + (nb_v as u128));
                },
                Option::None => {},
            }
            proof {
                assert(spec_bal(ob, v as int) == ob_v as int);
                assert(spec_bal(nb, v as int) == nb_v as int);
                assert forall|i: int|
                    0 <= i < n as int implies (#[trigger] adds@[i]) as int == added_at(
                    votes,
                    s,
                    nb,
                    i,
                    v as int + 1,
                ) && adds@[i] as int <= (v as int + 1) * (u64::MAX as int) by {
                    assert(added_at(votes, s, nb, i, v as int + 1) == added_at(votes, s, nb, i, v as int)
                        + (if spec_lookup(s, votes[v as int].next_root) == Option::Some(i as usize) {
                        spec_bal(nb, v as int)
                    } else {
                        0
                    }));
                    if spec_lookup(s, votes[v as int].next_root) != Option::Some(i as usize) {
                        assert(adds@[i] == adds_pre[i]);
                    }
                }
                assert forall|i: int|
                    0 <= i < n as int implies (#[trigger] subs@[i]) as int == removed_at(
                    votes,
                    s,
                    ob,
                    i,
                    v as int + 1,
                ) && subs@[i] as int <= (v as int + 1) * (u64::MAX as int) by {
                    assert(removed_at(votes, s, ob, i, v as int + 1) == removed_at(votes, s, ob, i, v as int)
                        + (if spec_lookup(s, votes[v as int].current_root) == Option::Some(
                        i as usize,
                    ) {
                        spec_bal(ob, v as int)
                    } else {
                        0
                    }));
                    if spec_lookup(s, votes[v as int].current_root) != Option::Some(i as usize) {
                        assert(subs@[i] == subs_pre[i]);
                    }
                }
            }
            v = v + 1;
        }
        let mut out: Vec<i64> = Vec::new();
        let mut i: usize = 0;
        while i < n
            invariant
                i <= n,
                out@.len() == i as int,
                forall|j: int|
                    0 <= j < i as int ==> (#[trigger] out@[j]) as int == spec_delta_at(
                        votes,
                        s,
                        ob,
                        nb,
                        j,
                    ),
            decreases n - i,
        {
            let a = adds[i];
            let b = subs[i];
            proof {
                assert(a as int - b as int == spec_delta_at(votes, s, ob, nb, i as int));
            }
            if a >= b {
                let m = a - b;
                if m > (i64::MAX as u128) {
                    proof {
                        assert(spec_delta_at(votes, s, ob, nb, i as int) > i64::MAX);
                    }
                    return Result::Err(Error::DeltaOverflow(i));
                }
                out.push(m as i64);
            } else {
                let m = b - a;
                if m > (i64::MAX as u128) + 1 {
                    proof {
                        assert(spec_delta_at(votes, s, ob, nb, i as int) < i64::MIN);
                    }
                    return Result::Err(Error::DeltaOverflow(i));
                }
                if m == (i64::MAX as u128) + 1 {
                    out.push(i64::MIN);
                } else {
                    out.push(-(m as i64));
                }
            }
            i = i + 1;
        }
        proof {
            assert forall|j: int|
                0 <= j < s.len() implies i64::MIN <= #[trigger] spec_delta_at(votes, s, ob, nb, j)
                <= i64::MAX by {
                assert(out@[j] as int == spec_delta_at(votes, s, ob, nb, j));
            }
        }
        Result::Ok(out)
    }

    /// Mark every latest message as applied: the engine's weights now
    /// reflect it. Called after the engine has accepted the matching score
    /// changes, so that a failed promotion leaves the table untouched.
    pub fn commit_votes(&mut self)
        ensures
            final(self).votes@ == spec_committed(old(self).votes@),
            final(self).votes@.len() == old(self).votes@.len(),
            forall|w: int|
                0 <= w < old(self).votes@.len() ==> #[trigger] final(self).votes@[w] == (Vote {
                    current_root: old(self).votes@[w].next_root,
                    ..old(self).votes@[w]
                }),
    {
        let n = self.votes.len();
        let ghost pre = self.votes@;
        let mut v: usize = 0;
        while v < n
            invariant
                n == self.votes@.len(),
                n == pre.len(),
                v <= n,
                forall|w: int|
                    0 <= w < v ==> #[trigger] self.votes@[w] == (Vote {
                        current_root: pre[w].next_root,
                        ..pre[w]
                    }),
                forall|w: int| v <= w < n ==> #[trigger] self.votes@[w] == pre[w],
            decreases n - v,
        {
            let vote = self.votes[v];
            self.votes.set(v, Vote { current_root: vote.next_root, ..vote });
            v = v + 1;
        }
        proof {
            assert(self.votes@ =~= spec_committed(pre));
        }
    }
}

} // verus!
