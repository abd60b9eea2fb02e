use proto_array::engine::ProtoArray;
use proto_array::error::Error;
use proto_array::root::Root;
use proto_array::votes::VoteTracker;

fn root(n: u64) -> Root {
    Root { l0: 0, l1: 0, l2: 0, l3: n }
}

/// S1: single chain, single voter: anchor -> A -> B -> C, validator 0
/// votes C with balance 32; every node on the chain weighs 32 and C is the
/// head.
#[test]
fn single_chain_single_voter() {
    let anchor = root(1);
    let mut engine = ProtoArray::new(0, anchor, 0);
    let a = root(10);
    let b = root(20);
    let c = root(30);
    engine.on_new_block(a, Some(anchor), 0, 0).unwrap();
    engine.on_new_block(b, Some(a), 0, 0).unwrap();
    engine.on_new_block(c, Some(b), 0, 0).unwrap();

    let mut votes = VoteTracker::new();
    engine.apply_score_changes(vec![0, 0, 0, 0], 0).unwrap();
    votes.process_attestation(0, c, 1);
    let deltas = votes.compute_deltas(&engine, &vec![0], &vec![32]).unwrap();
    assert_eq!(deltas, vec![0, 0, 0, 32]);
    engine.apply_score_changes(deltas, 0).unwrap();
    votes.commit_votes();

    assert_eq!(engine.find_head(&anchor).unwrap(), c);
    assert_eq!(engine.nodes[0].weight, 32);
    assert_eq!(engine.nodes[1].weight, 32);
    assert_eq!(engine.nodes[2].weight, 32);
    assert_eq!(engine.nodes[3].weight, 32);
}

/// S2: two children of the anchor with equal weight: the lexicographically
/// larger root wins the tiebreak.
#[test]
fn tiebreak_by_root() {
    let anchor = root(1);
    let mut engine = ProtoArray::new(0, anchor, 0);
    let a = root(20);
    let b = root(10);
    engine.on_new_block(a, Some(anchor), 0, 0).unwrap();
    engine.on_new_block(b, Some(anchor), 0, 0).unwrap();

    let mut votes = VoteTracker::new();
    votes.process_attestation(0, a, 1);
    votes.process_attestation(1, b, 1);
    let deltas = votes
        .compute_deltas(&engine, &vec![0, 0], &vec![16, 16])
        .unwrap();
    engine.apply_score_changes(deltas, 0).unwrap();
    votes.commit_votes();

    assert_eq!(engine.nodes[0].weight, 32);
    assert_eq!(engine.nodes[1].weight, 16);
    assert_eq!(engine.nodes[2].weight, 16);
    // A's root is lexicographically larger than B's.
    assert_eq!(engine.nodes[0].best_child, Some(1));
    assert_eq!(engine.find_head(&anchor).unwrap(), a);
}

/// S3: a validator re-votes with a higher target epoch; the deltas move
/// its balance and the head follows.
#[test]
fn vote_switch() {
    let anchor = root(1);
    let mut engine = ProtoArray::new(0, anchor, 0);
    let a = root(10);
    let b = root(20);
    let c = root(30);
    let d = root(40);
    engine.on_new_block(a, Some(anchor), 0, 0).unwrap();
    engine.on_new_block(b, Some(a), 0, 0).unwrap();
    engine.on_new_block(c, Some(b), 0, 0).unwrap();

    let mut votes = VoteTracker::new();
    votes.process_attestation(0, c, 1);
    let deltas = votes.compute_deltas(&engine, &vec![0], &vec![32]).unwrap();
    engine.apply_score_changes(deltas, 0).unwrap();
    votes.commit_votes();
    assert_eq!(engine.find_head(&anchor).unwrap(), c);

    // D forks off B; validator 0 re-votes to D with a higher epoch.
    engine.on_new_block(d, Some(b), 0, 0).unwrap();
    votes.process_attestation(0, d, 2);
    let deltas = votes
        .compute_deltas(&engine, &vec![32], &vec![32])
        .unwrap();
    assert_eq!(deltas, vec![0, 0, 0, -32, 32]);
    engine.apply_score_changes(deltas, 0).unwrap();
    votes.commit_votes();
    assert_eq!(engine.find_head(&anchor).unwrap(), d);
}

/// S4: FFG filtering. A block declaring a higher justified epoch is not
/// viable until the engine's own epoch advances.
#[test]
fn ffg_filtering() {
    let anchor = root(1);
    let mut engine = ProtoArray::new(0, anchor, 0);
    let a = root(10);
    let b = root(20);
    engine.on_new_block(a, Some(anchor), 0, 0).unwrap();
    // B declares (justified = 1, finalized = 0) while the engine is at (0, 0).
    engine.on_new_block(b, Some(a), 1, 0).unwrap();

    let mut votes = VoteTracker::new();
    votes.process_attestation(0, b, 1);
    let deltas = votes.compute_deltas(&engine, &vec![0], &vec![32]).unwrap();
    engine.apply_score_changes(deltas, 0).unwrap();
    votes.commit_votes();
    // B carries all the weight but is not viable: the head stays at A.
    assert_eq!(engine.find_head(&anchor).unwrap(), a);

    // Advance the justified epoch: B becomes viable (and the start nodes
    // with the old pair are filtered out).
    engine.apply_score_changes(vec![0, 0, 0], 1).unwrap();
    assert_eq!(engine.find_head(&b).unwrap(), b);
    assert!(matches!(
        engine.find_head(&anchor),
        Err(Error::InvalidFindHeadStartRoot)
    ));
}

/// S5: pruning a 1,000-node chain at node 500 keeps exactly the upper half,
/// shifts every index, and preserves the best-descendant pointers.
#[test]
fn prune_long_chain() {
    let anchor = root(1);
    let mut engine = ProtoArray::new(100, anchor, 0);
    let mut parent = anchor;
    for i in 1..1000u64 {
        let r = root(i + 1);
        engine.on_new_block(r, Some(parent), 0, 0).unwrap();
        parent = r;
    }
    let zero_deltas: Vec<i64> = vec![0; 1000];
    engine.apply_score_changes(zero_deltas, 0).unwrap();
    let head_before = engine.find_head(&anchor).unwrap();
    assert_eq!(head_before, root(1000));

    let node_500 = root(501);
    engine.maybe_prune(1, node_500).unwrap();
    assert_eq!(engine.nodes.len(), 500);
    assert!(engine.contains_block(&node_500));
    assert!(!engine.contains_block(&root(500)));
    assert!(engine.contains_block(&root(1000)));
    // The finalized node is the new index 0 and the anchor line starts there.
    assert_eq!(engine.nodes[0].root, node_500);
    assert_eq!(engine.nodes[0].parent, None);
    assert_eq!(engine.nodes[1].parent, Some(0));
    // The head pointer survives the shift: the best descendant of the new
    // anchor still names the old head block.
    let bd = engine.nodes[0].best_descendant.unwrap();
    assert_eq!(engine.nodes[bd].root, head_before);
}

/// S6: rewriting the finalized root at the same epoch is refused and the
/// array is unchanged.
#[test]
fn illegal_finalized_rewind() {
    let anchor = root(1);
    let mut engine = ProtoArray::new(0, anchor, 0);
    engine.on_new_block(root(10), Some(anchor), 0, 0).unwrap();
    let r = engine.maybe_prune(0, root(99));
    assert!(matches!(r, Err(Error::InvalidFinalizedRootChange)));
    assert_eq!(engine.nodes.len(), 2);
    assert_eq!(engine.finalized_root, anchor);

    let r = engine.maybe_prune(5, root(10)).map(|_| ());
    assert!(r.is_ok());
    let r = engine.maybe_prune(4, root(10));
    assert!(matches!(r, Err(Error::RevertedFinalizedEpoch)));
}

/// A zero-delta score pass at the same epoch does not change head
/// selection, and repeating it is idempotent.
#[test]
fn zero_delta_pass_is_noop_on_head() {
    let anchor = root(1);
    let mut engine = ProtoArray::new(0, anchor, 0);
    engine.on_new_block(root(10), Some(anchor), 0, 0).unwrap();
    engine.on_new_block(root(20), Some(root(10)), 0, 0).unwrap();
    engine.on_new_block(root(30), Some(root(10)), 0, 0).unwrap();
    let mut votes = VoteTracker::new();
    votes.process_attestation(0, root(20), 1);
    let deltas = votes.compute_deltas(&engine, &vec![0], &vec![7]).unwrap();
    engine.apply_score_changes(deltas, 0).unwrap();
    votes.commit_votes();
    let head = engine.find_head(&anchor).unwrap();
    engine.apply_score_changes(vec![0, 0, 0, 0], 0).unwrap();
    assert_eq!(engine.find_head(&anchor).unwrap(), head);
    engine.apply_score_changes(vec![0, 0, 0, 0], 0).unwrap();
    assert_eq!(engine.find_head(&anchor).unwrap(), head);
}

/// Inserting the same block set in two parent-respecting orders gives the
/// same head.
#[test]
fn insertion_order_permutation() {
    let anchor = root(1);
    let blocks_one = [
        (root(10), anchor),
        (root(20), anchor),
        (root(30), root(10)),
        (root(40), root(20)),
    ];
    let blocks_two = [
        (root(20), anchor),
        (root(10), anchor),
        (root(40), root(20)),
        (root(30), root(10)),
    ];
    let mut heads = Vec::new();
    for blocks in [blocks_one, blocks_two] {
        let mut engine = ProtoArray::new(0, anchor, 0);
        for (r, p) in blocks {
            engine.on_new_block(r, Some(p), 0, 0).unwrap();
        }
        let mut votes = VoteTracker::new();
        votes.process_attestation(0, root(30), 1);
        votes.process_attestation(1, root(40), 1);
        let deltas = votes
            .compute_deltas(&engine, &vec![0, 0], &vec![5, 9])
            .unwrap();
        engine.apply_score_changes(deltas, 0).unwrap();
        heads.push(engine.find_head(&anchor).unwrap());
    }
    assert_eq!(heads[0], heads[1]);
    assert_eq!(heads[0], root(40));
}

/// Weight conservation on a fork: the anchor carries the total of all
/// applied balances, each branch its own votes.
#[test]
fn weight_conservation_on_fork() {
    let anchor = root(1);
    let mut engine = ProtoArray::new(0, anchor, 0);
    engine.on_new_block(root(10), Some(anchor), 0, 0).unwrap();
    engine.on_new_block(root(20), Some(anchor), 0, 0).unwrap();
    let mut votes = VoteTracker::new();
    votes.process_attestation(0, root(10), 1);
    votes.process_attestation(1, root(10), 1);
    votes.process_attestation(2, root(20), 1);
    let deltas = votes
        .compute_deltas(&engine, &vec![0, 0, 0], &vec![3, 5, 11])
        .unwrap();
    engine.apply_score_changes(deltas, 0).unwrap();
    assert_eq!(engine.nodes[0].weight, 19);
    assert_eq!(engine.nodes[1].weight, 8);
    assert_eq!(engine.nodes[2].weight, 11);
}

#[test]
fn unknown_parent_is_refused() {
    let anchor = root(1);
    let mut engine = ProtoArray::new(0, anchor, 0);
    let r = engine.on_new_block(root(10), Some(root(77)), 0, 0);
    assert!(matches!(r, Err(Error::UnknownParent(_))));
    assert_eq!(engine.nodes.len(), 1);
}

#[test]
fn delta_length_mismatch_is_refused() {
    let anchor = root(1);
    let mut engine = ProtoArray::new(0, anchor, 0);
    let r = engine.apply_score_changes(vec![0, 0], 0);
    assert!(matches!(
        r,
        Err(Error::InvalidDeltaLen { deltas: 2, indices: 1 })
    ));
}

#[test]
fn delta_underflow_is_fatal() {
    let anchor = root(1);
    let mut engine = ProtoArray::new(0, anchor, 0);
    let r = engine.apply_score_changes(vec![-1], 0);
    assert!(matches!(r, Err(Error::DeltaOverflow(0))));
}

#[test]
fn unknown_justified_root_is_reported() {
    let anchor = root(1);
    let engine = ProtoArray::new(0, anchor, 0);
    let r = engine.find_head(&root(42));
    assert!(matches!(r, Err(Error::JustifiedNodeUnknown(_))));
}

#[test]
fn unknown_finalized_root_is_reported() {
    let anchor = root(1);
    let mut engine = ProtoArray::new(0, anchor, 0);
    let r = engine.maybe_prune(3, root(42));
    assert!(matches!(r, Err(Error::FinalizedNodeUnknown(_))));
}

/// Latest messages are monotone in the target epoch: an older vote never
/// replaces a newer one.
#[test]
fn vote_epoch_monotonicity() {
    let mut votes = VoteTracker::new();
    votes.process_attestation(3, root(10), 5);
    assert_eq!(votes.latest_message(3), Some((root(10), 5)));
    votes.process_attestation(3, root(20), 5);
    assert_eq!(votes.latest_message(3), Some((root(10), 5)));
    votes.process_attestation(3, root(20), 4);
    assert_eq!(votes.latest_message(3), Some((root(10), 5)));
    votes.process_attestation(3, root(20), 6);
    assert_eq!(votes.latest_message(3), Some((root(20), 6)));
    // Votes for the zero alias are ignored.
    votes.process_attestation(3, Root::zero(), 9);
    assert_eq!(votes.latest_message(3), Some((root(20), 6)));
    assert_eq!(votes.latest_message(7), None);
}
