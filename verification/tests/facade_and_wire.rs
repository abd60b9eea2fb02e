use proto_array::checkpoints::{Checkpoint, CheckpointWithBalances};
use proto_array::error::Error;
use proto_array::fork_choice::{BlockAttestation, ForkChoice};
use proto_array::root::Root;

fn root(n: u64) -> Root {
    Root { l0: 0, l1: 0, l2: 0, l3: n }
}

fn cwb(epoch: u64, r: Root, balances: Vec<u64>) -> CheckpointWithBalances {
    CheckpointWithBalances { epoch, root: r, balances }
}

fn build_core() -> ForkChoice {
    let genesis = root(1);
    let mut fc = ForkChoice::new(genesis, 0, vec![32, 32]);
    let attestations = vec![BlockAttestation {
        block_root: genesis,
        target_epoch: 1,
        attesting_indices: vec![0, 1],
    }];
    fc.process_block(
        4,
        root(10),
        genesis,
        cwb(0, Root::zero(), vec![32, 32]),
        Checkpoint { epoch: 0, root: Root::zero() },
        &attestations,
    )
    .unwrap();
    fc.process_block(
        5,
        root(20),
        root(10),
        cwb(0, Root::zero(), vec![32, 32]),
        Checkpoint { epoch: 0, root: Root::zero() },
        &vec![],
    )
    .unwrap();
    fc
}

#[test]
fn facade_tracks_blocks_and_votes() {
    let genesis = root(1);
    let mut fc = build_core();
    assert!(fc.contains_block(&root(10)));
    assert!(fc.contains_block(&root(20)));
    assert!(!fc.contains_block(&root(30)));
    // The attestations in the first block's body named the genesis block.
    assert_eq!(fc.latest_message(0), Some((genesis, 1)));
    assert_eq!(fc.latest_message(1), Some((genesis, 1)));
    assert_eq!(fc.latest_message(2), None);
    let head = fc.find_head(64).unwrap();
    assert_eq!(head, root(20));
}

#[test]
fn facade_ignores_zero_and_known_blocks() {
    let mut fc = build_core();
    // A block carrying the zero alias as its root is ignored.
    fc.process_block(
        6,
        Root::zero(),
        root(10),
        cwb(0, Root::zero(), vec![32, 32]),
        Checkpoint { epoch: 0, root: Root::zero() },
        &vec![],
    )
    .unwrap();
    // Re-processing a known block is a no-op.
    fc.process_block(
        6,
        root(20),
        root(10),
        cwb(0, Root::zero(), vec![32, 32]),
        Checkpoint { epoch: 0, root: Root::zero() },
        &vec![],
    )
    .unwrap();
    assert_eq!(fc.backend.nodes.len(), 3);
    // A block with an unknown parent is refused.
    let r = fc.process_block(
        6,
        root(30),
        root(77),
        cwb(0, Root::zero(), vec![32, 32]),
        Checkpoint { epoch: 0, root: Root::zero() },
        &vec![],
    );
    assert!(matches!(r, Err(Error::UnknownParent(_))));
}

/// The zero root aliases the anchor: a lookup through the alias boundary
/// resolves to the anchor root.
#[test]
fn anchor_alias() {
    let genesis = root(1);
    let fc = build_core();
    assert_eq!(fc.remove_alias(Root::zero()), genesis);
    assert_eq!(fc.remove_alias(genesis), genesis);
    assert_eq!(fc.remove_alias(root(10)), root(10));
    assert_eq!(
        fc.backend.find_head(&fc.remove_alias(Root::zero())).unwrap(),
        fc.backend.find_head(&fc.remove_alias(genesis)).unwrap(),
    );
}

#[test]
fn facade_prune_keeps_finalized_pair() {
    let mut fc = build_core();
    fc.prune().unwrap();
    assert_eq!(fc.backend.finalized_epoch, 0);
    assert_eq!(fc.backend.finalized_root, root(1));
}

/// The wire form round-trips: deserializing the serialized core rebuilds
/// it structurally.
#[test]
fn wire_roundtrip() {
    let mut fc = build_core();
    let bytes = fc.to_bytes();
    let restored = ForkChoice::from_bytes(&bytes).unwrap();
    assert_eq!(restored.genesis_block_root, fc.genesis_block_root);
    assert_eq!(restored.backend.nodes.len(), fc.backend.nodes.len());
    assert_eq!(restored.backend.justified_epoch, fc.backend.justified_epoch);
    assert_eq!(restored.latest_message(0), fc.latest_message(0));
    assert_eq!(restored.to_bytes(), bytes);
    let mut restored = restored;
    assert_eq!(restored.find_head(64).unwrap(), fc.find_head(64).unwrap());
}

/// Serialization is a pure function of the state: the same state always
/// writes the same bytes, however it was reached.
#[test]
fn wire_form_is_deterministic() {
    let fc_one = build_core();
    let fc_two = build_core();
    assert_eq!(fc_one.to_bytes(), fc_two.to_bytes());
    assert_eq!(fc_one.to_bytes(), fc_one.to_bytes());
    // Round-tripping through the wire form changes nothing either.
    let restored = ForkChoice::from_bytes(&fc_one.to_bytes()).unwrap();
    assert_eq!(restored.to_bytes(), fc_one.to_bytes());
}

#[test]
fn container_roundtrip() {
    let fc = build_core();
    let container = fc.as_ssz_container();
    assert_eq!(container.genesis_block_root, fc.genesis_block_root);
    let restored = ForkChoice::from_ssz_container(container).unwrap();
    assert_eq!(restored.to_bytes(), fc.to_bytes());
}

#[test]
fn malformed_bytes_are_refused() {
    let r = ForkChoice::from_bytes(&vec![1, 2, 3]);
    assert!(matches!(r, Err(Error::BackendError(_))));
    let r = ForkChoice::from_bytes(&vec![0u8; 16]);
    assert!(matches!(r, Err(Error::BackendError(_))));
    let fc = build_core();
    let mut bytes = fc.to_bytes();
    bytes.pop();
    let r = ForkChoice::from_bytes(&bytes);
    assert!(matches!(r, Err(Error::BackendError(_))));
}

/// A justified checkpoint observed at a higher epoch replaces the best
/// pair and is promoted once its epoch is past.
#[test]
fn checkpoint_promotion() {
    let genesis = root(1);
    let mut fc = ForkChoice::new(genesis, 0, vec![32]);
    fc.process_block(
        4,
        root(10),
        genesis,
        cwb(0, Root::zero(), vec![32]),
        Checkpoint { epoch: 0, root: Root::zero() },
        &vec![],
    )
    .unwrap();
    // A state announcing justified epoch 1 at block 10.
    fc.process_block(
        40,
        root(20),
        root(10),
        cwb(1, root(10), vec![48]),
        Checkpoint { epoch: 0, root: Root::zero() },
        &vec![],
    )
    .unwrap();
    assert_eq!(fc.checkpoint_manager.best.justified.epoch, 1);
    // Before the epoch passes, the current pair is unchanged.
    assert_eq!(fc.checkpoint_manager.current.justified.epoch, 0);
    // Slot 64 is epoch 2 > 1: the promotion happens inside find_head.
    let _ = fc.find_head(64);
    assert_eq!(fc.checkpoint_manager.current.justified.epoch, 1);
    assert_eq!(fc.checkpoint_manager.current.justified.root, root(10));
    assert_eq!(fc.backend.justified_epoch, 1);
}

/// The facade's per-attestation entry point records latest messages even
/// for blocks the engine does not know yet, and touches nothing else.
#[test]
fn facade_process_attestation() {
    let mut fc = build_core();
    fc.process_attestation(&BlockAttestation {
        block_root: root(30),
        target_epoch: 2,
        attesting_indices: vec![0, 5],
    });
    // The vote is held even though block 30 is unknown to the engine.
    assert!(!fc.contains_block(&root(30)));
    assert_eq!(fc.latest_message(0), Some((root(30), 2)));
    assert_eq!(fc.latest_message(5), Some((root(30), 2)));
    assert_eq!(fc.backend.nodes.len(), 3);
    // An older vote does not replace it.
    fc.process_attestation(&BlockAttestation {
        block_root: root(20),
        target_epoch: 1,
        attesting_indices: vec![0],
    });
    assert_eq!(fc.latest_message(0), Some((root(30), 2)));
}

/// Deserialization validates the array invariant: parseable bytes whose
/// engine breaks the topological order are refused, so a restored core is
/// always usable.
#[test]
fn restored_engine_must_be_well_formed() {
    let fc = build_core();
    let mut bytes = fc.to_bytes();
    // Word 57 holds the second node's parent index (its tag is word 56).
    // Pointing it at a node above itself breaks the topological order
    // while still parsing cleanly.
    assert_eq!(bytes[57 * 8], 0);
    bytes[57 * 8] = 2;
    let r = ForkChoice::from_bytes(&bytes);
    assert!(matches!(r, Err(Error::BackendError(_))));
    // The untouched bytes still round-trip.
    assert!(ForkChoice::from_bytes(&fc.to_bytes()).is_ok());
}
