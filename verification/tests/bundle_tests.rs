use fraud_proof::bundle::{holds_digest, PreStateAndPostState};
use fraud_proof::capture::TrieCaptureFraudProof;
use fraud_proof::db::TrieDB;
use fraud_proof::descent::put_at;
use fraud_proof::digest::{hash, Digest};
use fraud_proof::error::Error;
use fraud_proof::nibbles::key_as_nibbles;
use fraud_proof::node::Node;
use fraud_proof::replay::TrieVerifyFraudProof;
use fraud_proof::trie::Trie;

fn trie_with(pairs: &[(&[u8], &[u8])]) -> (Node, TrieDB) {
    let mut db = TrieDB::new();
    let mut root = Node::empty();
    for (key, value) in pairs {
        root = put_at(&mut db, &root, &key_as_nibbles(key.to_vec()), value.to_vec()).unwrap();
    }
    (root, db)
}

// Two of the keys end in the same byte and hold the same value: the nodes
// below their first byte are the same nodes, held once in the store.
const CONTENTS: [(&[u8], &[u8]); 5] = [
    (&[0x12, 0x34], b"same"),
    (&[0x56, 0x34], b"same"),
    (b"alpha", b"1"),
    (b"alps", b"2"),
    (b"al", b"4"),
];
const READS: [&[u8]; 3] = [b"alpha", b"alps", b"missing"];
const WRITES: [(&[u8], &[u8]); 5] = [
    (&[0x12, 0x34], b"a"),
    (&[0x56, 0x34], b"b"),
    (b"alpha", b"5"),
    (b"alto", b"6"),
    (b"alpha", b"7"),
];

/// The bundle of the reads and writes above, with nothing taken out.
fn whole_bundle() -> (PreStateAndPostState, Digest) {
    let (mut root, mut db) = trie_with(&CONTENTS);
    let mut pps = PreStateAndPostState::new();
    let before = TrieCaptureFraudProof::new(root.clone(), db.clone());
    for key in READS.iter() {
        let value = before.get_as_normal(&key.to_vec()).unwrap();
        pps.pre_state.0.push((key.to_vec(), value));
        pps.pre_state.1.extend(before.collect_proof_nodes_for_get(&key.to_vec()).unwrap());
    }
    for (key, value) in WRITES.iter() {
        // The path nodes of the key in the trie as the writes before left it.
        let now = TrieCaptureFraudProof::new(root.clone(), db.clone());
        pps.post_state.push(now.collect_proof_nodes_for_put(&key.to_vec()).unwrap());
        root = put_at(&mut db, &root, &key_as_nibbles(key.to_vec()), value.to_vec()).unwrap();
    }
    (pps, root.hash())
}

fn replay(bundle: PreStateAndPostState, held: TrieDB) -> Result<Digest, Error> {
    let (root, replica) = trie_with(&CONTENTS);
    let store = bundle.gather_pre_state(&replica, held)?;
    let mut verifier = TrieVerifyFraudProof::new(root, store, bundle)?;
    for key in READS.iter() {
        verifier.get(key.to_vec())?;
    }
    for (key, value) in WRITES.iter() {
        verifier.put(key.to_vec(), value.to_vec())?;
    }
    verifier.get_root_hash()
}

fn node_count(bundle: &PreStateAndPostState) -> usize {
    bundle.post_state.iter().map(|entry| entry.len()).sum()
}

#[test]
fn new_bundle_is_empty() {
    let pps = PreStateAndPostState::new();
    assert!(pps.pre_state.0.is_empty());
    assert!(pps.pre_state.1.is_empty());
    assert!(pps.post_state.is_empty());
}

#[test]
fn minimized_pre_state_names_each_hash_once() {
    let (mut pps, _) = whole_bundle();
    let before = pps.pre_state.1.clone();
    let reads = pps.pre_state.0.clone();
    pps.minimize_pre_state(&Vec::new());
    let after = &pps.pre_state.1;
    assert!(after.len() < before.len());
    // What stays is the first pair of each hash, in the order of the list.
    let mut expected: Vec<(Vec<u8>, Digest)> = Vec::new();
    for pair in before.iter() {
        if !expected.iter().any(|kept| kept.1 == pair.1) {
            expected.push(pair.clone());
        }
    }
    assert_eq!(after, &expected);
    assert_eq!(pps.pre_state.0, reads);
}

#[test]
fn minimized_pre_state_leaves_out_what_is_trusted() {
    let (mut pps, _) = whole_bundle();
    let trusted: Vec<Digest> = vec![pps.pre_state.1[0].1, hash(&b"unrelated".to_vec())];
    pps.minimize_pre_state(&trusted);
    assert!(pps.pre_state.1.iter().all(|pair| pair.1 != trusted[0]));
    assert!(!pps.pre_state.1.is_empty());
}

#[test]
fn minimized_post_state_keeps_the_number_of_entries() {
    let (mut pps, _) = whole_bundle();
    let before = node_count(&pps);
    let hashes = pps.pre_state.1.clone();
    pps.minimize_post_state(&Vec::new());
    assert_eq!(pps.post_state.len(), WRITES.len());
    assert!(node_count(&pps) < before);
    assert_eq!(pps.pre_state.1, hashes);
    // No hash is left twice in the whole post-state.
    let mut seen: Vec<Digest> = Vec::new();
    for entry in pps.post_state.iter() {
        for (_, node) in entry.iter() {
            assert!(!holds_digest(&seen, node.hash()));
            seen.push(node.hash());
        }
    }
}

#[test]
fn minimizer_drops_proof_nodes() {
    let mut pps = PreStateAndPostState::new();
    let leaf = Node::LeafNode { value: b"v".to_vec(), parent: Digest::null() };
    pps.post_state.push(vec![
        (b"k".to_vec(), Node::ProofNode { hash: hash(&b"p".to_vec()) }),
        (b"k".to_vec(), leaf.clone()),
        (b"j".to_vec(), leaf.clone()),
    ]);
    pps.post_state.push(vec![(b"i".to_vec(), leaf.clone())]);
    pps.minimize_post_state(&Vec::new());
    assert_eq!(pps.post_state, vec![vec![(b"k".to_vec(), leaf)], vec![]]);
}

#[test]
fn derived_bundle_is_the_minimized_whole_bundle() {
    let (root, db) = trie_with(&CONTENTS);
    let mut prover = TrieCaptureFraudProof::new(root, db);
    for key in READS.iter() {
        prover.get(key.to_vec()).unwrap();
    }
    for (key, value) in WRITES.iter() {
        prover.put(key.to_vec(), value.to_vec()).unwrap();
    }
    let (derived, derived_root) = prover.compute_pre_state_and_post_state().unwrap();
    let (mut whole, whole_root) = whole_bundle();
    whole.minimize_pre_state(&Vec::new());
    whole.minimize_post_state(&Vec::new());
    assert_eq!(derived, whole);
    assert_eq!(derived_root, whole_root);
}

#[test]
fn bundle_and_minimized_bundle_replay_to_the_same_root() {
    let (whole, post_root) = whole_bundle();
    let (mut small, _) = whole_bundle();
    small.minimize_pre_state(&Vec::new());
    small.minimize_post_state(&Vec::new());
    assert!(node_count(&small) < node_count(&whole));
    assert_eq!(replay(whole, TrieDB::new()), Ok(post_root));
    assert_eq!(replay(small, TrieDB::new()), Ok(post_root));
}

#[test]
fn bundle_minimized_against_what_the_receiver_holds_replays_alike() {
    // The receiver holds the nodes of the pre-state from an earlier round.
    let (whole, post_root) = whole_bundle();
    let (_, replica) = trie_with(&CONTENTS);
    let held = whole.gather_pre_state(&replica, TrieDB::new()).unwrap();
    let trusted: Vec<Digest> = whole.pre_state.1.iter().map(|pair| pair.1).collect();

    let (mut small, _) = whole_bundle();
    small.minimize_pre_state(&trusted);
    small.minimize_post_state(&trusted);
    assert!(small.pre_state.1.is_empty());
    assert!(node_count(&small) < node_count(&whole));
    assert_eq!(replay(small, held.clone()), Ok(post_root));
    assert_eq!(replay(whole, held), Ok(post_root));
}

#[test]
fn gather_takes_the_named_nodes_from_the_source() {
    let (whole, _) = whole_bundle();
    let (_, replica) = trie_with(&CONTENTS);
    let held = whole.gather_pre_state(&replica, TrieDB::new()).unwrap();
    for (_, h) in whole.pre_state.1.iter() {
        assert!(held.contains(*h));
        assert_eq!(held.get(*h).unwrap().hash(), *h);
    }
    assert!(held.len() < replica.len());
}

#[test]
fn gather_rejects_a_hash_that_the_source_cannot_resolve() {
    let (_, replica) = trie_with(&CONTENTS);
    let mut pps = PreStateAndPostState::new();
    pps.pre_state.1.push((b"k".to_vec(), hash(&b"nowhere".to_vec())));
    assert_eq!(
        pps.gather_pre_state(&replica, TrieDB::new()).unwrap_err(),
        Error::MalformedProof
    );
    let mut pps = PreStateAndPostState::new();
    pps.pre_state.1.push((b"k".to_vec(), Digest::null()));
    assert_eq!(
        pps.gather_pre_state(&replica, TrieDB::new()).unwrap_err(),
        Error::MalformedProof
    );
}
