use fraud_proof::bundle::PreStateAndPostState;
use fraud_proof::capture::TrieCaptureFraudProof;
use fraud_proof::db::TrieDB;
use fraud_proof::descent::put_at;
use fraud_proof::error::Error;
use fraud_proof::nibbles::key_as_nibbles;
use fraud_proof::node::Node;
use fraud_proof::replay::TrieVerifyFraudProof;
use fraud_proof::trie::Trie;

fn trie_with(pairs: &[(&[u8], &[u8])]) -> (Node, TrieDB) {
    let mut db = TrieDB::new();
    let mut root = Node::empty();
    for (key, value) in pairs {
        let path = key_as_nibbles(key.to_vec());
        root = put_at(&mut db, &root, &path, value.to_vec()).unwrap();
    }
    (root, db)
}

fn verifier_for(
    root: &Node,
    replica: &TrieDB,
    bundle: PreStateAndPostState,
) -> TrieVerifyFraudProof {
    TrieVerifyFraudProof::seeded(root.clone(), replica, TrieDB::new(), bundle).unwrap()
}

#[test]
fn prover_and_verifier_reach_the_same_root() {
    let (root, db) = trie_with(&[(b"alpha", b"x"), (b"alps", b"z"), (b"other", b"w")]);
    let replica = db.clone();
    let mut prover = TrieCaptureFraudProof::new(root.clone(), db);

    assert_eq!(prover.get(b"alpha".to_vec()), Ok(b"x".to_vec()));
    assert_eq!(prover.put(b"beta".to_vec(), b"y1".to_vec()), Ok(()));
    assert_eq!(prover.put(b"beta".to_vec(), b"y2".to_vec()), Ok(()));
    let (bundle, post_root) = prover.compute_pre_state_and_post_state().unwrap();

    assert_eq!(bundle.pre_state.0, vec![(b"alpha".to_vec(), b"x".to_vec())]);
    assert!(!bundle.pre_state.1.is_empty());
    assert!(bundle.pre_state.1.iter().all(|(key, _)| key == b"alpha"));
    assert_eq!(bundle.post_state.len(), 2);
    // Each entry is taken against the trie as it is immediately before its
    // write: the first one ends above the place of the new key, the second
    // one ends at the leaf that the first write made.
    for entry in bundle.post_state.iter() {
        assert!(entry.iter().all(|(key, _)| key == b"beta"));
    }
    assert!(bundle.post_state[0].len() < 2 * b"beta".len());
    assert!(bundle.post_state[0].iter().all(|(_, node)| node.is_branch()));
    assert_eq!(bundle.post_state[1].len(), 2 * b"beta".len());
    assert_eq!(bundle.post_state[1].last().unwrap().1.stored(), Some(b"y1".to_vec()));

    let mut verifier = verifier_for(&root, &replica, bundle);
    assert_eq!(verifier.get_root_hash(), Ok(root.hash()));
    assert_eq!(verifier.get(b"alpha".to_vec()), Ok(b"x".to_vec()));
    assert_eq!(verifier.put(b"beta".to_vec(), b"y1".to_vec()), Ok(()));
    assert_eq!(verifier.put(b"beta".to_vec(), b"y2".to_vec()), Ok(()));
    assert_eq!(verifier.get(b"beta".to_vec()), Ok(b"y2".to_vec()));
    assert_eq!(verifier.get_root_hash(), Ok(post_root));
    assert_ne!(post_root, root.hash());
}

#[test]
fn unknown_key_fails_the_completeness_check() {
    let (root, db) = trie_with(&[(b"alpha", b"x"), (b"other", b"w")]);
    let replica = db.clone();
    let mut prover = TrieCaptureFraudProof::new(root.clone(), db);
    assert_eq!(prover.get(b"alpha".to_vec()), Ok(b"x".to_vec()));
    let (bundle, _) = prover.compute_pre_state_and_post_state().unwrap();
    let mut verifier = verifier_for(&root, &replica, bundle);
    assert_eq!(verifier.get(b"other".to_vec()), Err(Error::IncompletePreState));
    // Every later operation reports the same error.
    assert_eq!(verifier.get(b"alpha".to_vec()), Err(Error::IncompletePreState));
    assert_eq!(verifier.get_root_hash(), Err(Error::IncompletePreState));
}

/// A small deterministic generator, so that the log below is the same on
/// every run.
fn next(state: &mut u64) -> u64 {
    *state = state.wrapping_mul(6364136223846793005).wrapping_add(1442695040888963407);
    *state >> 33
}

fn some_key(state: &mut u64) -> Vec<u8> {
    // Short keys over a few byte values: prefixes of one another, shared
    // paths and repeated keys all occur.
    let len = (next(state) % 4) as usize;
    (0..len).map(|_| [0x00u8, 0x01, 0x10, 0x11, 0xab][(next(state) % 5) as usize]).collect()
}

#[test]
fn long_mixed_log_replays_with_the_same_answers_and_root() {
    let mut state = 7u64;
    let mut db = TrieDB::new();
    let mut root = Node::empty();
    for i in 0..40u8 {
        let key = some_key(&mut state);
        root = put_at(&mut db, &root, &key_as_nibbles(key), vec![i]).unwrap();
    }
    let replica = db.clone();
    let mut prover = TrieCaptureFraudProof::new(root.clone(), db);

    // true: a get of the key; false: a put of the key and the value.
    let mut log: Vec<(bool, Vec<u8>, Vec<u8>)> = Vec::new();
    for i in 0..120u8 {
        let key = some_key(&mut state);
        log.push((next(&mut state) % 2 == 0, key, vec![0xf0, i]));
    }
    let mut answers: Vec<Vec<u8>> = Vec::new();
    for (is_get, key, value) in log.iter() {
        if *is_get {
            answers.push(prover.get(key.clone()).unwrap());
        } else {
            prover.put(key.clone(), value.clone()).unwrap();
        }
    }
    let (bundle, post_root) = prover.compute_pre_state_and_post_state().unwrap();
    assert_eq!(bundle.post_state.len(), log.iter().filter(|op| !op.0).count());

    let mut verifier = verifier_for(&root, &replica, bundle);
    let mut replayed: Vec<Vec<u8>> = Vec::new();
    for (is_get, key, value) in log.iter() {
        if *is_get {
            replayed.push(verifier.get(key.clone()).unwrap());
        } else {
            verifier.put(key.clone(), value.clone()).unwrap();
        }
    }
    assert_eq!(replayed, answers);
    assert_eq!(verifier.get_root_hash(), Ok(post_root));
}

#[test]
fn replay_on_an_empty_trie() {
    let root = Node::empty();
    let mut prover = TrieCaptureFraudProof::new(root.clone(), TrieDB::new());
    assert_eq!(prover.get(b"k".to_vec()), Ok(Vec::new()));
    assert_eq!(prover.put(b"k".to_vec(), b"v".to_vec()), Ok(()));
    assert_eq!(prover.put(Vec::new(), b"at the root".to_vec()), Ok(()));
    assert_eq!(prover.get(b"k".to_vec()), Ok(b"v".to_vec()));
    let (bundle, post_root) = prover.compute_pre_state_and_post_state().unwrap();
    assert_eq!(bundle.pre_state.0, vec![(b"k".to_vec(), Vec::new())]);
    assert!(bundle.pre_state.1.is_empty());

    let mut verifier = verifier_for(&root, &TrieDB::new(), bundle);
    assert_eq!(verifier.get(b"k".to_vec()), Ok(Vec::new()));
    assert_eq!(verifier.put(b"k".to_vec(), b"v".to_vec()), Ok(()));
    assert_eq!(verifier.put(Vec::new(), b"at the root".to_vec()), Ok(()));
    assert_eq!(verifier.get(b"k".to_vec()), Ok(b"v".to_vec()));
    assert_eq!(verifier.get(Vec::new()), Ok(b"at the root".to_vec()));
    assert_eq!(verifier.get_root_hash(), Ok(post_root));
}

fn tiny_key(state: &mut u64) -> Vec<u8> {
    // A handful of keys, so that most writes meet a value that is there.
    let len = 1 + (next(state) % 2) as usize;
    (0..len).map(|_| [0x00u8, 0x01, 0x10][(next(state) % 3) as usize]).collect()
}

#[test]
fn every_flipped_value_byte_is_a_hash_mismatch() {
    let mut state = 11u64;
    let mut db = TrieDB::new();
    let mut root = Node::empty();
    for i in 0..8u8 {
        let key = tiny_key(&mut state);
        root = put_at(&mut db, &root, &key_as_nibbles(key), vec![i]).unwrap();
    }
    let mut log: Vec<(bool, Vec<u8>, Vec<u8>)> = Vec::new();
    for i in 0..30u8 {
        let key = tiny_key(&mut state);
        log.push((next(&mut state) % 3 == 0, key, vec![0xe0, i]));
    }
    let derive = || {
        let mut prover = TrieCaptureFraudProof::new(root.clone(), db.clone());
        for (is_get, key, value) in log.iter() {
            if *is_get {
                prover.get(key.clone()).unwrap();
            } else {
                prover.put(key.clone(), value.clone()).unwrap();
            }
        }
        prover.compute_pre_state_and_post_state().unwrap().0
    };
    let replay = |bundle: PreStateAndPostState| -> Result<(), Error> {
        let mut verifier = TrieVerifyFraudProof::seeded(root.clone(), &db, TrieDB::new(), bundle)?;
        for (is_get, key, value) in log.iter() {
            if *is_get {
                verifier.get(key.clone())?;
            } else {
                verifier.put(key.clone(), value.clone())?;
            }
        }
        Ok(())
    };
    assert_eq!(replay(derive()), Ok(()));

    let whole = derive();
    let mut flipped = 0;
    for (e, entry) in whole.post_state.iter().enumerate() {
        for (n, (_, node)) in entry.iter().enumerate() {
            if node.stored().map_or(true, |value| value.is_empty()) {
                continue;
            }
            let mut bundle = derive();
            match &mut bundle.post_state[e][n].1 {
                Node::LeafNode { value, .. } => value[0] ^= 0x01,
                Node::BranchNode { value, .. } => value.as_mut().unwrap()[0] ^= 0x01,
                Node::ProofNode { .. } => unreachable!(),
            }
            assert_eq!(replay(bundle), Err(Error::HashMismatch));
            flipped += 1;
        }
    }
    assert!(flipped >= 10);
}
