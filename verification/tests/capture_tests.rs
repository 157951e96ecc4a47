use fraud_proof::capture::TrieCaptureFraudProof;
use fraud_proof::db::TrieDB;
use fraud_proof::descent::{get_at, put_at};
use fraud_proof::error::Error;
use fraud_proof::nibbles::key_as_nibbles;
use fraud_proof::node::Node;
use fraud_proof::trie::Trie;

fn trie_with(pairs: &[(&[u8], &[u8])]) -> (Node, TrieDB) {
    let mut db = TrieDB::new();
    let mut root = Node::empty();
    for (key, value) in pairs {
        root = put_at(&mut db, &root, &key_as_nibbles(key.to_vec()), value.to_vec()).unwrap();
    }
    (root, db)
}

fn prover_over(pairs: &[(&[u8], &[u8])]) -> TrieCaptureFraudProof {
    let (root, db) = trie_with(pairs);
    TrieCaptureFraudProof::new(root, db)
}

#[test]
fn get_returns_the_written_value_for_each_of_distinct_keys() {
    let mut prover = prover_over(&[(b"k1", b"old")]);
    let writes: Vec<(Vec<u8>, Vec<u8>)> =
        (0..20u8).map(|i| (vec![b'k', i], vec![b'v', i, i])).collect();
    for (k, v) in writes.iter() {
        assert_eq!(prover.put(k.clone(), v.clone()), Ok(()));
    }
    for (k, v) in writes.iter().rev() {
        assert_eq!(prover.get(k.clone()), Ok(v.clone()));
    }
    for (k, v) in writes.iter() {
        assert_eq!(prover.get(k.clone()), Ok(v.clone()));
    }
    // None of these reads came from the trie.
    let (bundle, _) = prover.compute_pre_state_and_post_state().unwrap();
    assert!(bundle.pre_state.0.is_empty());
    assert!(bundle.pre_state.1.is_empty());
    assert_eq!(bundle.post_state.len(), 20);
}

#[test]
fn second_put_wins_and_read_set_records_nothing() {
    let mut prover = prover_over(&[(b"k", b"in trie")]);
    assert_eq!(prover.put(b"k".to_vec(), b"v1".to_vec()), Ok(()));
    assert_eq!(prover.put(b"k".to_vec(), b"v2".to_vec()), Ok(()));
    assert_eq!(prover.get(b"k".to_vec()), Ok(b"v2".to_vec()));
    let (bundle, _) = prover.compute_pre_state_and_post_state().unwrap();
    assert!(bundle.pre_state.0.is_empty());
    assert!(bundle.pre_state.1.is_empty());
}

#[test]
fn reading_twice_records_once_with_the_first_value() {
    let mut prover = prover_over(&[(b"k", b"x"), (b"other", b"y")]);
    assert_eq!(prover.get(b"k".to_vec()), Ok(b"x".to_vec()));
    assert_eq!(prover.get(b"other".to_vec()), Ok(b"y".to_vec()));
    assert_eq!(prover.get(b"k".to_vec()), Ok(b"x".to_vec()));
    let (bundle, _) = prover.compute_pre_state_and_post_state().unwrap();
    assert_eq!(
        bundle.pre_state.0,
        vec![(b"k".to_vec(), b"x".to_vec()), (b"other".to_vec(), b"y".to_vec())]
    );
}

#[test]
fn read_before_write_is_recorded_and_later_reads_see_the_write() {
    let mut prover = prover_over(&[(b"k", b"x")]);
    assert_eq!(prover.get(b"k".to_vec()), Ok(b"x".to_vec()));
    assert_eq!(prover.put(b"k".to_vec(), b"new".to_vec()), Ok(()));
    assert_eq!(prover.get(b"k".to_vec()), Ok(b"new".to_vec()));
    let (bundle, _) = prover.compute_pre_state_and_post_state().unwrap();
    assert_eq!(bundle.pre_state.0, vec![(b"k".to_vec(), b"x".to_vec())]);
    assert_eq!(bundle.post_state.len(), 1);
}

#[test]
fn absent_key_reads_as_empty_and_is_recorded() {
    let mut prover = prover_over(&[(b"k", b"x")]);
    assert_eq!(prover.get(b"nothing".to_vec()), Ok(Vec::new()));
    let (bundle, _) = prover.compute_pre_state_and_post_state().unwrap();
    assert_eq!(bundle.pre_state.0, vec![(b"nothing".to_vec(), Vec::new())]);
}

#[test]
fn put_does_not_touch_the_trie_until_the_bundle_is_derived() {
    let (root, db) = trie_with(&[(b"k", b"x")]);
    let before = root.hash();
    let mut prover = TrieCaptureFraudProof::new(root, db);
    assert_eq!(prover.put(b"k".to_vec(), b"y".to_vec()), Ok(()));
    assert_eq!(prover.put(b"j".to_vec(), b"z".to_vec()), Ok(()));
    assert_eq!(prover.root_hash(), before);
    assert_eq!(prover.get_as_normal(&b"k".to_vec()), Ok(b"x".to_vec()));
    assert_eq!(prover.get_as_normal(&b"j".to_vec()), Ok(Vec::new()));
}

#[test]
fn derived_root_is_the_root_after_the_writes_in_order() {
    let (root, db) = trie_with(&[(b"a", b"1"), (b"b", b"2")]);
    let (mut expected_root, mut expected_db) = trie_with(&[(b"a", b"1"), (b"b", b"2")]);
    let mut prover = TrieCaptureFraudProof::new(root, db);
    let writes: [(&[u8], &[u8]); 4] =
        [(b"a", b"3"), (b"c", b"4"), (b"a", b"5"), (b"", b"root value")];
    for (k, v) in writes.iter() {
        assert_eq!(prover.put(k.to_vec(), v.to_vec()), Ok(()));
        expected_root =
            put_at(&mut expected_db, &expected_root, &key_as_nibbles(k.to_vec()), v.to_vec())
                .unwrap();
    }
    let (bundle, post_root) = prover.compute_pre_state_and_post_state().unwrap();
    assert_eq!(post_root, expected_root.hash());
    assert_eq!(bundle.post_state.len(), 4);
    assert_eq!(
        get_at(&expected_db, &expected_root, &key_as_nibbles(b"a".to_vec())),
        Ok(Some(b"5".to_vec()))
    );
}

#[test]
fn bundle_of_an_idle_session_is_empty() {
    let (root, db) = trie_with(&[(b"a", b"1")]);
    let before = root.hash();
    let prover = TrieCaptureFraudProof::new(root, db);
    let (bundle, post_root) = prover.compute_pre_state_and_post_state().unwrap();
    assert!(bundle.pre_state.0.is_empty());
    assert!(bundle.pre_state.1.is_empty());
    assert!(bundle.post_state.is_empty());
    assert_eq!(post_root, before);
}

#[test]
fn path_hashes_name_the_nodes_below_the_root() {
    let (root, db) = trie_with(&[(&[0x12], b"v")]);
    let replica = db.clone();
    let prover = TrieCaptureFraudProof::new(root.clone(), db);
    let hashes = prover.collect_proof_nodes_for_get(&vec![0x12]).unwrap();
    assert_eq!(hashes.len(), 2);
    assert_eq!(hashes[0], (vec![0x12], root.slot(1)));
    let branch = replica.get(root.slot(1)).unwrap();
    assert_eq!(hashes[1], (vec![0x12], branch.slot(2)));
    let nodes = prover.collect_proof_nodes_for_put(&vec![0x12]).unwrap();
    assert_eq!(nodes.len(), 2);
    assert_eq!(nodes[0].1.hash(), hashes[0].1);
    assert_eq!(nodes[1].1.hash(), hashes[1].1);
    assert_eq!(nodes[1].1.stored(), Some(b"v".to_vec()));
    // A key whose path leaves the trie at the root has no nodes below it.
    assert!(prover.collect_proof_nodes_for_get(&vec![0x77]).unwrap().is_empty());
    assert!(prover.collect_proof_nodes_for_put(&vec![0x77]).unwrap().is_empty());
    // A key that shares the first digit: the branch below the root only.
    assert_eq!(prover.collect_proof_nodes_for_put(&vec![0x13]).unwrap().len(), 1);
}

#[test]
fn stray_trie_root_of_a_put_on_the_full_trie() {
    let (root, db) = trie_with(&[(&[0x12], b"v")]);
    let prover = TrieCaptureFraudProof::new(root.clone(), db);
    let (boundary, stray) = prover.get_stray_trie_root_of_put(&vec![0x13]).unwrap();
    assert_eq!(boundary, vec![1]);
    assert_eq!(stray.hash(), root.slot(1));
    let (boundary, stray) = prover.get_stray_trie_root_of_put(&vec![0x99]).unwrap();
    assert_eq!(boundary, Vec::<u8>::new());
    assert_eq!(stray.hash(), root.hash());
}

#[test]
fn storage_miss_is_reported_and_records_nothing() {
    let (root, _) = trie_with(&[(b"k", b"x")]);
    // The store lost its nodes: the root names a child that cannot be resolved.
    let mut prover = TrieCaptureFraudProof::new(root, TrieDB::new());
    assert_eq!(prover.get(b"k".to_vec()), Err(Error::StorageMiss));
    assert_eq!(prover.get_as_normal(&b"k".to_vec()), Err(Error::StorageMiss));
    // The collectors do not stop silently where the store misses a node.
    assert_eq!(prover.collect_proof_nodes_for_get(&b"k".to_vec()), Err(Error::StorageMiss));
    assert_eq!(
        prover.collect_proof_nodes_for_put(&b"k".to_vec()).unwrap_err(),
        Error::StorageMiss
    );
    assert_eq!(
        prover.get_stray_trie_root_of_put(&b"k".to_vec()).unwrap_err(),
        Error::StorageMiss
    );
    let (bundle, _) = prover.compute_pre_state_and_post_state().unwrap();
    assert!(bundle.pre_state.0.is_empty());
}

#[test]
fn write_that_misses_the_store_fails_the_derivation() {
    let (root, _) = trie_with(&[(b"k", b"x")]);
    let mut prover = TrieCaptureFraudProof::new(root, TrieDB::new());
    assert_eq!(prover.put(b"k".to_vec(), b"y".to_vec()), Ok(()));
    // The write list answers the get; the miss shows when the write is applied.
    assert_eq!(prover.get(b"k".to_vec()), Ok(b"y".to_vec()));
    assert_eq!(
        prover.compute_pre_state_and_post_state().unwrap_err(),
        Error::StorageMiss
    );
}
