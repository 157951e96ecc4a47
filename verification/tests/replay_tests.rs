use fraud_proof::bundle::PreStateAndPostState;
use fraud_proof::capture::TrieCaptureFraudProof;
use fraud_proof::db::TrieDB;
use fraud_proof::descent::put_at;
use fraud_proof::digest::Digest;
use fraud_proof::error::Error;
use fraud_proof::nibbles::key_as_nibbles;
use fraud_proof::node::Node;
use fraud_proof::replay::{load_entry, replay_write, TrieVerifyFraudProof};
use fraud_proof::trie::Trie;

fn trie_with(pairs: &[(&[u8], &[u8])]) -> (Node, TrieDB) {
    let mut db = TrieDB::new();
    let mut root = Node::empty();
    for (key, value) in pairs {
        root = put_at(&mut db, &root, &key_as_nibbles(key.to_vec()), value.to_vec()).unwrap();
    }
    (root, db)
}

/// The trie that holds "c" under the one-byte key 0x12, the bundle of a
/// session that reads the keys of `reads` and then writes `writes`, and the
/// root hash after those writes.
fn bundle_of(
    reads: &[&[u8]],
    writes: &[(&[u8], &[u8])],
) -> (Node, TrieDB, PreStateAndPostState, Digest) {
    let (root, db) = trie_with(&[(&[0x12], b"c")]);
    let replica = db.clone();
    let mut prover = TrieCaptureFraudProof::new(root.clone(), db);
    for key in reads {
        prover.get(key.to_vec()).unwrap();
    }
    for (key, value) in writes {
        prover.put(key.to_vec(), value.to_vec()).unwrap();
    }
    let (bundle, post_root) = prover.compute_pre_state_and_post_state().unwrap();
    (root, replica, bundle, post_root)
}

fn session(root: &Node, replica: &TrieDB, bundle: PreStateAndPostState) -> TrieVerifyFraudProof {
    let held = bundle.gather_pre_state(replica, TrieDB::new()).unwrap();
    TrieVerifyFraudProof::new(root.clone(), held, bundle).unwrap()
}

#[test]
fn valid_entry_is_accepted() {
    let (root, replica, bundle, post_root) = bundle_of(&[], &[(&[0x12], b"new")]);
    assert_eq!(bundle.post_state.len(), 1);
    assert_eq!(bundle.post_state[0].len(), 2);
    let mut v = session(&root, &replica, bundle);
    assert_eq!(v.put(vec![0x12], b"new".to_vec()), Ok(()));
    assert_eq!(v.get_root_hash(), Ok(post_root));
    assert_eq!(v.get(vec![0x12]), Ok(b"new".to_vec()));
}

#[test]
fn flipped_value_byte_is_a_hash_mismatch() {
    let (root, replica, mut bundle, _) = bundle_of(&[], &[(&[0x12], b"new")]);
    match &mut bundle.post_state[0][1].1 {
        Node::LeafNode { value, .. } => {
            assert_eq!(value, &b"c".to_vec());
            value[0] ^= 0x01;
        },
        _ => panic!("the second node of the entry is the leaf"),
    }
    let mut v = session(&root, &replica, bundle);
    assert_eq!(v.put(vec![0x12], b"new".to_vec()), Err(Error::HashMismatch));
    // The mismatch ends the session.
    assert_eq!(v.get_root_hash(), Err(Error::HashMismatch));
    assert_eq!(v.put(vec![0x12], b"new".to_vec()), Err(Error::HashMismatch));
    assert_eq!(v.get(vec![0x12]), Err(Error::HashMismatch));
}

#[test]
fn flipped_byte_that_gives_a_held_leaf_is_a_hash_mismatch() {
    // Two leaves whose values differ in one byte, under keys on different
    // branches. The read puts the second one into the skeleton.
    let mut db = TrieDB::new();
    let mut root = Node::empty();
    root = put_at(&mut db, &root, &key_as_nibbles(vec![0x12]), b"value-a".to_vec()).unwrap();
    root = put_at(&mut db, &root, &key_as_nibbles(vec![0x34]), b"value-b".to_vec()).unwrap();
    let derive = || {
        let mut prover = TrieCaptureFraudProof::new(root.clone(), db.clone());
        assert_eq!(prover.get(vec![0x34]), Ok(b"value-b".to_vec()));
        assert_eq!(prover.put(vec![0x12], b"new".to_vec()), Ok(()));
        prover.compute_pre_state_and_post_state().unwrap()
    };
    let (honest, post_root) = derive();
    assert_eq!(honest.post_state[0].len(), 2);
    let mut v = session(&root, &db, honest);
    assert_eq!(v.put(vec![0x12], b"new".to_vec()), Ok(()));
    assert_eq!(v.get_root_hash(), Ok(post_root));

    // The leaf of the entry with one byte flipped is the leaf that is held.
    let (mut bundle, _) = derive();
    match &mut bundle.post_state[0][1].1 {
        Node::LeafNode { value, .. } => {
            assert_eq!(value, &b"value-a".to_vec());
            value[6] ^= 0x03;
            assert_eq!(value, &b"value-b".to_vec());
        },
        _ => panic!("the second node of the entry is the leaf"),
    }
    let mut v = session(&root, &db, bundle);
    let held = bundle_leaf_hash(b"value-b");
    assert_eq!(v.get_as_normal(&vec![0x34]), Ok(b"value-b".to_vec()));
    assert!(!held.is_null());
    let before = v.get_root_hash();
    assert_ne!(before, Ok(post_root));
    assert_eq!(v.put(vec![0x12], b"new".to_vec()), Err(Error::HashMismatch));
    assert_eq!(v.get_root_hash(), Err(Error::HashMismatch));
}

fn bundle_leaf_hash(value: &[u8]) -> Digest {
    Node::LeafNode { value: value.to_vec(), parent: Digest::null() }.hash()
}

#[test]
fn changed_slot_is_a_hash_mismatch() {
    let (root, replica, mut bundle, _) = bundle_of(&[], &[(&[0x12], b"new")]);
    match &mut bundle.post_state[0][0].1 {
        Node::BranchNode { slots, .. } => {
            slots[7] = Node::empty().hash();
        },
        _ => panic!("the first node of the entry is the branch"),
    }
    let mut v = session(&root, &replica, bundle);
    assert_eq!(v.put(vec![0x12], b"new".to_vec()), Err(Error::HashMismatch));
}

#[test]
fn key_outside_the_boundary_is_malformed_even_for_a_node_that_is_held() {
    // The read of 0x12 puts the branch below the root into the skeleton, so
    // the stray trie of a write to 0x13 is rooted at that branch.
    let (root, replica, mut bundle, post_root) = bundle_of(&[&[0x12]], &[(&[0x13], b"d")]);
    assert_eq!(bundle.post_state[0].len(), 1);
    let check = PreStateAndPostState {
        pre_state: (bundle.pre_state.0.clone(), bundle.pre_state.1.clone()),
        post_state: vec![vec![(vec![0x13], bundle.post_state[0][0].1.clone())]],
    };
    let mut good = session(&root, &replica, check);
    assert_eq!(good.get_stray_trie_root_of_put(&vec![0x13]).unwrap().0, vec![1]);
    assert_eq!(good.put(vec![0x13], b"d".to_vec()), Ok(()));
    assert_eq!(good.get_root_hash(), Ok(post_root));

    // The same node under a key that leaves the boundary: the hashes would
    // hold, the entry is malformed all the same.
    bundle.post_state[0][0].0 = vec![0x25];
    let mut bad = session(&root, &replica, bundle);
    assert_eq!(bad.put(vec![0x13], b"d".to_vec()), Err(Error::MalformedProof));
    assert_eq!(bad.get_root_hash(), Err(Error::MalformedProof));
}

#[test]
fn extra_node_outside_the_boundary_is_malformed() {
    let (root, replica, mut bundle, _) = bundle_of(&[&[0x12]], &[(&[0x13], b"d")]);
    bundle.post_state[0].push((vec![0x25], Node::ProofNode { hash: Digest::null() }));
    let mut v = session(&root, &replica, bundle);
    assert_eq!(v.put(vec![0x13], b"d".to_vec()), Err(Error::MalformedProof));
}

#[test]
fn node_that_the_skeleton_does_not_expect_is_a_hash_mismatch() {
    let (root, replica, mut bundle, _) = bundle_of(&[&[0x12]], &[(&[0x12], b"d")]);
    // The path of the key is held down to its leaf: a node that is not held
    // is none of the nodes on it.
    let stranger = Node::LeafNode { value: b"stranger".to_vec(), parent: Digest::null() };
    bundle.post_state[0].push((vec![0x12], stranger));
    let mut v = session(&root, &replica, bundle);
    assert_eq!(v.put(vec![0x12], b"d".to_vec()), Err(Error::HashMismatch));
}

#[test]
fn boundary_check_comes_before_the_hash_check() {
    let (root, replica, mut bundle, _) = bundle_of(&[&[0x12]], &[(&[0x13], b"d")]);
    // A node that is a hash mismatch, and after it a key that leaves the
    // boundary: the entry is malformed.
    let stranger = Node::LeafNode { value: b"stranger".to_vec(), parent: Digest::null() };
    bundle.post_state[0].insert(0, (vec![0x13], stranger));
    bundle.post_state[0].push((vec![0x25], Node::ProofNode { hash: Digest::null() }));
    let mut v = session(&root, &replica, bundle);
    assert_eq!(v.put(vec![0x13], b"d".to_vec()), Err(Error::MalformedProof));
}

#[test]
fn flipped_byte_in_a_node_that_the_replay_made_itself_is_a_hash_mismatch() {
    let (root, replica, mut bundle, _) =
        bundle_of(&[], &[(&[0x12], b"one"), (&[0x12], b"two")]);
    // The second entry holds the leaf that the first write made.
    match &mut bundle.post_state[1].last_mut().unwrap().1 {
        Node::LeafNode { value, .. } => {
            assert_eq!(value, &b"one".to_vec());
            value[2] ^= 0x80;
        },
        _ => panic!("the last node of the entry is the leaf"),
    }
    let mut v = session(&root, &replica, bundle);
    assert_eq!(v.put(vec![0x12], b"one".to_vec()), Ok(()));
    assert_eq!(v.put(vec![0x12], b"two".to_vec()), Err(Error::HashMismatch));
}

#[test]
fn node_under_the_empty_key_is_a_hash_mismatch() {
    let (root, replica, mut bundle, _) = bundle_of(&[], &[(&[], b"at the root")]);
    assert!(bundle.post_state[0].is_empty());
    // The root is given to the session and never loaded.
    let other = Node::empty().with_value(b"other root".to_vec());
    bundle.post_state[0].push((Vec::new(), other));
    let mut v = session(&root, &replica, bundle);
    assert_eq!(v.put(Vec::new(), b"at the root".to_vec()), Err(Error::HashMismatch));
}

#[test]
fn put_without_an_entry_is_malformed() {
    let (root, replica, bundle, _) = bundle_of(&[], &[(&[0x12], b"new")]);
    let mut v = session(&root, &replica, bundle);
    assert_eq!(v.put(vec![0x12], b"new".to_vec()), Ok(()));
    assert_eq!(v.put(vec![0x12], b"again".to_vec()), Err(Error::MalformedProof));
}

#[test]
fn missing_entry_node_is_malformed() {
    let (root, replica, mut bundle, _) = bundle_of(&[], &[(&[0x12], b"new")]);
    // Without the branch below the root the write cannot be replayed.
    bundle.post_state[0].clear();
    let mut v = session(&root, &replica, bundle);
    assert_eq!(v.put(vec![0x12], b"new".to_vec()), Err(Error::MalformedProof));
}

#[test]
fn get_of_a_key_outside_the_pre_state_is_incomplete() {
    let (root, replica, bundle, _) = bundle_of(&[&[0x12]], &[(&[0x13], b"d")]);
    let mut v = session(&root, &replica, bundle);
    assert_eq!(v.get(vec![0x12]), Ok(b"c".to_vec()));
    assert_eq!(v.get(vec![0x13]), Err(Error::IncompletePreState));
    assert_eq!(v.get(vec![0x12]), Err(Error::IncompletePreState));
}

#[test]
fn get_of_a_key_that_the_replay_wrote_is_complete() {
    let (root, replica, bundle, _) = bundle_of(&[&[0x12]], &[(&[0x13], b"d")]);
    let mut v = session(&root, &replica, bundle);
    assert_eq!(v.put(vec![0x13], b"d".to_vec()), Ok(()));
    assert_eq!(v.get(vec![0x13]), Ok(b"d".to_vec()));
    assert_eq!(v.get(vec![0x12]), Ok(b"c".to_vec()));
}

#[test]
fn get_through_a_hash_that_was_not_received_is_malformed() {
    let (root, _, bundle, _) = bundle_of(&[&[0x12]], &[]);
    // The pre-state names the key, the store holds none of its nodes.
    let mut v = TrieVerifyFraudProof::new(root, TrieDB::new(), bundle).unwrap();
    assert_eq!(v.get_as_normal(&vec![0x12]), Err(Error::MalformedProof));
    assert_eq!(v.get(vec![0x12]), Err(Error::MalformedProof));
    assert_eq!(v.get_root_hash(), Err(Error::MalformedProof));
}

#[test]
fn root_that_is_no_parentless_branch_is_malformed() {
    let leaf = Node::LeafNode { value: b"v".to_vec(), parent: Digest::null() };
    assert_eq!(
        TrieVerifyFraudProof::new(leaf, TrieDB::new(), PreStateAndPostState::new()).err(),
        Some(Error::MalformedProof)
    );
    let proof = Node::ProofNode { hash: Node::empty().hash() };
    assert_eq!(
        TrieVerifyFraudProof::new(proof, TrieDB::new(), PreStateAndPostState::new()).err(),
        Some(Error::MalformedProof)
    );
    let child = Node::empty().with_parent(Some(Node::empty().hash()));
    assert_eq!(
        TrieVerifyFraudProof::new(child, TrieDB::new(), PreStateAndPostState::new()).err(),
        Some(Error::MalformedProof)
    );
    assert!(TrieVerifyFraudProof::new(Node::empty(), TrieDB::new(), PreStateAndPostState::new())
        .is_ok());
}

#[test]
fn entries_are_consumed_in_order() {
    let (root, replica, bundle, post_root) =
        bundle_of(&[], &[(&[0x12], b"one"), (&[0x34], b"two"), (&[0x12], b"three")]);
    assert_eq!(bundle.post_state.len(), 3);
    let mut v = session(&root, &replica, bundle);
    assert_eq!(v.put(vec![0x12], b"one".to_vec()), Ok(()));
    assert_eq!(v.put(vec![0x34], b"two".to_vec()), Ok(()));
    assert_eq!(v.put(vec![0x12], b"three".to_vec()), Ok(()));
    assert_eq!(v.get_root_hash(), Ok(post_root));
}

#[test]
fn replaying_another_log_does_not_reach_the_claimed_root() {
    let (root, replica, bundle, post_root) = bundle_of(&[], &[(&[0x12], b"one")]);
    let mut v = session(&root, &replica, bundle);
    assert_eq!(v.put(vec![0x12], b"other".to_vec()), Ok(()));
    assert_ne!(v.get_root_hash(), Ok(post_root));
}

#[test]
fn skeleton_helpers_follow_the_session() {
    let (root, replica, bundle, _) = bundle_of(&[&[0x12]], &[]);
    let mut v = session(&root, &replica, bundle);
    assert_eq!(v.get_as_normal(&vec![0x12]), Ok(b"c".to_vec()));
    assert_eq!(v.put_as_normal(&vec![0x12], &b"d".to_vec()), Ok(()));
    assert_eq!(v.get_as_normal(&vec![0x12]), Ok(b"d".to_vec()));
    let (boundary, stray) = v.get_stray_trie_root_of_put(&vec![0x12]).unwrap();
    assert_eq!(boundary, vec![1]);
    assert!(stray.is_branch());
    // A node that is held installs as nothing; one that has no place on the
    // path ends the session.
    let before = v.get_root_hash();
    assert_eq!(v.put_proof_node(&vec![0x12], stray), Ok(()));
    assert_eq!(v.get_root_hash(), before);
    let stranger = Node::LeafNode { value: b"stranger".to_vec(), parent: Digest::null() };
    assert_eq!(v.put_proof_node(&vec![0x12], stranger), Err(Error::HashMismatch));
    assert_eq!(v.get_as_normal(&vec![0x12]), Err(Error::HashMismatch));
    assert_eq!(v.put_as_normal(&vec![0x12], &b"e".to_vec()), Err(Error::HashMismatch));
    assert_eq!(v.get_stray_trie_root_of_put(&vec![0x12]).unwrap_err(), Error::HashMismatch);
}

#[test]
fn load_and_checked_write_on_a_bare_skeleton() {
    let (root, replica, bundle, post_root) = bundle_of(&[], &[(&[0x12], b"new")]);
    let _ = replica;
    let mut held = TrieDB::new();
    let top = load_entry(&mut held, root.clone(), &bundle.post_state[0], &Vec::new()).unwrap();
    assert_eq!(top.hash(), root.hash());
    assert_eq!(held.len(), 2);
    // Under a boundary that the keys do not extend nothing is loaded.
    let mut other = TrieDB::new();
    assert_eq!(
        load_entry(&mut other, root.clone(), &bundle.post_state[0], &vec![2]).unwrap_err(),
        Error::MalformedProof
    );
    assert_eq!(other.len(), 0);
    let mut fresh = TrieDB::new();
    let written =
        replay_write(&mut fresh, &root, &bundle.post_state[0], &vec![0x12], b"new".to_vec())
            .unwrap();
    assert_eq!(written.hash(), post_root);
}

#[test]
fn seeded_session_holds_what_the_pre_state_names() {
    let (root, replica, bundle, _) = bundle_of(&[&[0x12]], &[]);
    let hashes: Vec<Digest> = bundle.pre_state.1.iter().map(|pair| pair.1).collect();
    assert_eq!(hashes.len(), 2);
    let mut v = TrieVerifyFraudProof::seeded(root.clone(), &replica, TrieDB::new(), bundle)
        .unwrap();
    assert_eq!(v.get_root_hash(), Ok(root.hash()));
    assert_eq!(v.get(vec![0x12]), Ok(b"c".to_vec()));
}

#[test]
fn seeding_fails_on_a_hash_that_the_source_cannot_resolve() {
    let (root, _, bundle, _) = bundle_of(&[&[0x12]], &[]);
    assert_eq!(
        TrieVerifyFraudProof::seeded(root, &TrieDB::new(), TrieDB::new(), bundle).err(),
        Some(Error::MalformedProof)
    );
    let (_, replica, bundle, _) = bundle_of(&[&[0x12]], &[]);
    let leaf = Node::LeafNode { value: b"v".to_vec(), parent: Digest::null() };
    assert_eq!(
        TrieVerifyFraudProof::seeded(leaf, &replica, TrieDB::new(), bundle).err(),
        Some(Error::MalformedProof)
    );
}

#[test]
fn rejected_write_is_not_applied() {
    let (root, replica, mut bundle, _) = bundle_of(&[&[0x12]], &[(&[0x34], b"d"), (&[0x12], b"e")]);
    // The second entry is spoilt: the first write is applied, the second is not.
    bundle.post_state[1].push((vec![0x12], Node::ProofNode { hash: Digest::null() }));
    let mut v = session(&root, &replica, bundle);
    assert_eq!(v.put(vec![0x34], b"d".to_vec()), Ok(()));
    let after_first = v.get_root_hash().unwrap();
    assert_ne!(after_first, root.hash());
    assert_eq!(v.put(vec![0x12], b"e".to_vec()), Err(Error::HashMismatch));
    assert_eq!(v.get_root_hash(), Err(Error::HashMismatch));
    assert_eq!(v.get(vec![0x12]), Err(Error::HashMismatch));
}
