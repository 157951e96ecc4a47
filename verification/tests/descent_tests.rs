use fraud_proof::db::TrieDB;
use fraud_proof::descent::{descend, find_node, get_at, install_at, put_at, stray_trie_root};
use fraud_proof::digest::Digest;
use fraud_proof::error::Error;
use fraud_proof::nibbles::key_as_nibbles;
use fraud_proof::node::Node;

fn path(key: &[u8]) -> Vec<u8> {
    key_as_nibbles(key.to_vec())
}

fn write(db: &mut TrieDB, root: &Node, key: &[u8], value: &[u8]) -> Node {
    put_at(db, root, &path(key), value.to_vec()).unwrap()
}

fn read(db: &TrieDB, root: &Node, key: &[u8]) -> Option<Vec<u8>> {
    get_at(db, root, &path(key)).unwrap()
}

#[test]
fn get_on_empty_trie_finds_nothing() {
    let db = TrieDB::new();
    let root = Node::empty();
    assert_eq!(read(&db, &root, b"k"), None);
    assert_eq!(read(&db, &root, b""), None);
}

#[test]
fn put_then_get_returns_the_value() {
    let mut db = TrieDB::new();
    let root = write(&mut db, &Node::empty(), b"key", b"value");
    assert_eq!(read(&db, &root, b"key"), Some(b"value".to_vec()));
    assert_eq!(read(&db, &root, b"kez"), None);
    assert_eq!(read(&db, &root, b"ke"), None);
    assert_eq!(read(&db, &root, b"keys"), None);
    // One byte is two levels: a leaf and the branch above it, below the root.
    let (short_root, short_db) = {
        let mut db = TrieDB::new();
        let root = write(&mut db, &Node::empty(), &[0x12], b"v");
        (root, db)
    };
    assert_eq!(short_db.len(), 2);
    assert_eq!(descend(&short_db, &short_root, &vec![1, 2]).len(), 3);
}

#[test]
fn put_leaves_other_keys_alone() {
    let mut db = TrieDB::new();
    let mut root = Node::empty();
    let pairs: Vec<(Vec<u8>, Vec<u8>)> =
        (0..40u8).map(|i| (vec![i, i.wrapping_mul(7), 3], vec![i, 1])).collect();
    for (k, v) in pairs.iter() {
        root = write(&mut db, &root, k, v);
    }
    for (k, v) in pairs.iter() {
        assert_eq!(read(&db, &root, k), Some(v.clone()));
    }
}

#[test]
fn overwrite_replaces_the_value_and_keeps_the_old_root_readable() {
    let mut db = TrieDB::new();
    let first = write(&mut db, &Node::empty(), b"key", b"one");
    let second = write(&mut db, &first, b"key", b"two");
    assert_eq!(read(&db, &second, b"key"), Some(b"two".to_vec()));
    // Nodes are never changed in place: the old root still reads the old value.
    assert_eq!(read(&db, &first, b"key"), Some(b"one".to_vec()));
    assert_ne!(first.hash(), second.hash());
}

#[test]
fn same_contents_give_the_same_root_whatever_the_order() {
    let mut db1 = TrieDB::new();
    let mut r1 = Node::empty();
    r1 = write(&mut db1, &r1, b"a", b"1");
    r1 = write(&mut db1, &r1, b"b", b"2");
    let mut db2 = TrieDB::new();
    let mut r2 = Node::empty();
    r2 = write(&mut db2, &r2, b"b", b"2");
    r2 = write(&mut db2, &r2, b"a", b"1");
    assert_eq!(r1.hash(), r2.hash());
}

#[test]
fn key_that_is_a_prefix_of_another_key() {
    let mut db = TrieDB::new();
    let mut root = Node::empty();
    // The longer key first: the shorter one then lands on a branch.
    root = write(&mut db, &root, b"abc", b"long");
    root = write(&mut db, &root, b"ab", b"short");
    assert_eq!(read(&db, &root, b"abc"), Some(b"long".to_vec()));
    assert_eq!(read(&db, &root, b"ab"), Some(b"short".to_vec()));
    assert_eq!(read(&db, &root, b"a"), None);
    // The shorter key first: its leaf turns into a branch that keeps the value.
    let mut db = TrieDB::new();
    let mut root = Node::empty();
    root = write(&mut db, &root, b"ab", b"short");
    root = write(&mut db, &root, b"abc", b"long");
    assert_eq!(read(&db, &root, b"abc"), Some(b"long".to_vec()));
    assert_eq!(read(&db, &root, b"ab"), Some(b"short".to_vec()));
}

#[test]
fn empty_key_is_stored_at_the_root() {
    let mut db = TrieDB::new();
    let mut root = write(&mut db, &Node::empty(), b"", b"at root");
    assert!(root.is_branch());
    assert_eq!(root.stored(), Some(b"at root".to_vec()));
    assert_eq!(read(&db, &root, b""), Some(b"at root".to_vec()));
    root = write(&mut db, &root, b"k", b"v");
    assert_eq!(read(&db, &root, b""), Some(b"at root".to_vec()));
    assert_eq!(read(&db, &root, b"k"), Some(b"v".to_vec()));
}

#[test]
fn new_root_has_no_parent_and_children_name_their_parent() {
    let mut db = TrieDB::new();
    let root = write(&mut db, &Node::empty(), &[0x12], b"v");
    match &root {
        Node::BranchNode { parent, .. } => assert_eq!(*parent, None),
        _ => panic!("the root is a branch"),
    }
    let trail = descend(&db, &root, &vec![1, 2]);
    assert_eq!(trail.len(), 3);
    match &trail[1] {
        Node::BranchNode { parent, .. } => assert_eq!(*parent, Some(root.hash())),
        _ => panic!("a branch lies between the root and the leaf"),
    }
    match &trail[2] {
        Node::LeafNode { parent, value } => {
            assert_eq!(*parent, trail[1].hash());
            assert_eq!(value, &b"v".to_vec());
        },
        _ => panic!("the value lies in a leaf"),
    }
    assert_eq!(root.slot(1), trail[1].hash());
    assert_eq!(trail[1].slot(2), trail[2].hash());
}

#[test]
fn missing_node_is_a_storage_miss() {
    let mut full = TrieDB::new();
    let root = write(&mut full, &Node::empty(), b"key", b"value");
    // A store that holds nothing: the root names a child that cannot be resolved.
    let mut empty = TrieDB::new();
    assert_eq!(get_at(&empty, &root, &path(b"key")), Err(Error::StorageMiss));
    assert_eq!(
        put_at(&mut empty, &root, &path(b"key"), b"other".to_vec()).unwrap_err(),
        Error::StorageMiss
    );
    assert_eq!(empty.len(), 0);
    // A slot that is empty is no miss.
    assert_eq!(get_at(&empty, &root, &path(&[0x00])), Ok(None));
    let proof_root = Node::ProofNode { hash: root.hash() };
    assert_eq!(get_at(&full, &proof_root, &path(b"key")), Err(Error::StorageMiss));
    assert_eq!(
        put_at(&mut full, &proof_root, &path(b"key"), b"v".to_vec()).unwrap_err(),
        Error::StorageMiss
    );
}

#[test]
fn stray_trie_is_rooted_at_the_nearest_branch() {
    let mut db = TrieDB::new();
    let root = write(&mut db, &Node::empty(), &[0x12, 0x34], b"v");
    // The key exists: the stray trie is rooted at the parent of its leaf.
    let (boundary, stray) = stray_trie_root(&db, &root, &vec![1, 2, 3, 4]);
    assert_eq!(boundary, vec![1, 2, 3]);
    assert!(stray.is_branch());
    assert_eq!(stray.hash(), descend(&db, &root, &vec![1, 2, 3]).last().unwrap().hash());
    // The path ends early at an empty slot: the last branch on it.
    let (boundary, stray) = stray_trie_root(&db, &root, &vec![1, 2, 9, 9]);
    assert_eq!(boundary, vec![1, 2]);
    assert!(stray.is_branch());
    // Nothing below the root.
    let (boundary, stray) = stray_trie_root(&db, &root, &vec![7, 7]);
    assert_eq!(boundary, Vec::<u8>::new());
    assert_eq!(stray.hash(), root.hash());
    // A leaf in the way: the branch above the leaf.
    let (boundary, _) = stray_trie_root(&db, &root, &vec![1, 2, 3, 4, 5, 6]);
    assert_eq!(boundary, vec![1, 2, 3]);
    // The empty key: the root itself.
    let (boundary, stray) = stray_trie_root(&db, &root, &Vec::new());
    assert_eq!(boundary, Vec::<u8>::new());
    assert_eq!(stray.hash(), root.hash());
}

#[test]
fn find_node_reaches_only_what_is_held() {
    let mut db = TrieDB::new();
    let root = write(&mut db, &Node::empty(), &[0x12], b"v");
    assert_eq!(find_node(&db, &root, &Vec::new()).unwrap().hash(), root.hash());
    assert!(find_node(&db, &root, &vec![1]).unwrap().is_branch());
    assert_eq!(find_node(&db, &root, &vec![1, 2]).unwrap().stored(), Some(b"v".to_vec()));
    assert!(find_node(&db, &root, &vec![2]).is_none());
    assert!(find_node(&TrieDB::new(), &root, &vec![1]).is_none());
}

#[test]
fn install_fills_the_first_unresolved_place_on_the_path() {
    let mut full = TrieDB::new();
    let root = write(&mut full, &Node::empty(), &[0x12], b"v");
    let trail = descend(&full, &root, &vec![1, 2]);
    let mut held = TrieDB::new();

    // The right node at the first unresolved place: the root keeps its hash.
    let top = install_at(&mut held, root.clone(), &vec![1, 2], trail[1].clone()).unwrap();
    assert_eq!(top.hash(), root.hash());
    assert!(held.contains(trail[1].hash()));
    assert_eq!(descend(&held, &top, &vec![1, 2]).len(), 2);
    let top = install_at(&mut held, top, &vec![1, 2], trail[2].clone()).unwrap();
    assert_eq!(top.hash(), root.hash());
    assert_eq!(get_at(&held, &top, &vec![1, 2]), Ok(Some(b"v".to_vec())));

    // A node that the skeleton has on the path, as a node or as a bare hash,
    // changes nothing.
    let before = held.len();
    let top = install_at(&mut held, top, &vec![1, 2], trail[1].clone()).unwrap();
    let known = Node::ProofNode { hash: trail[2].hash() };
    let top = install_at(&mut held, top, &vec![1, 2], known).unwrap();
    assert_eq!(top.hash(), root.hash());
    assert_eq!(held.len(), before);
    // A bare hash that no slot on the path names is a hash mismatch.
    assert_eq!(
        install_at(&mut held, top.clone(), &vec![1, 2], Node::ProofNode { hash: Digest::null() })
            .unwrap_err(),
        Error::HashMismatch
    );

    // No unresolved place on the path: the node is none of the nodes on it.
    let stranger = Node::LeafNode { value: b"stranger".to_vec(), parent: Digest::null() };
    assert_eq!(
        install_at(&mut held, top, &vec![1, 2], stranger).unwrap_err(),
        Error::HashMismatch
    );
    assert_eq!(held.len(), before);
}

#[test]
fn install_skips_a_held_node_only_on_its_own_path() {
    let mut full = TrieDB::new();
    let root = write(&mut full, &Node::empty(), &[0x12], b"one");
    let root = write(&mut full, &root, &[0x34], b"two");
    let there = descend(&full, &root, &vec![3, 4]);
    let here = descend(&full, &root, &vec![1, 2]);
    // The skeleton holds the nodes of the other key, and the branch of this one.
    let mut held = TrieDB::new();
    held.insert(there[1].clone());
    held.insert(there[2].clone());
    held.insert(here[1].clone());
    let before = held.len();
    // On its own path a held node is skipped.
    let top = install_at(&mut held, root.clone(), &vec![3, 4], there[2].clone()).unwrap();
    assert_eq!(top.hash(), root.hash());
    // On another path the store holds it, but no slot names it.
    assert_eq!(
        install_at(&mut held, root.clone(), &vec![1, 2], there[2].clone()).unwrap_err(),
        Error::HashMismatch
    );
    assert_eq!(held.len(), before);
    // A proof node in the place of the node that is awaited leaves the place unresolved.
    let awaited = Node::ProofNode { hash: here[2].hash() };
    let top = install_at(&mut held, root.clone(), &vec![1, 2], awaited).unwrap();
    assert_eq!(descend(&held, &top, &vec![1, 2]).len(), 2);
    assert_eq!(held.len(), before);
}

#[test]
fn install_finds_no_place_in_an_empty_slot_or_at_the_root() {
    let mut db = TrieDB::new();
    let root = write(&mut db, &Node::empty(), &[0x12], b"v");
    let before = db.len();
    let stranger = Node::LeafNode { value: b"stranger".to_vec(), parent: Digest::null() };
    // The path leaves the trie below the root, at an empty slot.
    assert_eq!(
        install_at(&mut db, root.clone(), &vec![7, 7], stranger).unwrap_err(),
        Error::HashMismatch
    );
    // The empty path ends at the root, which is given to the skeleton.
    let other = Node::empty().with_value(b"other root".to_vec());
    assert_eq!(
        install_at(&mut db, root, &Vec::new(), other).unwrap_err(),
        Error::HashMismatch
    );
    assert_eq!(db.len(), before);
}

#[test]
fn install_of_a_wrong_node_is_a_hash_mismatch() {
    let mut full = TrieDB::new();
    let root = write(&mut full, &Node::empty(), &[0x12], b"v");
    let mut held = TrieDB::new();
    let wrong = Node::LeafNode { value: b"wrong".to_vec(), parent: Digest::null() };
    assert_eq!(
        install_at(&mut held, root.clone(), &vec![1, 2], wrong).unwrap_err(),
        Error::HashMismatch
    );
    assert_eq!(held.len(), 0);
}
