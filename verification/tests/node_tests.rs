use fraud_proof::db::TrieDB;
use fraud_proof::digest::{hash, Digest};
use fraud_proof::error::Error;
use fraud_proof::node::Node;

fn bytes_of(d: &Digest) -> Vec<u8> {
    let mut out = Vec::new();
    d.append_to(&mut out);
    out
}

fn leaf(value: &[u8]) -> Node {
    Node::LeafNode { value: value.to_vec(), parent: Digest::null() }
}

#[test]
fn leaf_hash_is_digest_of_tag_and_value_digest() {
    let mut preimage = vec![1u8];
    preimage.extend(bytes_of(&hash(&b"value".to_vec())));
    assert_eq!(leaf(b"value").hash(), hash(&preimage));
}

#[test]
fn branch_hash_is_digest_of_tag_slots_and_value() {
    let child = leaf(b"child").hash();
    let mut slots = [Digest::null(); 16];
    slots[3] = child;
    let with_value = Node::BranchNode { slots, value: Some(b"v".to_vec()), parent: None };
    let without_value = Node::BranchNode { slots, value: None, parent: None };

    let mut preimage = vec![0u8];
    for slot in slots.iter() {
        preimage.extend(bytes_of(slot));
    }
    let mut first = preimage.clone();
    first.push(1);
    first.extend(bytes_of(&hash(&b"v".to_vec())));
    let mut second = preimage.clone();
    second.push(0);
    second.extend(vec![0u8; 32]);

    assert_eq!(first.len(), 546);
    assert_eq!(with_value.hash(), hash(&first));
    assert_eq!(without_value.hash(), hash(&second));
    assert_ne!(with_value.hash(), without_value.hash());
}

#[test]
fn proof_node_hash_is_its_stored_hash() {
    let h = leaf(b"anything").hash();
    assert_eq!(Node::ProofNode { hash: h }.hash(), h);
    assert_eq!(Node::ProofNode { hash: Digest::null() }.hash(), Digest::null());
}

#[test]
fn hash_does_not_depend_on_parent() {
    let a = Node::LeafNode { value: b"v".to_vec(), parent: Digest::null() };
    let b = Node::LeafNode { value: b"v".to_vec(), parent: hash(&b"p".to_vec()) };
    assert_eq!(a.hash(), b.hash());
    let c = Node::empty();
    let d = Node::empty().with_parent(Some(hash(&b"p".to_vec())));
    assert_eq!(c.hash(), d.hash());
}

#[test]
fn identical_contents_hash_alike_and_different_contents_differ() {
    assert_eq!(leaf(b"same").hash(), leaf(b"same").hash());
    assert_ne!(leaf(b"same").hash(), leaf(b"samf").hash());
    // A leaf and a branch that hold the same value are different nodes.
    let branch = Node::empty().with_value(b"same".to_vec());
    assert_ne!(leaf(b"same").hash(), branch.hash());
    // Moving a child to another slot changes the hash.
    let child = leaf(b"c").hash();
    assert_ne!(
        Node::empty().with_slot(1, child).hash(),
        Node::empty().with_slot(2, child).hash()
    );
}

#[test]
fn node_builders_change_one_thing() {
    let child = leaf(b"c").hash();
    let branch = Node::empty().with_slot(5, child);
    assert!(branch.is_branch());
    assert!(!branch.is_proof());
    assert_eq!(branch.slot(5), child);
    assert_eq!(branch.slot(4), Digest::null());
    assert_eq!(branch.stored(), None);
    let valued = branch.with_value(b"v".to_vec());
    assert_eq!(valued.stored(), Some(b"v".to_vec()));
    assert_eq!(valued.slot(5), child);

    let turned = leaf(b"kept").as_branch();
    assert!(turned.is_branch());
    assert_eq!(turned.stored(), Some(b"kept".to_vec()));
    for digit in 0..16u8 {
        assert_eq!(turned.slot(digit), Digest::null());
    }
    assert_eq!(leaf(b"x").slot(0), Digest::null());
    assert!(Node::ProofNode { hash: child }.is_proof());
    assert_eq!(Node::ProofNode { hash: child }.stored(), None);
}

#[test]
fn store_resolves_what_was_put() {
    let mut db = TrieDB::new();
    let node = leaf(b"stored");
    let h = node.hash();
    assert!(!db.contains(h));
    assert_eq!(db.get(h).unwrap_err(), Error::StorageMiss);
    db.put(h, node.clone());
    assert!(db.contains(h));
    assert_eq!(db.get(h).unwrap().hash(), h);
    assert_eq!(db.get(h).unwrap().stored(), Some(b"stored".to_vec()));
    assert_eq!(db.len(), 1);
}

#[test]
fn store_put_is_idempotent() {
    let mut db = TrieDB::new();
    let first = Node::LeafNode { value: b"v".to_vec(), parent: hash(&b"one".to_vec()) };
    let second = Node::LeafNode { value: b"v".to_vec(), parent: hash(&b"two".to_vec()) };
    let h = first.hash();
    assert_eq!(second.hash(), h);
    db.put(h, first);
    db.put(h, second);
    assert_eq!(db.len(), 1);
    // The node that came first stays.
    match db.get(h).unwrap() {
        Node::LeafNode { parent, .. } => assert_eq!(parent, hash(&b"one".to_vec())),
        _ => panic!("a leaf was stored"),
    }
    let copy = db.clone();
    assert_eq!(copy.len(), 1);
    assert!(copy.contains(h));
}

#[test]
fn insert_stores_a_node_under_its_own_hash() {
    let mut db = TrieDB::new();
    let node = leaf(b"inserted");
    let h = db.insert(node.clone());
    assert_eq!(h, node.hash());
    assert_eq!(db.get(h).unwrap(), node);
    assert_eq!(db.insert(leaf(b"inserted")), h);
    assert_eq!(db.len(), 1);
    // A proof node holds nothing that could be stored.
    let proof = Node::ProofNode { hash: h };
    assert_eq!(db.insert(proof), h);
    assert_eq!(db.insert(Node::ProofNode { hash: Node::empty().hash() }), Node::empty().hash());
    assert!(!db.contains(Node::empty().hash()));
    assert_eq!(db.len(), 1);
}

#[test]
fn rollback_forgets_what_was_taken_in_last() {
    let mut db = TrieDB::new();
    let first = db.insert(leaf(b"first"));
    let second = db.insert(leaf(b"second"));
    let mark = db.len();
    let third = db.insert(leaf(b"third"));
    db.insert(leaf(b"first"));
    assert_eq!(db.len(), 3);
    db.rollback(mark);
    assert_eq!(db.len(), 2);
    assert!(db.contains(first));
    assert!(db.contains(second));
    assert!(!db.contains(third));
    assert_eq!(db.get(second).unwrap().stored(), Some(b"second".to_vec()));
    db.rollback(mark);
    assert_eq!(db.len(), 2);
}
