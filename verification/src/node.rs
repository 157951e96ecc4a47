//! The three shapes of a trie node, and the rule that hashes them.

use vstd::prelude::*;
use crate::digest::{hash, lemma_digest_bytes_injective, null_hash, sha256, Digest};
use crate::nibbles::copy_bytes;

verus! {

/// A trie node. Children are named by hash and resolved through the store.
#[derive(Debug, PartialEq, Eq)]
#[allow(inconsistent_fields)]
pub enum Node {
    BranchNode {
        /// One child per base-16 digit; the null hash where there is none.
        slots: [Digest; 16],
        value: Option<Vec<u8>>,
        /// The hash of the parent branch; `None` for the root of the trie.
        parent: Option<Digest>,
    },
    LeafNode { value: Vec<u8>, parent: Digest },
    /// Stands for a subtree that is known by its hash alone.
    ProofNode { hash: Digest },
}

/// What a node holds, as mathematical values.
#[allow(inconsistent_fields)]
pub enum NodeView {
    Branch { slots: Seq<Digest>, value: Option<Seq<u8>>, parent: Option<Digest> },
    Leaf { value: Seq<u8>, parent: Digest },
    Proof { hash: Digest },
}

/// The view of an optional byte string.
pub open spec fn option_view(value: Option<Vec<u8>>) -> Option<Seq<u8>> {
    match value {
        Some(v) => Some(v@),
        None => None,
    }
}

impl View for Node {
    type V = NodeView;

    open spec fn view(&self) -> NodeView {
        match *self {
            Node::BranchNode { slots, value, parent } => NodeView::Branch {
                slots: slots@,
                value: option_view(value),
                parent,
            },
            Node::LeafNode { value, parent } => NodeView::Leaf { value: value@, parent },
            Node::ProofNode { hash } => NodeView::Proof { hash },
        }
    }
}

/// The digests of a run of slots, one after the other.
pub open spec fn slots_bytes(slots: Seq<Digest>) -> Seq<u8>
    decreases slots.len(),
{
    if slots.len() == 0 {
        Seq::<u8>::empty()
    } else {
        slots_bytes(slots.drop_last()) + slots.last().bytes()
    }
}

/// How a branch's optional value enters its hash: a marker byte, then the
/// digest of the value, or the null hash where there is none.
pub open spec fn value_bytes(value: Option<Seq<u8>>) -> Seq<u8> {
    match value {
        Some(v) => seq![1u8] + sha256(v).bytes(),
        None => seq![0u8] + null_hash().bytes(),
    }
}

/// The sixteen empty slots of a branch without children.
pub open spec fn empty_slots() -> Seq<Digest> {
    Seq::new(16, |i: int| null_hash())
}

impl NodeView {
    /// The bytes that are hashed for a branch or a leaf: the shape tag, then the
    /// sixteen slots and the value part (branch) or the digest of the value
    /// (leaf). The parent reference is no part of it.
    pub open spec fn preimage(self) -> Seq<u8> {
        match self {
            NodeView::Branch { slots, value, parent } => seq![0u8] + slots_bytes(slots)
                + value_bytes(value),
            NodeView::Leaf { value, parent } => seq![1u8] + sha256(value).bytes(),
            NodeView::Proof { hash } => Seq::<u8>::empty(),
        }
    }

    /// The hash of a node: the digest of its preimage, or, for a proof node,
    /// the hash it stores.
    pub open spec fn hash(self) -> Digest {
        match self {
            NodeView::Proof { hash } => hash,
            _ => sha256(self.preimage()),
        }
    }

    /// Whether the shape is well formed: a branch has sixteen slots.
    pub open spec fn wf(self) -> bool {
        match self {
            NodeView::Branch { slots, value, parent } => slots.len() == 16,
            _ => true,
        }
    }

    /// The same node under another parent. A proof node has no parent.
    pub open spec fn with_parent(self, p: Option<Digest>) -> NodeView {
        match self {
            NodeView::Branch { slots, value, parent } => NodeView::Branch {
                slots,
                value,
                parent: p,
            },
            NodeView::Leaf { value, parent } => NodeView::Leaf {
                value,
                parent: match p {
                    Some(h) => h,
                    None => null_hash(),
                },
            },
            NodeView::Proof { hash } => self,
        }
    }

    /// A branch with slot `digit` set to `child`; any other shape unchanged.
    pub open spec fn with_slot(self, digit: int, child: Digest) -> NodeView {
        match self {
            NodeView::Branch { slots, value, parent } => NodeView::Branch {
                slots: slots.update(digit, child),
                value,
                parent,
            },
            _ => self,
        }
    }

    /// The node that holds `v` in place of this one: a branch keeps its slots,
    /// anything else becomes a leaf.
    pub open spec fn with_value(self, v: Seq<u8>) -> NodeView {
        match self {
            NodeView::Branch { slots, value, parent } => NodeView::Branch {
                slots,
                value: Some(v),
                parent,
            },
            NodeView::Leaf { value, parent } => NodeView::Leaf { value: v, parent },
            NodeView::Proof { hash } => NodeView::Leaf { value: v, parent: null_hash() },
        }
    }

    /// The branch that a node becomes when a longer key has to pass through
    /// it: a leaf turns into a branch without children that keeps its value.
    pub open spec fn as_branch(self) -> NodeView {
        match self {
            NodeView::Leaf { value, parent } => NodeView::Branch {
                slots: empty_slots(),
                value: Some(value),
                parent: Some(parent),
            },
            _ => self,
        }
    }

    /// Whether this node can be the root of a trie: a branch without a parent.
    pub open spec fn is_root(self) -> bool {
        match self {
            NodeView::Branch { slots, value, parent } => parent is None,
            _ => false,
        }
    }

    /// The value stored at this node, if it stores one.
    pub open spec fn stored(self) -> Option<Seq<u8>> {
        match self {
            NodeView::Branch { slots, value, parent } => value,
            NodeView::Leaf { value, parent } => Some(value),
            NodeView::Proof { hash } => None,
        }
    }

    /// The child hash of a branch under `digit`; the null hash for other shapes.
    pub open spec fn slot(self, digit: int) -> Digest {
        match self {
            NodeView::Branch { slots, value, parent } => slots[digit],
            _ => null_hash(),
        }
    }
}

/// A branch without children, value or parent: the root of the empty trie.
pub open spec fn empty_branch() -> NodeView {
    NodeView::Branch { slots: empty_slots(), value: None, parent: None }
}

/// The hash does not depend on the parent reference.
pub proof fn law_hash_ignores_parent(n: NodeView, p: Option<Digest>)
    ensures
        n.with_parent(p).hash() == n.hash(),
{
}

/// A run of slots takes 32 bytes per slot.
pub proof fn lemma_slots_bytes_len(slots: Seq<Digest>)
    ensures
        slots_bytes(slots).len() == 32 * slots.len(),
    decreases slots.len(),
{
    if slots.len() > 0 {
        lemma_slots_bytes_len(slots.drop_last());
    }
}

/// Two runs of the same number of slots with the same bytes are the same run.
pub proof fn lemma_slots_bytes_injective(a: Seq<Digest>, b: Seq<Digest>)
    requires
        a.len() == b.len(),
        slots_bytes(a) == slots_bytes(b),
    ensures
        a == b,
    decreases a.len(),
{
    if a.len() > 0 {
        let n = a.len() - 1;
        lemma_slots_bytes_len(a.drop_last());
        lemma_slots_bytes_len(b.drop_last());
        let x = slots_bytes(a);
        let y = slots_bytes(b);
        assert(x.subrange(0, 32 * n) =~= slots_bytes(a.drop_last()));
        assert(y.subrange(0, 32 * n) =~= slots_bytes(b.drop_last()));
        assert(x.subrange(32 * n, 32 * n + 32) =~= a.last().bytes());
        assert(y.subrange(32 * n, 32 * n + 32) =~= b.last().bytes());
        lemma_slots_bytes_injective(a.drop_last(), b.drop_last());
        lemma_digest_bytes_injective(a.last(), b.last());
        assert(a =~= a.drop_last().push(a.last()));
        assert(b =~= b.drop_last().push(b.last()));
    } else {
        assert(a =~= b);
    }
}

/// The bytes that are hashed for a node leave nothing of it open but its
/// parent reference: two branches or leaves with the same preimage have the
/// same shape and the same slots, both hold a value or neither does, and the
/// values they hold have the same digest.
pub proof fn law_preimage_is_unambiguous(a: NodeView, b: NodeView)
    requires
        a.wf(),
        b.wf(),
        !(a is Proof),
        !(b is Proof),
        a.preimage() == b.preimage(),
    ensures
        a is Branch <==> b is Branch,
        a is Branch ==> a->Branch_slots == b->Branch_slots,
        a.stored() is Some <==> b.stored() is Some,
        a.stored() is Some ==> sha256(a.stored()->Some_0) == sha256(b.stored()->Some_0),
{
    let x = a.preimage();
    let y = b.preimage();
    assert(x[0] == y[0]);
    match (a, b) {
        (
            NodeView::Branch { slots: sa, value: va, parent: pa },
            NodeView::Branch { slots: sb, value: vb, parent: pb },
        ) => {
            lemma_slots_bytes_len(sa);
            lemma_slots_bytes_len(sb);
            assert(x.subrange(1, 513) =~= slots_bytes(sa));
            assert(y.subrange(1, 513) =~= slots_bytes(sb));
            lemma_slots_bytes_injective(sa, sb);
            assert(x[513] == value_bytes(va)[0]);
            assert(y[513] == value_bytes(vb)[0]);
            if va is Some {
                assert(x.subrange(514, 546) =~= sha256(va->Some_0).bytes());
                assert(y.subrange(514, 546) =~= sha256(vb->Some_0).bytes());
                lemma_digest_bytes_injective(sha256(va->Some_0), sha256(vb->Some_0));
            }
        },
        (
            NodeView::Leaf { value: va, parent: pa },
            NodeView::Leaf { value: vb, parent: pb },
        ) => {
            assert(x.subrange(1, 33) =~= sha256(va).bytes());
            assert(y.subrange(1, 33) =~= sha256(vb).bytes());
            lemma_digest_bytes_injective(sha256(va), sha256(vb));
        },
        _ => {},
    }
}

impl Clone for Node {
    fn clone(&self) -> (r: Node)
        ensures
            r@ == self@,
    {
        match self {
            Node::BranchNode { slots, value, parent } => {
                let v = match value {
                    Some(bytes) => Some(copy_bytes(bytes)),
                    None => None,
                };
                Node::BranchNode { slots: *slots, value: v, parent: *parent }
            },
            Node::LeafNode { value, parent } => Node::LeafNode {
                value: copy_bytes(value),
                parent: *parent,
            },
            Node::ProofNode { hash } => Node::ProofNode { hash: *hash },
        }
    }
}

impl Node {
    /// The hash that content-addresses this node.
    pub fn hash(&self) -> (r: Digest)
        ensures
            r == self@.hash(),
    {
        match self {
            Node::BranchNode { slots, value, parent } => {
                let mut buf: Vec<u8> = Vec::new();
                buf.push(0u8);
                let mut i: usize = 0;
                assert(slots@.take(0) =~= Seq::<Digest>::empty());
                while i < 16
                    invariant
                        i <= 16,
                        slots@.len() == 16,
                        buf@ == seq![0u8] + slots_bytes(slots@.take(i as int)),
                    decreases 16 - i,
                {
                    slots[i].append_to(&mut buf);
                    proof {
                        let next = slots@.take(i + 1);
                        assert(next.drop_last() =~= slots@.take(i as int));
                        assert(next.last() == slots@[i as int]);
                        assert(buf@ =~= seq![0u8] + slots_bytes(next));
                    }
                    i += 1;
                }
                assert(slots@.take(16) =~= slots@);
                match value {
                    Some(v) => {
                        buf.push(1u8);
                        hash(v).append_to(&mut buf);
                    },
                    None => {
                        buf.push(0u8);
                        Digest::null().append_to(&mut buf);
                    },
                }
                assert(buf@ =~= self@.preimage());
                hash(&buf)
            },
            Node::LeafNode { value, parent } => {
                let mut buf: Vec<u8> = Vec::new();
                buf.push(1u8);
                hash(value).append_to(&mut buf);
                assert(buf@ =~= self@.preimage());
                hash(&buf)
            },
            Node::ProofNode { hash } => *hash,
        }
    }

    /// A branch without children, value or parent: the root of the empty trie.
    pub fn empty() -> (r: Node)
        ensures
            r@ == empty_branch(),
    {
        let slots: [Digest; 16] = [Digest::null(); 16];
        assert(slots@ =~= empty_slots());
        Node::BranchNode { slots, value: None, parent: None }
    }

    /// Whether this is a proof node.
    pub fn is_proof(&self) -> (r: bool)
        ensures
            r == (self@ is Proof),
    {
        match self {
            Node::ProofNode { hash } => true,
            _ => false,
        }
    }

    /// Whether this node can be the root of a trie: a branch without a parent.
    pub fn is_root(&self) -> (r: bool)
        ensures
            r == self@.is_root(),
    {
        match self {
            Node::BranchNode { slots, value, parent } => parent.is_none(),
            _ => false,
        }
    }

    /// Whether this is a branch.
    pub fn is_branch(&self) -> (r: bool)
        ensures
            r == (self@ is Branch),
    {
        match self {
            Node::BranchNode { slots, value, parent } => true,
            _ => false,
        }
    }

    /// The child hash of a branch under `digit`; the null hash for other shapes.
    pub fn slot(&self, digit: u8) -> (r: Digest)
        requires
            digit < 16,
        ensures
            r == self@.slot(digit as int),
    {
        match self {
            Node::BranchNode { slots, value, parent } => slots[digit as usize],
            _ => Digest::null(),
        }
    }

    /// The same node under another parent. A proof node has no parent.
    pub fn with_parent(self, p: Option<Digest>) -> (r: Node)
        ensures
            r@ == self@.with_parent(p),
    {
        match self {
            Node::BranchNode { slots, value, parent } => Node::BranchNode {
                slots,
                value,
                parent: p,
            },
            Node::LeafNode { value, parent } => Node::LeafNode {
                value,
                parent: match p {
                    Some(h) => h,
                    None => Digest::null(),
                },
            },
            Node::ProofNode { hash } => Node::ProofNode { hash },
        }
    }

    /// A branch with slot `digit` set to `child`; any other shape unchanged.
    pub fn with_slot(self, digit: u8, child: Digest) -> (r: Node)
        requires
            digit < 16,
        ensures
            r@ == self@.with_slot(digit as int, child),
    {
        match self {
            Node::BranchNode { slots, value, parent } => {
                let mut s = slots;
                s[digit as usize] = child;
                Node::BranchNode { slots: s, value, parent }
            },
            other => other,
        }
    }

    /// The node that holds `v` in place of this one.
    pub fn with_value(self, v: Vec<u8>) -> (r: Node)
        ensures
            r@ == self@.with_value(v@),
    {
        match self {
            Node::BranchNode { slots, value, parent } => Node::BranchNode {
                slots,
                value: Some(v),
                parent,
            },
            Node::LeafNode { value, parent } => Node::LeafNode { value: v, parent },
            Node::ProofNode { hash } => Node::LeafNode { value: v, parent: Digest::null() },
        }
    }

    /// The branch that this node becomes when a longer key passes through it.
    pub fn as_branch(self) -> (r: Node)
        ensures
            r@ == self@.as_branch(),
    {
        match self {
            Node::LeafNode { value, parent } => {
                let slots: [Digest; 16] = [Digest::null(); 16];
                assert(slots@ =~= empty_slots());
                Node::BranchNode { slots, value: Some(value), parent: Some(parent) }
            },
            other => other,
        }
    }

    /// A copy of the value stored at this node, if it stores one.
    pub fn stored(&self) -> (r: Option<Vec<u8>>)
        ensures
            option_view(r) == self@.stored(),
    {
        match self {
            Node::BranchNode { slots, value, parent } => match value {
                Some(v) => Some(copy_bytes(v)),
                None => None,
            },
            Node::LeafNode { value, parent } => Some(copy_bytes(value)),
            Node::ProofNode { hash } => None,
        }
    }
}

} // verus!
