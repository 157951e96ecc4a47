//! The backing store: a content-addressed map from hash to node.

use vstd::prelude::*;
use crate::digest::{null_hash, Digest};
use crate::error::Error;
use crate::node::{Node, NodeView};

verus! {

/// Whether a map from hash to node is content-addressed: every node sits under
/// its own hash, which is not the null hash, and is a well-formed branch or leaf.
pub open spec fn store_wf(store: Map<Digest, NodeView>) -> bool {
    forall|h: Digest| #[trigger]
        store.contains_key(h) ==> {
            &&& h != null_hash()
            &&& store[h].hash() == h
            &&& !(store[h] is Proof)
            &&& store[h].wf()
        }
}

/// The store after a node is offered under hash `h`: a hash that is already
/// held keeps its node, and nothing is held under the null hash.
pub open spec fn store_put(store: Map<Digest, NodeView>, h: Digest, n: NodeView) -> Map<
    Digest,
    NodeView,
> {
    if h == null_hash() || store.contains_key(h) {
        store
    } else {
        store.insert(h, n)
    }
}

/// An in-memory backing store.
#[derive(Debug)]
pub struct TrieDB {
    entries: Vec<(Digest, Node)>,
}

impl View for TrieDB {
    type V = Map<Digest, NodeView>;

    closed spec fn view(&self) -> Map<Digest, NodeView> {
        Map::new(|h: Digest| self.holds(h), |h: Digest| self.entries@[self.index_of(h)].1@)
    }
}

impl Clone for TrieDB {
    /// A store that holds the same nodes.
    fn clone(&self) -> (r: TrieDB)
        ensures
            self.wf() ==> r.wf() && r@ == self@,
    {
        let mut entries: Vec<(Digest, Node)> = Vec::new();
        let mut i: usize = 0;
        while i < self.entries.len()
            invariant
                i <= self.entries@.len(),
                entries@.len() == i,
                forall|j: int|
                    0 <= j < i ==> (#[trigger] entries@[j]).0 == self.entries@[j].0
                        && entries@[j].1@ == self.entries@[j].1@,
            decreases self.entries@.len() - i,
        {
            entries.push((self.entries[i].0, self.entries[i].1.clone()));
            i += 1;
        }
        let r = TrieDB { entries };
        proof {
            if self.wf() {
                lemma_same_entries(*self, r);
            }
        }
        r
    }
}

/// Two stores with the same hashes and nodes at every place hold the same.
proof fn lemma_same_entries(a: TrieDB, r: TrieDB)
    requires
        a.wf(),
        r.entries@.len() == a.entries@.len(),
        forall|j: int|
            0 <= j < a.entries@.len() ==> (#[trigger] r.entries@[j]).0 == a.entries@[j].0
                && r.entries@[j].1@ == a.entries@[j].1@,
    ensures
        r.wf(),
        r@ == a@,
{
    assert forall|h: Digest| r.holds(h) == a.holds(h) by {
        if a.holds(h) {
            let j = a.index_of(h);
            assert(r.entries@[j].0 == h);
        }
        if r.holds(h) {
            let j = r.index_of(h);
            assert(a.entries@[j].0 == h);
        }
    }
    assert forall|i: int, j: int| 0 <= i < j < r.entries@.len() implies r.entries@[i].0
        != r.entries@[j].0 by {
        assert(r.entries@[i].0 == a.entries@[i].0);
        assert(r.entries@[j].0 == a.entries@[j].0);
    }
    assert forall|h: Digest| a.holds(h) implies r.entries@[r.index_of(h)].1@
        == a.entries@[a.index_of(h)].1@ by {
        let x = r.index_of(h);
        let y = a.index_of(h);
        assert(r.entries@[x].0 == h);
        assert(a.entries@[x].0 == h);
        assert(a.entries@[y].0 == h);
        assert(x == y);
    }
    assert(r@ =~= a@);
}

impl TrieDB {
    spec fn holds(&self, h: Digest) -> bool {
        exists|i: int| 0 <= i < self.entries@.len() && self.entries@[i].0 == h
    }

    spec fn index_of(&self, h: Digest) -> int {
        choose|i: int| 0 <= i < self.entries@.len() && self.entries@[i].0 == h
    }

    /// No hash is held twice, so the store holds as many nodes as it has
    /// places.
    pub closed spec fn distinct(&self) -> bool {
        &&& forall|i: int, j: int|
            0 <= i < j < self.entries@.len() ==> self.entries@[i].0 != self.entries@[j].0
        &&& self@.dom().finite()
        &&& self@.dom().len() == self.entries@.len()
    }

    /// The store's invariant: it is content-addressed.
    pub open spec fn wf(&self) -> bool {
        self.distinct() && store_wf(self@)
    }

    /// An empty store.
    pub fn new() -> (db: TrieDB)
        ensures
            db.wf(),
            db@ == Map::<Digest, NodeView>::empty(),
    {
        let db = TrieDB { entries: Vec::new() };
        assert(db@ =~= Map::<Digest, NodeView>::empty());
        db
    }

    fn find(&self, hash: Digest) -> (r: Option<usize>)
        requires
            self.distinct(),
        ensures
            match r {
                Some(i) => i < self.entries@.len() && self.entries@[i as int].0 == hash
                    && self@.contains_key(hash) && self@[hash] == self.entries@[i as int].1@,
                None => !self@.contains_key(hash),
            },
    {
        let mut i: usize = 0;
        while i < self.entries.len()
            invariant
                self.distinct(),
                i <= self.entries@.len(),
                forall|j: int| 0 <= j < i ==> self.entries@[j].0 != hash,
            decreases self.entries@.len() - i,
        {
            if self.entries[i].0 == hash {
                assert(self.holds(hash));
                let ghost j = self.index_of(hash);
                assert(self.entries@[j].0 == hash);
                assert(j == i);
                return Some(i);
            }
            i += 1;
        }
        None
    }

    /// Whether a node is held under `hash`.
    pub fn contains(&self, hash: Digest) -> (r: bool)
        requires
            self.wf(),
        ensures
            r == self@.contains_key(hash),
    {
        self.find(hash).is_some()
    }

    /// The node held under `hash`.
    pub fn get(&self, hash: Digest) -> (r: Result<Node, Error>)
        requires
            self.wf(),
            hash != null_hash(),
        ensures
            match r {
                Ok(n) => self@.contains_key(hash) && n@ == self@[hash],
                Err(e) => !self@.contains_key(hash) && e == Error::StorageMiss,
            },
    {
        match self.find(hash) {
            Some(i) => Ok(self.entries[i].1.clone()),
            None => Err(Error::StorageMiss),
        }
    }

    /// Stores a node under its hash. A hash that is already held keeps its node.
    pub fn put(&mut self, hash: Digest, node: Node)
        requires
            old(self).wf(),
            hash != null_hash(),
            hash == node@.hash(),
            !(node@ is Proof),
        ensures
            final(self).wf(),
            final(self)@ == store_put(old(self)@, hash, node@),
            final(self).grown_from(*old(self)),
    {
        broadcast use vstd::array::array_len_matches_n;

        if self.find(hash).is_none() {
            let ghost before = *self;
            let ghost view = node@;
            self.entries.push((hash, node));
            proof {
                let n = before.entries@.len() as int;
                assert(self.entries@[n].0 == hash);
                assert forall|h: Digest| self.holds(h) <==> (h == hash || before.holds(h)) by {
                    if before.holds(h) {
                        let i = before.index_of(h);
                        assert(self.entries@[i].0 == h);
                    }
                    if h == hash {
                        assert(self.entries@[n].0 == h);
                    }
                }
                assert forall|h: Digest| self.holds(h) implies self.entries@[self.index_of(h)].1@
                    == (if h == hash {
                    view
                } else {
                    before.entries@[before.index_of(h)].1@
                }) by {
                    let i = self.index_of(h);
                    if h == hash {
                        assert(i == n);
                    } else {
                        assert(i < n);
                        assert(before.entries@[i].0 == h);
                        let j = before.index_of(h);
                        assert(i == j);
                    }
                }
                assert(self@ =~= before@.insert(hash, view));
                assert(view.wf());
            }
        }
    }

    /// Stores a branch or a leaf under the hash that it has, and returns that
    /// hash. A proof node, and a node whose hash is the null hash, is not
    /// stored.
    pub fn insert(&mut self, node: Node) -> (h: Digest)
        requires
            old(self).wf(),
        ensures
            final(self).wf(),
            h == node@.hash(),
            final(self)@ == (if node@ is Proof {
                old(self)@
            } else {
                store_put(old(self)@, node@.hash(), node@)
            }),
    {
        let h = node.hash();
        if !node.is_proof() && !h.is_null() {
            self.put(h, node);
        }
        h
    }

    /// How many nodes are held.
    pub fn len(&self) -> (r: usize)
        requires
            self.wf(),
        ensures
            r == self@.dom().len(),
            r == self.size(),
    {
        self.entries.len()
    }

    /// How many nodes the store has taken in.
    pub closed spec fn size(&self) -> nat {
        self.entries@.len()
    }

    /// Whether this store is the store `earlier` with nodes taken in after
    /// it: what `earlier` took in, it has kept, in the same order.
    pub closed spec fn grown_from(&self, earlier: TrieDB) -> bool {
        &&& earlier.entries@.len() <= self.entries@.len()
        &&& forall|i: int|
            0 <= i < earlier.entries@.len() ==> self.entries@[i] == earlier.entries@[i]
    }

    /// A store has grown from itself.
    pub proof fn lemma_grown_same(&self)
        ensures
            self.grown_from(*self),
    {
    }

    /// A store has taken in at least as many nodes as the store from which
    /// it has grown.
    pub proof fn lemma_grown_size(&self, earlier: TrieDB)
        requires
            self.grown_from(earlier),
        ensures
            earlier.size() <= self.size(),
    {
    }

    /// A store that has grown from a store that has grown from `earlier` has
    /// grown from `earlier`.
    pub proof fn lemma_grown_on(&self, mid: TrieDB, earlier: TrieDB)
        requires
            self.grown_from(mid),
            mid.grown_from(earlier),
        ensures
            self.grown_from(earlier),
    {
    }

    /// Forgets the nodes that were taken in after the first `n`: the store is
    /// again the store from which it has grown, as it was when it had taken
    /// in `n` nodes.
    pub fn rollback(&mut self, n: usize)
        requires
            n <= old(self).size(),
        ensures
            forall|earlier: TrieDB| #![trigger old(self).grown_from(earlier)]
                old(self).grown_from(earlier) && earlier.wf() && earlier.size() == n
                    ==> final(self).wf() && final(self)@ == earlier@,
    {
        let ghost before = *self;
        self.entries.truncate(n);
        proof {
            assert forall|earlier: TrieDB| #![trigger before.grown_from(earlier)]
                before.grown_from(earlier) && earlier.wf() && earlier.size()
                    == n implies self.wf() && self@ == earlier@ by {
                lemma_same_entries(earlier, *self);
            }
        }
    }
}

} // verus!
