//! The proof bundle that a capture session hands to a replay session, and the
//! minimizer that strips it of what the receiver already holds.

use vstd::prelude::*;
use crate::db::{store_put, TrieDB};
use crate::digest::{null_hash, Digest};
use crate::error::Error;
use crate::nibbles::copy_bytes;
use crate::node::{Node, NodeView};

verus! {

/// One post-state entry: the nodes that justify one write, each with the key
/// on whose descent path it lies.
pub type Entry = Vec<(Vec<u8>, Node)>;

/// The view of a list of (key, value) pairs.
pub open spec fn pairs_view(v: Seq<(Vec<u8>, Vec<u8>)>) -> Seq<(Seq<u8>, Seq<u8>)> {
    v.map_values(|p: (Vec<u8>, Vec<u8>)| (p.0@, p.1@))
}

/// The view of a list of (key, hash) pairs.
pub open spec fn hashes_view(v: Seq<(Vec<u8>, Digest)>) -> Seq<(Seq<u8>, Digest)> {
    v.map_values(|p: (Vec<u8>, Digest)| (p.0@, p.1))
}

/// The view of one post-state entry.
pub open spec fn entry_view(v: Seq<(Vec<u8>, Node)>) -> Seq<(Seq<u8>, NodeView)> {
    v.map_values(|p: (Vec<u8>, Node)| (p.0@, p.1@))
}

/// The view of a list of post-state entries.
pub open spec fn entries_view(v: Seq<Entry>) -> Seq<Seq<(Seq<u8>, NodeView)>> {
    v.map_values(|e: Entry| entry_view(e@))
}

/// The hashes that a list holds, as a set.
pub open spec fn set_of(v: Seq<Digest>) -> Set<Digest> {
    Set::new(|h: Digest| v.contains(h))
}

/// The set of trusted hashes after `h` was retained.
pub open spec fn retain(acc: Set<Digest>, h: Digest) -> Set<Digest> {
    if h == null_hash() {
        acc
    } else {
        acc.insert(h)
    }
}

/// A list of (key, hash) pairs without the pairs whose hash is trusted, or
/// was retained earlier in the list.
pub open spec fn minimize_hashes(list: Seq<(Seq<u8>, Digest)>, trusted: Set<Digest>) -> Seq<
    (Seq<u8>, Digest),
>
    decreases list.len(),
{
    if list.len() == 0 {
        list
    } else if trusted.contains(list[0].1) {
        minimize_hashes(list.skip(1), trusted)
    } else {
        seq![list[0]] + minimize_hashes(list.skip(1), retain(trusted, list[0].1))
    }
}

/// Whether the minimizer drops a node: a proof node holds nothing, and a node
/// whose hash is trusted is held by the receiver.
pub open spec fn droppable(node: NodeView, trusted: Set<Digest>) -> bool {
    node is Proof || trusted.contains(node.hash())
}

/// One entry without the nodes that the minimizer drops.
pub open spec fn minimize_entry(entry: Seq<(Seq<u8>, NodeView)>, trusted: Set<Digest>) -> Seq<
    (Seq<u8>, NodeView),
>
    decreases entry.len(),
{
    if entry.len() == 0 {
        entry
    } else if droppable(entry[0].1, trusted) {
        minimize_entry(entry.skip(1), trusted)
    } else {
        seq![entry[0]] + minimize_entry(entry.skip(1), retain(trusted, entry[0].1.hash()))
    }
}

/// The trusted hashes after an entry was minimized: those before it, and the
/// hashes of the nodes that were retained.
pub open spec fn trusted_after(entry: Seq<(Seq<u8>, NodeView)>, trusted: Set<Digest>) -> Set<
    Digest,
>
    decreases entry.len(),
{
    if entry.len() == 0 {
        trusted
    } else if droppable(entry[0].1, trusted) {
        trusted_after(entry.skip(1), trusted)
    } else {
        trusted_after(entry.skip(1), retain(trusted, entry[0].1.hash()))
    }
}

/// The entries of a post-state, each minimized against the trusted hashes and
/// what the entries before it retained.
pub open spec fn minimize_entries(
    entries: Seq<Seq<(Seq<u8>, NodeView)>>,
    trusted: Set<Digest>,
) -> Seq<Seq<(Seq<u8>, NodeView)>>
    decreases entries.len(),
{
    if entries.len() == 0 {
        entries
    } else {
        seq![minimize_entry(entries[0], trusted)] + minimize_entries(
            entries.skip(1),
            trusted_after(entries[0], trusted),
        )
    }
}

/// The store that holds `held` and the nodes that a list of (key, hash) pairs
/// names, each taken from `source`. A hash that `source` cannot resolve makes
/// the list malformed.
pub open spec fn gather(
    source: Map<Digest, NodeView>,
    held: Map<Digest, NodeView>,
    list: Seq<(Seq<u8>, Digest)>,
) -> Result<Map<Digest, NodeView>, Error>
    decreases list.len(),
{
    if list.len() == 0 {
        Ok(held)
    } else if list[0].1 == null_hash() || !source.contains_key(list[0].1) {
        Err(Error::MalformedProof)
    } else {
        gather(source, store_put(held, list[0].1, source[list[0].1]), list.skip(1))
    }
}

/// What a bundle holds, as mathematical values.
pub struct BundleView {
    /// The (key, value) pairs that were read, in the order of their first read.
    pub reads: Seq<(Seq<u8>, Seq<u8>)>,
    /// For each read key, the hashes of the nodes on its descent path.
    pub hashes: Seq<(Seq<u8>, Digest)>,
    /// One entry per write, in the order of the writes.
    pub post_state: Seq<Seq<(Seq<u8>, NodeView)>>,
}

/// The proof bundle: what was read from the pre-execution trie, and what
/// justifies each write.
#[derive(Debug, PartialEq, Eq)]
pub struct PreStateAndPostState {
    pub pre_state: (
        // The (key, value) pairs that were read.
        Vec<(Vec<u8>, Vec<u8>)>,
        // The (key, hash) pairs that name the nodes on the descent paths of the read keys.
        Vec<(Vec<u8>, Digest)>,
    ),
    // One entry per write: the nodes on the descent path of the written key
    // as they were immediately before that write.
    pub post_state: Vec<Entry>,
}

impl View for PreStateAndPostState {
    type V = BundleView;

    open spec fn view(&self) -> BundleView {
        BundleView {
            reads: pairs_view(self.pre_state.0@),
            hashes: hashes_view(self.pre_state.1@),
            post_state: entries_view(self.post_state@),
        }
    }
}

/// Tells whether a list of hashes holds `h`.
pub fn holds_digest(acc: &Vec<Digest>, h: Digest) -> (r: bool)
    ensures
        r == set_of(acc@).contains(h),
{
    let mut i: usize = 0;
    while i < acc.len()
        invariant
            i <= acc@.len(),
            forall|j: int| 0 <= j < i ==> acc@[j] != h,
        decreases acc@.len() - i,
    {
        if acc[i] == h {
            assert(acc@.contains(h));
            return true;
        }
        i += 1;
    }
    false
}

fn copy_digests(list: &Vec<Digest>) -> (r: Vec<Digest>)
    ensures
        r@ == list@,
{
    let mut r: Vec<Digest> = Vec::new();
    let mut i: usize = 0;
    while i < list.len()
        invariant
            i <= list@.len(),
            r@ == list@.take(i as int),
        decreases list@.len() - i,
    {
        r.push(list[i]);
        i += 1;
        assert(r@ =~= list@.take(i as int));
    }
    assert(list@.take(list@.len() as int) =~= list@);
    r
}

fn remember(acc: &mut Vec<Digest>, h: Digest)
    ensures
        set_of(final(acc)@) == retain(set_of(old(acc)@), h),
{
    if !h.is_null() {
        let ghost before = acc@;
        acc.push(h);
        proof {
            let after = acc@;
            assert(after =~= before.push(h));
            assert forall|x: Digest| after.contains(x) == (x == h || before.contains(x)) by {
                if before.contains(x) {
                    let i = choose|i: int| 0 <= i < before.len() && before[i] == x;
                    assert(after[i] == x);
                }
                if x == h {
                    assert(after[before.len() as int] == h);
                }
                if after.contains(x) {
                    let i = choose|i: int| 0 <= i < after.len() && after[i] == x;
                    if i < before.len() {
                        assert(before[i] == x);
                    }
                }
            }
            assert(set_of(after) =~= set_of(before).insert(h));
        }
    }
}

/// Minimizes one entry against `acc`, and adds to `acc` what it retains.
fn minimized_entry(entry: &Entry, acc: &mut Vec<Digest>) -> (kept: Entry)
    ensures
        entry_view(kept@) == minimize_entry(entry_view(entry@), set_of(old(acc)@)),
        set_of(final(acc)@) == trusted_after(entry_view(entry@), set_of(old(acc)@)),
{
    let ghost whole = entry_view(entry@);
    let ghost trusted = set_of(acc@);
    let mut kept: Entry = Vec::new();
    let mut i: usize = 0;
    assert(whole.skip(0) =~= whole);
    assert(entry_view(kept@) + minimize_entry(whole, trusted) =~= minimize_entry(whole, trusted));
    while i < entry.len()
        invariant
            i <= entry@.len(),
            whole == entry_view(entry@),
            entry_view(kept@) + minimize_entry(whole.skip(i as int), set_of(acc@))
                == minimize_entry(whole, trusted),
            trusted_after(whole.skip(i as int), set_of(acc@)) == trusted_after(whole, trusted),
        decreases entry@.len() - i,
    {
        let ghost rest = whole.skip(i as int);
        let ghost before = entry_view(kept@);
        assert(rest[0] == (entry@[i as int].0@, entry@[i as int].1@));
        assert(rest.skip(1) =~= whole.skip(i + 1));
        let node = &entry[i].1;
        if !node.is_proof() {
            let h = node.hash();
            if !holds_digest(acc, h) {
                kept.push((copy_bytes(&entry[i].0), node.clone()));
                remember(acc, h);
                assert(entry_view(kept@) =~= before + seq![rest[0]]);
            }
        }
        assert(entry_view(kept@) + minimize_entry(whole.skip(i + 1), set_of(acc@))
            =~= minimize_entry(whole, trusted));
        i += 1;
    }
    assert(entry_view(kept@) + minimize_entry(whole.skip(i as int), set_of(acc@)) =~= entry_view(
        kept@,
    ));
    kept
}

impl PreStateAndPostState {
    /// A bundle that holds nothing.
    pub fn new() -> (pps: PreStateAndPostState)
        ensures
            pps@.reads.len() == 0,
            pps@.hashes.len() == 0,
            pps@.post_state.len() == 0,
    {
        PreStateAndPostState { pre_state: (Vec::new(), Vec::new()), post_state: Vec::new() }
    }

    /// Drops from the pre-state every (key, hash) pair whose hash is in
    /// `trusted` or was retained earlier in the list.
    pub fn minimize_pre_state(&mut self, trusted: &Vec<Digest>)
        ensures
            final(self)@.reads == old(self)@.reads,
            final(self)@.post_state == old(self)@.post_state,
            final(self)@.hashes == minimize_hashes(old(self)@.hashes, set_of(trusted@)),
    {
        let ghost whole = hashes_view(self.pre_state.1@);
        let ghost start = set_of(trusted@);
        let mut acc = copy_digests(trusted);
        let mut kept: Vec<(Vec<u8>, Digest)> = Vec::new();
        let mut i: usize = 0;
        assert(whole.skip(0) =~= whole);
        assert(hashes_view(kept@) + minimize_hashes(whole, start) =~= minimize_hashes(
            whole,
            start,
        ));
        while i < self.pre_state.1.len()
            invariant
                i <= self.pre_state.1@.len(),
                *self == *old(self),
                whole == hashes_view(self.pre_state.1@),
                hashes_view(kept@) + minimize_hashes(whole.skip(i as int), set_of(acc@))
                    == minimize_hashes(whole, start),
            decreases self.pre_state.1@.len() - i,
        {
            let ghost rest = whole.skip(i as int);
            let ghost before = hashes_view(kept@);
            assert(rest[0] == (self.pre_state.1@[i as int].0@, self.pre_state.1@[i as int].1));
            assert(rest.skip(1) =~= whole.skip(i + 1));
            let h = self.pre_state.1[i].1;
            if !holds_digest(&acc, h) {
                kept.push((copy_bytes(&self.pre_state.1[i].0), h));
                remember(&mut acc, h);
                assert(hashes_view(kept@) =~= before + seq![rest[0]]);
            }
            assert(hashes_view(kept@) + minimize_hashes(whole.skip(i + 1), set_of(acc@))
                =~= minimize_hashes(whole, start));
            i += 1;
        }
        assert(hashes_view(kept@) + minimize_hashes(whole.skip(i as int), set_of(acc@))
            =~= hashes_view(kept@));
        self.pre_state.1 = kept;
    }

    /// Drops from every post-state entry the proof nodes and the nodes whose
    /// hash is in `trusted` or was retained earlier in the post-state.
    pub fn minimize_post_state(&mut self, trusted: &Vec<Digest>)
        ensures
            final(self)@.reads == old(self)@.reads,
            final(self)@.hashes == old(self)@.hashes,
            final(self)@.post_state == minimize_entries(old(self)@.post_state, set_of(trusted@)),
    {
        let ghost whole = entries_view(self.post_state@);
        let ghost start = set_of(trusted@);
        let mut acc = copy_digests(trusted);
        let mut kept: Vec<Entry> = Vec::new();
        let mut i: usize = 0;
        assert(whole.skip(0) =~= whole);
        assert(entries_view(kept@) + minimize_entries(whole, start) =~= minimize_entries(
            whole,
            start,
        ));
        while i < self.post_state.len()
            invariant
                i <= self.post_state@.len(),
                *self == *old(self),
                whole == entries_view(self.post_state@),
                entries_view(kept@) + minimize_entries(whole.skip(i as int), set_of(acc@))
                    == minimize_entries(whole, start),
            decreases self.post_state@.len() - i,
        {
            let ghost rest = whole.skip(i as int);
            let ghost before = entries_view(kept@);
            assert(rest[0] == entry_view(self.post_state@[i as int]@));
            assert(rest.skip(1) =~= whole.skip(i + 1));
            let ghost trusted = set_of(acc@);
            let entry = minimized_entry(&self.post_state[i], &mut acc);
            kept.push(entry);
            assert(entries_view(kept@) =~= before + seq![minimize_entry(rest[0], trusted)]);
            assert(entries_view(kept@) + minimize_entries(whole.skip(i + 1), set_of(acc@))
                =~= minimize_entries(whole, start));
            i += 1;
        }
        assert(entries_view(kept@) + minimize_entries(whole.skip(i as int), set_of(acc@))
            =~= entries_view(kept@));
        self.post_state = kept;
    }

    /// Adds to `held` the nodes that the pre-state names, each taken from
    /// `source`, and returns the store that results.
    pub fn gather_pre_state(&self, source: &TrieDB, held: TrieDB) -> (r: Result<TrieDB, Error>)
        requires
            source.wf(),
            held.wf(),
        ensures
            match gather(source@, held@, self@.hashes) {
                Ok(store) => r is Ok && r->Ok_0@ == store && r->Ok_0.wf(),
                Err(e) => r is Err && r->Err_0 == e,
            },
    {
        let ghost whole = hashes_view(self.pre_state.1@);
        let ghost start = held@;
        let mut db = held;
        let mut i: usize = 0;
        assert(whole.skip(0) =~= whole);
        while i < self.pre_state.1.len()
            invariant
                i <= self.pre_state.1@.len(),
                source.wf(),
                db.wf(),
                start == held@,
                whole == hashes_view(self.pre_state.1@),
                gather(source@, db@, whole.skip(i as int)) == gather(source@, start, whole),
            decreases self.pre_state.1@.len() - i,
        {
            let ghost rest = whole.skip(i as int);
            assert(rest[0] == (self.pre_state.1@[i as int].0@, self.pre_state.1@[i as int].1));
            assert(rest.skip(1) =~= whole.skip(i + 1));
            let h = self.pre_state.1[i].1;
            assert(rest.len() > 0 && rest[0].1 == h);
            if h.is_null() {
                assert(gather(source@, db@, rest) == Err::<Map<Digest, NodeView>, Error>(
                    Error::MalformedProof,
                ));
                return Err(Error::MalformedProof);
            }
            match source.get(h) {
                Ok(node) => {
                    db.put(h, node);
                },
                Err(_) => {
                    return Err(Error::MalformedProof);
                },
            }
            i += 1;
        }
        Ok(db)
    }
}

} // verus!
